//! A process's heap: where values too big for one word live.
//!
//! The heap is a list of chunks, and a chunk is one block of words carved into
//! cells, one value per cell. There is no chunk until the first cell is needed;
//! small cells fill chunks that start at 2 KB and grow about 1.6 times; and a
//! cell bigger than the current chunk size gets a chunk of exactly its size,
//! which goes when the cell is freed.
//!
//! Every cell starts with one header word: its reference count, its kind, and
//! its size in words. A cell is freed when its count reaches zero, and its space
//! is kept on a free list for the next cell of the same size. Freeing a cell
//! gives up the references it holds too, and so on down.

use crate::vm::record::{
    after_held, all_canonical, Body, cells_in, first_held, keeps, Kind, lemma_lowered,
    lemma_rewritten, lemma_with_cell, lemma_with_ref, lemma_without, lowered, part_of, Record,
    rewritten, with_cell, with_ref, without,
};
use crate::vm::value::{Cell, law_cell_roundtrip, Value};
use std::collections::HashMap;
use vstd::multiset::Multiset;
use vstd::prelude::*;

verus! {

broadcast use vstd::std_specs::hash::group_hash_axioms;

/// Words in the first chunk: 2 KB.
pub const FIRST_CHUNK_WORDS: usize = 256;

/// The most words one cell can take, its header's among them.
pub const MAX_CELL_WORDS: usize = 0x1000_0000;

pub const MAX_CHUNKS: usize = 0x10_0000;

/// A heap that has run out of the cells a [`Cell`] can name.
#[derive(Debug, Clone, Copy, PartialEq, Eq, Structural)]
pub struct Full;

pub struct Chunk {
    pub words: Vec<u64>,
    /// Words handed out so far, from the front.
    pub used: usize,
    /// Made for one big cell. It goes when that cell does.
    pub own: bool,
}

pub struct Heap {
    /// Indexed by a cell's chunk. A chunk that went leaves `None`, and its index
    /// is used for the next chunk made.
    pub chunks: Vec<Option<Chunk>>,
    pub spare: Vec<u32>,
    /// The chunk small cells are carved from now.
    pub current: Option<u32>,
    /// Words in the next chunk for small cells.
    pub next_chunk: usize,
    /// Freed small cells, by size in words.
    pub free: HashMap<usize, Vec<Cell>>,
    pub live: u64,
    /// Cells made over this heap's life, and cells a constructor overwrote
    /// instead.
    pub made: u64,
    pub reused: u64,
    /// The size of every cell carved, whether it is in use or free.
    pub carved: Ghost<Map<Cell, nat>>,
    pub rec: Ghost<Record>,
}

/// A header word: the count in the low 32 bits, then the kind, then the cell's
/// size in words.
pub open spec fn header(count: nat, kind: Kind, size: nat) -> u64 {
    (count + kind.spec_number() * 0x1_0000_0000 + (size - 1) * 0x10_0000_0000) as u64
}

fn header_word(count: u64, kind: Kind, size: usize) -> (r: u64)
    requires
        count <= u32::MAX,
        1 <= size <= MAX_CELL_WORDS,
    ensures
        r == header(count as nat, kind, size as nat),
        r % 0x1_0000_0000 == count,
        r / 0x1_0000_0000 % 16 == kind.spec_number(),
        r / 0x10_0000_0000 == size - 1,
{
    let k: u64 = kind.number();
    count + k * 0x1_0000_0000 + (size as u64 - 1) * 0x10_0000_0000
}

proof fn lemma_header(count: nat, kind: Kind, size: nat)
    requires
        count <= u32::MAX,
        1 <= size <= MAX_CELL_WORDS,
    ensures
        header(count, kind, size) % 0x1_0000_0000 == count,
        header(count, kind, size) / 0x1_0000_0000 % 16 == kind.spec_number(),
        header(count, kind, size) / 0x10_0000_0000 == size - 1,
        header(count, kind, size) == count + kind.spec_number() * 0x1_0000_0000 + (size - 1)
            * 0x10_0000_0000,
{
}

fn count_of(h: u64) -> (r: u64)
    ensures
        r == h % 0x1_0000_0000,
{
    h % 0x1_0000_0000
}

fn kind_of(h: u64) -> (r: Option<Kind>)
    ensures
        r is Some <==> 1 <= h / 0x1_0000_0000 % 16 <= 14,
        r matches Some(k) ==> k.spec_number() == h / 0x1_0000_0000 % 16,
{
    Kind::from_number(h / 0x1_0000_0000 % 16)
}

fn size_of(h: u64) -> (r: usize)
    ensures
        r == h / 0x10_0000_0000 + 1,
{
    (h / 0x10_0000_0000) as usize + 1
}

/// Word `i` of a cell, or zero where there is none.
pub open spec fn peek(chunks: Seq<Option<Chunk>>, c: Cell, i: int) -> u64 {
    if c.chunk < chunks.len() && chunks[c.chunk as int] is Some && 0 <= c.word + i
        < chunks[c.chunk as int]->Some_0.words@.len() {
        chunks[c.chunk as int]->Some_0.words@[c.word + i]
    } else {
        0
    }
}

/// Two carved cells share no word.
pub open spec fn apart(carved: Map<Cell, nat>, c: Cell, d: Cell) -> bool {
    c.chunk != d.chunk || c.word + carved[c] <= d.word || d.word + carved[d] <= c.word
}

impl Heap {
    /// Chunks are of a size that cells can name, and free indices are those of
    /// chunks that went.
    spec fn chunks_ok(self) -> bool {
        &&& self.chunks@.len() <= MAX_CHUNKS
        &&& forall|i: int|
            0 <= i < self.chunks@.len() ==> ((#[trigger] self.chunks@[i]) matches Some(ch)
                ==> ch.words@.len() <= MAX_CELL_WORDS && ch.used <= ch.words@.len())
        &&& self.spare@.no_duplicates()
        &&& forall|i: int|
            0 <= i < self.spare@.len() ==> #[trigger] self.spare@[i] < self.chunks@.len()
                && self.chunks@[self.spare@[i] as int] is None
        &&& self.current matches Some(i) ==> i < self.chunks@.len()
            && self.chunks@[i as int] is Some && !self.chunks@[i as int]->Some_0.own
    }

    /// Carved cells lie in their chunks and share no word.
    spec fn carved_ok(self) -> bool {
        &&& forall|c: Cell| #[trigger]
            self.carved@.dom().contains(c) ==> {
                &&& c.chunk < self.chunks@.len()
                &&& self.chunks@[c.chunk as int] is Some
                &&& 1 <= self.carved@[c]
                &&& c.word + self.carved@[c] <= self.chunks@[c.chunk as int]->Some_0.used
                &&& self.chunks@[c.chunk as int]->Some_0.own ==> c.word == 0 && self.carved@[c]
                    == self.chunks@[c.chunk as int]->Some_0.words@.len()
            }
        &&& forall|c: Cell, d: Cell| #[trigger]
            self.carved@.dom().contains(c) && #[trigger] self.carved@.dom().contains(d) && c != d
                ==> apart(self.carved@, c, d)
    }

    /// Free cells are carved, of the size they are listed under, and none is
    /// listed twice or in use.
    spec fn free_ok(self) -> bool {
        &&& forall|s: usize, i: int|
            #![trigger self.free@[s]@[i]]
            self.free@.dom().contains(s) && 0 <= i < self.free@[s]@.len() ==> {
                let c = self.free@[s]@[i];
                &&& self.carved@.dom().contains(c)
                &&& self.carved@[c] == s
                &&& !self.rec@.has(c)
                &&& !self.chunks@[c.chunk as int]->Some_0.own
            }
        &&& forall|s: usize| #[trigger]
            self.free@.dom().contains(s) ==> self.free@[s]@.no_duplicates()
    }

    /// The words of a cell in use say what it holds.
    spec fn tied(self) -> bool {
        forall|c: Cell| #[trigger]
            self.rec@.has(c) ==> {
                &&& self.carved@.dom().contains(c)
                &&& self.carved@[c] == self.rec@.cells[c].data.len() + 1
                &&& peek(self.chunks@, c, 0) == header(
                    self.rec@.counts[c],
                    self.rec@.cells[c].kind,
                    self.rec@.cells[c].data.len() + 1,
                )
                &&& forall|i: int|
                    0 <= i < self.rec@.cells[c].data.len() ==> peek(self.chunks@, c, i + 1)
                        == #[trigger] self.rec@.cells[c].data[i]
            }
    }

    spec fn laid_out(self) -> bool {
        &&& self.chunks_ok()
        &&& self.carved_ok()
        &&& self.free_ok()
        &&& self.tied()
        &&& self.live == self.rec@.order.len()
    }

    /// What the heap holds.
    pub open spec fn record(self) -> Record {
        self.rec@
    }

    /// The words agree with what the heap holds, and every count is right.
    pub closed spec fn wf(self) -> bool {
        self.laid_out() && self.rec@.ok()
    }

    /// The size of the next chunk for small cells.
    pub open spec fn spec_chunk_size(self) -> usize {
        if self.next_chunk > FIRST_CHUNK_WORDS {
            self.next_chunk
        } else {
            FIRST_CHUNK_WORDS
        }
    }

    /// There is an index for another chunk of `words` words.
    pub open spec fn room_for_chunk(self, words: int) -> bool {
        words <= MAX_CELL_WORDS && (self.spare@.len() > 0 || self.chunks@.len() < MAX_CHUNKS)
    }

    /// There is room for a cell of `size` words: a free one, a chunk of its own
    /// for a big one, or the current chunk or a new one.
    pub open spec fn has_room(self, size: int) -> bool {
        ||| (exists|s: usize|
            s == size && #[trigger] self.free@.dom().contains(s) && self.free@[s]@.len() > 0)
        ||| if size > self.spec_chunk_size() {
            self.room_for_chunk(size)
        } else {
            ||| self.current is Some && self.chunks@[self.current->Some_0 as int]->Some_0.words@.len()
                - self.chunks@[self.current->Some_0 as int]->Some_0.used >= size
            ||| self.room_for_chunk(self.spec_chunk_size() as int)
        }
    }

    /// A freed cell of `size` words waits to be used again.
    pub open spec fn waiting(self, size: usize) -> bool {
        self.free@.dom().contains(size) && self.free@[size]@.len() > 0
    }

    /// The chunk small cells are carved from has `size` words left.
    pub open spec fn current_fits(self, size: int) -> bool {
        self.current matches Some(i) && self.chunks@[i as int]->Some_0.words@.len()
            - self.chunks@[i as int]->Some_0.used >= size
    }

    /// There is a chunk of `words` words at `i`.
    pub open spec fn chunk_is(self, i: int, words: int, own: bool) -> bool {
        &&& 0 <= i < self.chunks@.len()
        &&& self.chunks@[i] matches Some(ch) && ch.words@.len() == words && ch.own == own
    }

    /// No chunk of `o` went, or changed its size.
    pub open spec fn chunks_stay(self, o: Heap) -> bool {
        &&& o.chunks@.len() <= self.chunks@.len()
        &&& forall|i: int|
            0 <= i < o.chunks@.len() && (#[trigger] o.chunks@[i]) is Some ==> self.chunk_is(
                i,
                o.chunks@[i]->Some_0.words@.len() as int,
                o.chunks@[i]->Some_0.own,
            )
    }

    /// Where a new cell of `size` words goes, and how the heap grew from `o` for
    /// it: a freed cell of that size is used again; a cell bigger than the next
    /// chunk gets one of exactly its size; any other is carved from the current
    /// chunk, or from a new one when that has no room, and the next chunk is to
    /// be 1.6 times as big.
    pub open spec fn placed(self, o: Heap, c: Cell, size: usize) -> bool {
        &&& self.chunks_stay(o)
        &&& if o.waiting(size) {
            &&& c == o.free@[size]@.last()
            &&& self.free@[size]@ == o.free@[size]@.drop_last()
            &&& self.chunks@.len() == o.chunks@.len()
            &&& self.current == o.current
            &&& self.next_chunk == o.next_chunk
        } else if size > o.spec_chunk_size() {
            &&& c.word == 0
            &&& c.chunk >= o.chunks@.len() || o.chunks@[c.chunk as int] is None
            &&& self.chunk_is(c.chunk as int, size as int, true)
            &&& self.current == o.current
            &&& self.next_chunk == o.next_chunk
        } else if o.current_fits(size as int) {
            &&& Some(c.chunk) == o.current
            &&& c.word == o.chunks@[c.chunk as int]->Some_0.used
            &&& self.chunks@.len() == o.chunks@.len()
            &&& self.current == o.current
            &&& self.next_chunk == o.next_chunk
        } else {
            &&& c.word == 0
            &&& c.chunk >= o.chunks@.len() || o.chunks@[c.chunk as int] is None
            &&& self.chunk_is(c.chunk as int, o.spec_chunk_size() as int, false)
            &&& self.current == Some(c.chunk)
            &&& self.next_chunk == o.spec_chunk_size() * 8 / 5
        }
    }

    /// A cell of `o` that is freed is given back: a chunk of its own goes, and
    /// any other cell waits to be used again.
    pub open spec fn given_back(self, o: Heap, c: Cell, size: usize) -> bool {
        if o.chunks@[c.chunk as int]->Some_0.own {
            self.chunks@[c.chunk as int] is None
        } else {
            self.free@.dom().contains(size) && self.free@[size]@.contains(c)
        }
    }

    /// The heap gained no chunk since `o`, and lost no cell that waits.
    pub open spec fn only_freed(self, o: Heap) -> bool {
        &&& self.chunks@.len() == o.chunks@.len()
        &&& o.chunks_stay(self)
        &&& forall|s: usize, d: Cell|
            #![trigger self.free@[s]@.contains(d)]
            #![trigger o.free@[s]@.contains(d)]
            o.free@.dom().contains(s) && o.free@[s]@.contains(d) ==> self.free@.dom().contains(s)
                && self.free@[s]@.contains(d)
        &&& self.current == o.current
        &&& self.next_chunk == o.next_chunk
    }

    /// The heap can grow no more, or a cell has as many references as can be
    /// counted.
    pub open spec fn full(self) -> bool {
        ||| !self.room_for_chunk(self.spec_chunk_size() as int)
        ||| exists|c: Cell| #[trigger]
            self.record().has(c) && self.record().counts[c] >= u32::MAX
    }

    pub proof fn lemma_record_ok(self)
        requires
            self.wf(),
        ensures
            self.record().ok(),
    {
    }

    /// An empty heap.
    pub fn new() -> (r: Heap)
        ensures
            r.wf(),
            r.record().cells == Map::<Cell, Body>::empty(),
            r.record().ext == Multiset::<Cell>::empty(),
            r.record().order.len() == 0,
            r.chunks@.len() == 0,
            r.made == 0,
            r.reused == 0,
    {
        let ghost rec = Record {
            cells: Map::empty(),
            counts: Map::empty(),
            order: Seq::empty(),
            ext: Multiset::empty(),
            rank: Map::empty(),
            clock: 0,
        };
        let r = Heap {
            chunks: Vec::new(),
            spare: Vec::new(),
            current: None,
            next_chunk: 0,
            free: HashMap::new(),
            live: 0,
            made: 0,
            reused: 0,
            carved: Ghost(Map::empty()),
            rec: Ghost(rec),
        };
        proof {
            assert(rec.ok());
        }
        r
    }

    /// Word `i` of a cell, or zero where there is none.
    fn word(&self, cell: Cell, i: usize) -> (r: u64)
        requires
            i <= MAX_CELL_WORDS,
        ensures
            r == peek(self.chunks@, cell, i as int),
    {
        let k: usize = cell.chunk as usize;
        if k >= self.chunks.len() {
            return 0;
        }
        match &self.chunks[k] {
            Some(c) => {
                let at: u64 = cell.word as u64 + i as u64;
                if at < c.words.len() as u64 {
                    c.words[at as usize]
                } else {
                    0
                }
            },
            None => 0,
        }
    }

    /// Write word `i` of a carved cell.
    fn set_word(&mut self, cell: Cell, i: usize, w: u64)
        requires
            old(self).chunks_ok(),
            old(self).carved_ok(),
            old(self).free_ok(),
            old(self).carved@.dom().contains(cell),
            i < old(self).carved@[cell],
        ensures
            final(self).chunks_ok(),
            final(self).carved_ok(),
            final(self).free_ok(),
            final(self).same_but_words(*old(self)),
            peek(final(self).chunks@, cell, i as int) == w,
            forall|d: Cell, j: int|
                #![trigger peek(final(self).chunks@, d, j)]
                old(self).carved@.dom().contains(d) && 0 <= j < old(self).carved@[d] && (d != cell
                    || j != i) ==> peek(final(self).chunks@, d, j) == peek(old(self).chunks@, d, j),
    {
        let k: usize = cell.chunk as usize;
        let ghost before = *self;
        let mut slot: Option<Chunk> = None;
        std::mem::swap(&mut self.chunks[k], &mut slot);
        match slot {
            Some(ch) => {
                let mut ch = ch;
                let at: usize = cell.word as usize + i;
                ch.words.set(at, w);
                self.chunks.set(k, Some(ch));
            },
            None => {},
        }
        proof {
            assert forall|j: int| 0 <= j < self.chunks@.len() implies ((#[trigger] self.chunks@[j]) matches Some(
                ch,
            ) ==> ch.words@.len() <= MAX_CELL_WORDS && ch.used <= ch.words@.len()) by {
                assert(before.chunks@[j] matches Some(ch) ==> ch.words@.len() <= MAX_CELL_WORDS
                    && ch.used <= ch.words@.len());
            }
            assert forall|j: int| 0 <= j < self.spare@.len() implies #[trigger] self.spare@[j]
                < self.chunks@.len() && self.chunks@[self.spare@[j] as int] is None by {
                assert(before.chunks@[before.spare@[j] as int] is None);
            }
            assert forall|d: Cell, j: int|
                #![trigger peek(self.chunks@, d, j)]
                before.carved@.dom().contains(d) && 0 <= j < before.carved@[d] && (d != cell || j
                    != i) implies peek(self.chunks@, d, j) == peek(before.chunks@, d, j) by {
                if d != cell {
                    assert(apart(before.carved@, d, cell));
                }
            }
        }
    }

    /// Nothing but words differs.
    spec fn same_but_words(self, o: Heap) -> bool {
        &&& self.chunks@.len() == o.chunks@.len()
        &&& forall|i: int|
            0 <= i < self.chunks@.len() ==> {
                &&& (#[trigger] self.chunks@[i]) is Some <==> o.chunks@[i] is Some
                &&& self.chunks@[i] is Some ==> self.chunks@[i]->Some_0.used
                    == o.chunks@[i]->Some_0.used && self.chunks@[i]->Some_0.own
                    == o.chunks@[i]->Some_0.own && self.chunks@[i]->Some_0.words@.len()
                    == o.chunks@[i]->Some_0.words@.len()
            }
        &&& self.spare@ == o.spare@
        &&& self.current == o.current
        &&& self.next_chunk == o.next_chunk
        &&& self.free == o.free
        &&& self.live == o.live
        &&& self.made == o.made
        &&& self.reused == o.reused
        &&& self.carved@ == o.carved@
        &&& self.rec@ == o.rec@
    }

    fn chunk_size(&self) -> (r: usize)
        ensures
            r == self.spec_chunk_size(),
    {
        if self.next_chunk > FIRST_CHUNK_WORDS {
            self.next_chunk
        } else {
            FIRST_CHUNK_WORDS
        }
    }

    /// A new chunk of `words` words, at an index that was free.
    fn new_chunk(&mut self, words: usize, own: bool) -> (r: Result<u32, Full>)
        requires
            old(self).laid_out(),
        ensures
            final(self).laid_out(),
            final(self).rec@ == old(self).rec@,
            final(self).carved@ == old(self).carved@,
            final(self).next_chunk == old(self).next_chunk,
            final(self).current == old(self).current,
            final(self).free@ == old(self).free@,
            final(self).made == old(self).made,
            final(self).reused == old(self).reused,
            match r {
                Ok(i) => {
                    &&& old(self).room_for_chunk(words as int)
                    &&& i < final(self).chunks@.len()
                    &&& final(self).chunks@[i as int] is Some
                    &&& final(self).chunks@[i as int]->Some_0.words@.len() == words
                    &&& final(self).chunks@[i as int]->Some_0.used == if own {
                        words
                    } else {
                        0
                    }
                    &&& final(self).chunks@[i as int]->Some_0.own == own
                    &&& i >= old(self).chunks@.len() || old(self).chunks@[i as int] is None
                    &&& final(self).chunks_stay(*old(self))
                    &&& forall|c: Cell| #[trigger]
                        final(self).carved@.dom().contains(c) ==> c.chunk != i
                    &&& forall|c: Cell| #[trigger]
                        old(self).carved@.dom().contains(c) ==> c.chunk < old(self).chunks@.len()
                            && final(self).chunks@[c.chunk as int] == old(
                            self,
                        ).chunks@[c.chunk as int]
                },
                Err(_) => !old(self).room_for_chunk(words as int) && *final(self) == *old(self),
            },
    {
        let ghost before = *self;
        if words > MAX_CELL_WORDS {
            return Err(Full);
        }
        if self.spare.len() == 0 && self.chunks.len() >= MAX_CHUNKS {
            return Err(Full);
        }
        let zeros: Vec<u64> = vec![0u64; words];
        let used: usize = if own {
            words
        } else {
            0
        };
        let chunk = Chunk { words: zeros, used, own };
        let i: u32 = match self.spare.pop() {
            Some(i) => {
                proof {
                    let last = before.spare@.len() - 1;
                    assert(before.spare@[last] == i);
                    assert(before.chunks@[i as int] is None);
                    assert forall|j: int| 0 <= j < self.spare@.len() implies self.spare@[j] != i by {
                        assert(before.spare@[j] != before.spare@[last]);
                    }
                }
                self.chunks.set(i as usize, Some(chunk));
                i
            },
            None => {
                let i: u32 = self.chunks.len() as u32;
                self.chunks.push(Some(chunk));
                i
            },
        };
        proof {
            assert forall|c: Cell| #[trigger] before.carved@.dom().contains(c) implies c.chunk != i
                && c.chunk < before.chunks@.len() && self.chunks@[c.chunk as int]
                == before.chunks@[c.chunk as int] by {
                assert(before.chunks@[c.chunk as int] is Some);
            }
            assert forall|j: int| 0 <= j < self.spare@.len() implies #[trigger] self.spare@[j]
                < self.chunks@.len() && self.chunks@[self.spare@[j] as int] is None by {
                assert(before.spare@[j] < before.chunks@.len());
                assert(before.chunks@[before.spare@[j] as int] is None);
            }
            assert forall|j: int| 0 <= j < self.chunks@.len() implies ((#[trigger] self.chunks@[j]) matches Some(
                ch,
            ) ==> ch.words@.len() <= MAX_CELL_WORDS && ch.used <= ch.words@.len()) by {
                if j != i {
                    assert(before.chunks@[j] == self.chunks@[j]);
                }
            }
            assert forall|c: Cell, j: int| before.carved@.dom().contains(c) implies #[trigger] peek(
                self.chunks@,
                c,
                j,
            ) == peek(before.chunks@, c, j) by {}
            if before.current is Some {
                assert(before.chunks@[before.current->Some_0 as int] is Some);
            }
        }
        Ok(i)
    }

    /// A carved cell that is neither in use nor free.
    spec fn loose(self, c: Cell, size: int) -> bool {
        &&& self.carved@.dom().contains(c)
        &&& self.carved@[c] == size
        &&& !self.rec@.has(c)
        &&& forall|s: usize, i: int|
            self.free@.dom().contains(s) && 0 <= i < self.free@[s]@.len() ==> #[trigger] self.free@[s]@[i]
                != c
    }

    /// A chunk for one big cell.
    fn own_chunk(&mut self, size: usize) -> (r: Result<Cell, Full>)
        requires
            old(self).laid_out(),
            size >= 1,
        ensures
            final(self).laid_out(),
            final(self).rec@ == old(self).rec@,
            final(self).made == old(self).made,
            final(self).reused == old(self).reused,
            match r {
                Ok(c) => {
                    &&& c.ok()
                    &&& final(self).loose(c, size as int)
                    &&& final(self).chunks_stay(*old(self))
                    &&& c.word == 0
                    &&& c.chunk >= old(self).chunks@.len() || old(
                        self,
                    ).chunks@[c.chunk as int] is None
                    &&& final(self).chunk_is(c.chunk as int, size as int, true)
                    &&& final(self).current == old(self).current
                    &&& final(self).next_chunk == old(self).next_chunk
                },
                Err(_) => !old(self).room_for_chunk(size as int) && *final(self) == *old(self),
            },
    {
        let ghost before = *self;
        let chunk = self.new_chunk(size, true)?;
        let cell = Cell { chunk, word: 0 };
        let ghost mid = *self;
        proof {
            self.carved@ = self.carved@.insert(cell, size as nat);
            self.lemma_carve(mid, cell, size as nat);
        }
        Ok(cell)
    }

    /// A cell carved from words that no other has.
    proof fn lemma_carve(self, o: Heap, cell: Cell, size: nat)
        requires
            o.chunks_ok(),
            o.tied(),
            o.free_ok(),
            o.live == o.rec@.order.len(),
            self.rec@ == o.rec@,
            self.free@ == o.free@,
            self.live == o.live,
            self.spare@ == o.spare@,
            self.current == o.current,
            self.carved@ == o.carved@.insert(cell, size),
            size >= 1,
            !o.carved@.dom().contains(cell),
            cell.chunk < self.chunks@.len(),
            self.chunks_ok(),
            self.chunks@[cell.chunk as int] is Some,
            cell.word + size <= self.chunks@[cell.chunk as int]->Some_0.used,
            self.chunks@[cell.chunk as int]->Some_0.own ==> cell.word == 0 && size
                == self.chunks@[cell.chunk as int]->Some_0.words@.len(),
            forall|c: Cell| #[trigger]
                o.carved@.dom().contains(c) ==> {
                    &&& c.chunk < self.chunks@.len()
                    &&& self.chunks@[c.chunk as int] is Some
                    &&& 1 <= o.carved@[c]
                    &&& c.word + o.carved@[c] <= self.chunks@[c.chunk as int]->Some_0.used
                    &&& self.chunks@[c.chunk as int]->Some_0.own ==> c.word == 0 && o.carved@[c]
                        == self.chunks@[c.chunk as int]->Some_0.words@.len()
                    &&& c.chunk != cell.chunk || c.word + o.carved@[c] <= cell.word
                    &&& o.chunks@[c.chunk as int] is Some
                    &&& self.chunks@[c.chunk as int]->Some_0.words@
                        == o.chunks@[c.chunk as int]->Some_0.words@
                    &&& self.chunks@[c.chunk as int]->Some_0.own
                        == o.chunks@[c.chunk as int]->Some_0.own
                    &&& c.chunk < o.chunks@.len()
                },
            forall|c: Cell, d: Cell| #[trigger]
                o.carved@.dom().contains(c) && #[trigger] o.carved@.dom().contains(d) && c != d
                    ==> apart(o.carved@, c, d),
        ensures
            self.laid_out(),
            self.loose(cell, size as int),
    {
        assert forall|c: Cell, d: Cell| #[trigger]
            self.carved@.dom().contains(c) && #[trigger] self.carved@.dom().contains(d) && c
                != d implies apart(self.carved@, c, d) by {
            if c == cell {
                assert(o.carved@.dom().contains(d));
            } else if d == cell {
                assert(o.carved@.dom().contains(c));
            } else {
                assert(o.carved@.dom().contains(c));
                assert(o.carved@.dom().contains(d));
                assert(apart(o.carved@, c, d));
            }
        }
        assert forall|c: Cell| #[trigger] self.rec@.has(c) implies {
            &&& self.carved@.dom().contains(c)
            &&& self.carved@[c] == self.rec@.cells[c].data.len() + 1
            &&& peek(self.chunks@, c, 0) == header(
                self.rec@.counts[c],
                self.rec@.cells[c].kind,
                self.rec@.cells[c].data.len() + 1,
            )
            &&& forall|i: int|
                0 <= i < self.rec@.cells[c].data.len() ==> peek(self.chunks@, c, i + 1)
                    == #[trigger] self.rec@.cells[c].data[i]
        } by {
            assert(o.rec@.has(c));
            assert(o.carved@.dom().contains(c));
            assert(peek(self.chunks@, c, 0) == peek(o.chunks@, c, 0));
            assert forall|i: int| 0 <= i < self.rec@.cells[c].data.len() implies peek(
                self.chunks@,
                c,
                i + 1,
            ) == #[trigger] self.rec@.cells[c].data[i] by {
                assert(peek(o.chunks@, c, i + 1) == o.rec@.cells[c].data[i]);
            }
        }
        assert forall|s: usize, i: int|
            #![trigger self.free@[s]@[i]]
            self.free@.dom().contains(s) && 0 <= i < self.free@[s]@.len() implies {
            let c = self.free@[s]@[i];
            &&& self.carved@.dom().contains(c)
            &&& self.carved@[c] == s
            &&& !self.rec@.has(c)
            &&& !self.chunks@[c.chunk as int]->Some_0.own
            &&& c != cell
        } by {
            let c = o.free@[s]@[i];
            assert(o.carved@.dom().contains(c));
        }
    }

    /// `size` words from the current chunk, starting a new, bigger one when it
    /// has no room.
    fn carve(&mut self, size: usize) -> (r: Result<Cell, Full>)
        requires
            old(self).laid_out(),
            1 <= size <= old(self).spec_chunk_size(),
        ensures
            final(self).laid_out(),
            final(self).rec@ == old(self).rec@,
            final(self).made == old(self).made,
            final(self).reused == old(self).reused,
            match r {
                Ok(c) => {
                    &&& c.ok()
                    &&& final(self).loose(c, size as int)
                    &&& final(self).chunks_stay(*old(self))
                    &&& if old(self).current_fits(size as int) {
                        &&& Some(c.chunk) == old(self).current
                        &&& c.word == old(self).chunks@[c.chunk as int]->Some_0.used
                        &&& final(self).chunks@.len() == old(self).chunks@.len()
                        &&& final(self).current == old(self).current
                        &&& final(self).next_chunk == old(self).next_chunk
                    } else {
                        &&& c.word == 0
                        &&& c.chunk >= old(self).chunks@.len() || old(
                            self,
                        ).chunks@[c.chunk as int] is None
                        &&& final(self).chunk_is(
                            c.chunk as int,
                            old(self).spec_chunk_size() as int,
                            false,
                        )
                        &&& final(self).current == Some(c.chunk)
                        &&& final(self).next_chunk == old(self).spec_chunk_size() * 8 / 5
                    }
                },
                Err(_) => {
                    &&& !old(self).has_room(size as int) || exists|s: usize|
                        s == size && #[trigger] old(self).free@.dom().contains(s) && old(
                            self,
                        ).free@[s]@.len() > 0
                    &&& final(self).full()
                },
            },
    {
        match self.current {
            Some(i) => {
                let fits = match &self.chunks[i as usize] {
                    Some(ch) => ch.words.len() - ch.used >= size,
                    None => false,
                };
                if fits {
                    return Ok(self.carve_from(i, size));
                }
            },
            None => {},
        }
        let words = self.chunk_size();
        let i = self.new_chunk(words, false)?;
        self.next_chunk = words * 8 / 5;
        self.current = Some(i);
        Ok(self.carve_from(i, size))
    }

    /// `size` words from a chunk that has them.
    fn carve_from(&mut self, i: u32, size: usize) -> (c: Cell)
        requires
            old(self).laid_out(),
            size >= 1,
            i < old(self).chunks@.len(),
            old(self).chunks@[i as int] is Some,
            !old(self).chunks@[i as int]->Some_0.own,
            old(self).chunks@[i as int]->Some_0.words@.len() - old(
                self,
            ).chunks@[i as int]->Some_0.used >= size,
        ensures
            final(self).laid_out(),
            final(self).rec@ == old(self).rec@,
            final(self).made == old(self).made,
            final(self).reused == old(self).reused,
            c.ok(),
            final(self).loose(c, size as int),
            c.chunk == i,
            c.word == old(self).chunks@[i as int]->Some_0.used,
            final(self).chunks_stay(*old(self)),
            final(self).chunks@.len() == old(self).chunks@.len(),
            final(self).current == old(self).current,
            final(self).next_chunk == old(self).next_chunk,
    {
        let ghost before = *self;
        let k: usize = i as usize;
        let mut slot: Option<Chunk> = None;
        std::mem::swap(&mut self.chunks[k], &mut slot);
        let mut at: usize = 0;
        match slot {
            Some(ch) => {
                let mut ch = ch;
                at = ch.used;
                ch.used = at + size;
                self.chunks.set(k, Some(ch));
            },
            None => {},
        }
        let cell = Cell { chunk: i, word: at as u32 };
        proof {
            self.carved@ = self.carved@.insert(cell, size as nat);
            assert(!before.carved@.dom().contains(cell)) by {
                if before.carved@.dom().contains(cell) {
                    assert(cell.word + before.carved@[cell]
                        <= before.chunks@[cell.chunk as int]->Some_0.used);
                }
            }
            assert forall|j: int| 0 <= j < self.chunks@.len() implies ((#[trigger] self.chunks@[j]) matches Some(
                ch,
            ) ==> ch.words@.len() <= MAX_CELL_WORDS && ch.used <= ch.words@.len()) by {
                if j != i {
                    assert(before.chunks@[j] == self.chunks@[j]);
                }
            }
            assert forall|j: int| 0 <= j < self.spare@.len() implies #[trigger] self.spare@[j]
                < self.chunks@.len() && self.chunks@[self.spare@[j] as int] is None by {
                assert(before.chunks@[before.spare@[j] as int] is None);
            }
            self.lemma_carve(before, cell, size as nat);
        }
        cell
    }

    /// A cell of `size` words: a free one, or a new one.
    fn reserve(&mut self, size: usize) -> (r: Result<Cell, Full>)
        requires
            old(self).laid_out(),
            size >= 1,
        ensures
            final(self).laid_out(),
            final(self).rec@ == old(self).rec@,
            final(self).made == old(self).made,
            final(self).reused == old(self).reused,
            match r {
                Ok(c) => {
                    &&& c.ok()
                    &&& final(self).loose(c, size as int)
                    &&& final(self).placed(*old(self), c, size)
                },
                Err(_) => {
                    &&& !old(self).has_room(size as int)
                    &&& size <= MAX_CELL_WORDS ==> final(self).full()
                },
            },
    {
        let ghost before = *self;
        match self.free.remove(&size) {
            Some(list) => {
                let mut list = list;
                let ghost l0 = list@;
                match list.pop() {
                    Some(cell) => {
                        proof {
                            assert(before.free@[size]@[l0.len() - 1] == cell);
                            assert(before.carved@.dom().contains(cell));
                            assert(before.chunks@[cell.chunk as int] is Some);
                        }
                        self.free.insert(size, list);
                        proof {
                            assert forall|s: usize, i: int|
                                #![trigger self.free@[s]@[i]]
                                self.free@.dom().contains(s) && 0 <= i
                                    < self.free@[s]@.len() implies {
                                let c = self.free@[s]@[i];
                                &&& self.carved@.dom().contains(c)
                                &&& self.carved@[c] == s
                                &&& !self.rec@.has(c)
                                &&& !self.chunks@[c.chunk as int]->Some_0.own
                                &&& c != cell
                            } by {
                                if s == size {
                                    assert(self.free@[s]@[i] == before.free@[s]@[i]);
                                    assert(l0[i] != l0[l0.len() - 1]);
                                } else {
                                    assert(before.free@.dom().contains(s));
                                    assert(self.free@[s]@[i] == before.free@[s]@[i]);
                                }
                            }
                            assert forall|s: usize| #[trigger]
                                self.free@.dom().contains(s) implies self.free@[s]@.no_duplicates() by {
                                if s != size {
                                    assert(before.free@.dom().contains(s));
                                } else {
                                    assert(before.free@[size]@.no_duplicates());
                                }
                            }
                        }
                        return Ok(cell);
                    },
                    None => {
                        proof {
                            self.lemma_unlisted(before, size);
                        }
                    },
                }
            },
            None => {},
        }
        proof {
            assert(self.laid_out()) by {
                self.lemma_unlisted(before, size);
            }
        }
        if size > self.chunk_size() {
            self.own_chunk(size)
        } else {
            self.carve(size)
        }
    }

    /// An empty list taken off the free lists.
    proof fn lemma_unlisted(self, o: Heap, size: usize)
        requires
            o.laid_out(),
            self.free@ == o.free@.remove(size),
            self.chunks@ == o.chunks@,
            self.spare@ == o.spare@,
            self.current == o.current,
            self.live == o.live,
            self.carved@ == o.carved@,
            self.rec@ == o.rec@,
        ensures
            self.laid_out(),
    {
        assert forall|s: usize, i: int|
            #![trigger self.free@[s]@[i]]
            self.free@.dom().contains(s) && 0 <= i < self.free@[s]@.len() implies {
            let c = self.free@[s]@[i];
            &&& self.carved@.dom().contains(c)
            &&& self.carved@[c] == s
            &&& !self.rec@.has(c)
            &&& !self.chunks@[c.chunk as int]->Some_0.own
        } by {
            assert(o.free@.dom().contains(s));
            assert(self.free@[s]@[i] == o.free@[s]@[i]);
        }
        assert forall|s: usize| #[trigger]
            self.free@.dom().contains(s) implies self.free@[s]@.no_duplicates() by {
            assert(o.free@.dom().contains(s));
        }
    }

    /// A new cell of `kind` holding `data` after its header, with one
    /// reference, the caller's. Any reference in `data` passes to the cell.
    ///
    /// Where there is no room nothing changes hands.
    pub fn make(&mut self, kind: Kind, data: &[u64]) -> (r: Result<Cell, Full>)
        requires
            old(self).wf(),
            all_canonical((Body { kind, data: data@ }).held()),
            (Body { kind, data: data@ }).refs().to_multiset().subset_of(old(self).record().ext),
        ensures
            final(self).wf(),
            final(self).reused == old(self).reused,
            match r {
                Ok(c) => {
                    &&& !old(self).record().has(c)
                    &&& c.ok()
                    &&& final(self).record() == with_cell(
                        old(self).record(),
                        c,
                        Body { kind, data: data@ },
                    )
                    &&& final(self).placed(*old(self), c, (data@.len() + 1) as usize)
                    &&& old(self).made < u64::MAX ==> final(self).made == old(self).made + 1
                },
                Err(_) => {
                    &&& final(self).record() == old(self).record()
                    &&& final(self).made == old(self).made
                    &&& data@.len() + 1 > MAX_CELL_WORDS || !old(self).has_room(
                        data@.len() as int + 1,
                    )
                    &&& data@.len() + 1 > MAX_CELL_WORDS || final(self).full()
                },
            },
    {
        let ghost before = *self;
        let ghost body = Body { kind, data: data@ };
        if data.len() >= MAX_CELL_WORDS {
            return Err(Full);
        }
        let size: usize = data.len() + 1;
        let cell = self.reserve(size)?;
        let ghost start = *self;
        let h = header_word(1, kind, size);
        self.set_word(cell, 0, h);
        let mut i: usize = 0;
        while i < data.len()
            invariant
                i <= data@.len(),
                size == data@.len() + 1,
                size <= MAX_CELL_WORDS,
                self.chunks_ok(),
                self.carved_ok(),
                self.free_ok(),
                start.laid_out(),
                start.loose(cell, size as int),
                self.same_but_words(start),
                peek(self.chunks@, cell, 0) == h,
                forall|j: int|
                    0 <= j < i ==> peek(self.chunks@, cell, j + 1) == #[trigger] data@[j],
                forall|d: Cell, j: int|
                    #![trigger peek(self.chunks@, d, j)]
                    start.carved@.dom().contains(d) && 0 <= j < start.carved@[d] && d != cell
                        ==> peek(self.chunks@, d, j) == peek(start.chunks@, d, j),
            decreases data@.len() - i,
        {
            let ghost mid = *self;
            self.set_word(cell, 1 + i, data[i]);
            proof {
                assert forall|j: int| 0 <= j < i + 1 implies peek(self.chunks@, cell, j + 1)
                    == #[trigger] data@[j] by {
                    if j < i {
                        assert(peek(self.chunks@, cell, j + 1) == peek(mid.chunks@, cell, j + 1));
                    }
                }
                assert(peek(self.chunks@, cell, 0) == peek(mid.chunks@, cell, 0));
                assert forall|d: Cell, j: int|
                    #![trigger peek(self.chunks@, d, j)]
                    start.carved@.dom().contains(d) && 0 <= j < start.carved@[d] && d
                        != cell implies peek(self.chunks@, d, j) == peek(start.chunks@, d, j) by {
                    assert(peek(self.chunks@, d, j) == peek(mid.chunks@, d, j));
                }
            }
            i += 1;
        }
        let ghost filled = *self;
        proof {
            lemma_live_bound(before.rec@);
        }
        self.live = self.live + 1;
        if self.made < u64::MAX {
            self.made = self.made + 1;
        }
        proof {
            lemma_with_cell(before.rec@, cell, body);
            self.rec@ = with_cell(before.rec@, cell, body);
            let n = self.rec@;
            assert forall|c: Cell| #[trigger] self.rec@.has(c) implies {
                &&& self.carved@.dom().contains(c)
                &&& self.carved@[c] == self.rec@.cells[c].data.len() + 1
                &&& peek(self.chunks@, c, 0) == header(
                    self.rec@.counts[c],
                    self.rec@.cells[c].kind,
                    self.rec@.cells[c].data.len() + 1,
                )
                &&& forall|j: int|
                    0 <= j < self.rec@.cells[c].data.len() ==> peek(self.chunks@, c, j + 1)
                        == #[trigger] self.rec@.cells[c].data[j]
            } by {
                if c == cell {
                } else {
                    assert(before.rec@.has(c));
                    assert(start.rec@.has(c));
                    assert(start.carved@.dom().contains(c));
                    assert(peek(self.chunks@, c, 0) == peek(start.chunks@, c, 0));
                    assert forall|j: int| 0 <= j < self.rec@.cells[c].data.len() implies peek(
                        self.chunks@,
                        c,
                        j + 1,
                    ) == #[trigger] self.rec@.cells[c].data[j] by {
                        assert(peek(start.chunks@, c, j + 1) == start.rec@.cells[c].data[j]);
                        assert(peek(self.chunks@, c, j + 1) == peek(start.chunks@, c, j + 1));
                    }
                }
            }
            assert forall|s: usize, j: int|
                #![trigger self.free@[s]@[j]]
                self.free@.dom().contains(s) && 0 <= j < self.free@[s]@.len() implies {
                let c = self.free@[s]@[j];
                &&& self.carved@.dom().contains(c)
                &&& self.carved@[c] == s
                &&& !self.rec@.has(c)
                &&& !self.chunks@[c.chunk as int]->Some_0.own
            } by {
                let c = filled.free@[s]@[j];
                assert(filled.carved@.dom().contains(c));
                assert(start.free@[s]@[j] != cell);
            }
        }
        Ok(cell)
    }

    /// The kind of a cell in use.
    pub fn kind(&self, cell: Cell) -> (r: Kind)
        requires
            self.wf(),
            self.record().has(cell),
        ensures
            r == self.record().cells[cell].kind,
    {
        let h = self.word(cell, 0);
        proof {
            lemma_header(
                self.rec@.counts[cell],
                self.rec@.cells[cell].kind,
                self.rec@.cells[cell].data.len() + 1,
            );
            lemma_kind_number(self.rec@.cells[cell].kind);
        }
        match kind_of(h) {
            Some(k) => {
                proof {
                    lemma_kind_same(k, self.rec@.cells[cell].kind);
                }
                k
            },
            None => vstd::pervasive::unreached(),
        }
    }

    /// How many data words a cell in use has.
    pub fn len(&self, cell: Cell) -> (r: usize)
        requires
            self.wf(),
            self.record().has(cell),
        ensures
            r == self.record().cells[cell].data.len(),
            r < MAX_CELL_WORDS,
    {
        let h = self.word(cell, 0);
        proof {
            lemma_header(
                self.rec@.counts[cell],
                self.rec@.cells[cell].kind,
                self.rec@.cells[cell].data.len() + 1,
            );
        }
        size_of(h) - 1
    }

    /// Data word `i` of a cell in use.
    pub fn get(&self, cell: Cell, i: usize) -> (r: u64)
        requires
            self.wf(),
            self.record().has(cell),
            i < self.record().cells[cell].data.len(),
        ensures
            r == self.record().cells[cell].data[i as int],
    {
        proof {
            assert(peek(self.chunks@, cell, i + 1) == self.rec@.cells[cell].data[i as int]);
        }
        self.word(cell, 1 + i)
    }

    /// The data words of a cell in use.
    pub fn data(&self, cell: Cell) -> (r: Vec<u64>)
        requires
            self.wf(),
            self.record().has(cell),
        ensures
            r@ == self.record().cells[cell].data,
    {
        let n = self.len(cell);
        let mut out: Vec<u64> = Vec::new();
        let mut i: usize = 0;
        while i < n
            invariant
                i <= n,
                self.wf(),
                self.record().has(cell),
                n == self.record().cells[cell].data.len(),
                out@ == self.record().cells[cell].data.take(i as int),
            decreases n - i,
        {
            out.push(self.get(cell, i));
            proof {
                let d = self.record().cells[cell].data;
                assert(d.take(i + 1) =~= d.take(i as int).push(d[i as int]));
            }
            i += 1;
        }
        proof {
            let d = self.record().cells[cell].data;
            assert(d.take(i as int) =~= d);
        }
        out
    }

    /// How many references there are to a cell in use.
    pub fn count(&self, cell: Cell) -> (r: u64)
        requires
            self.wf(),
            self.record().has(cell),
        ensures
            r == self.record().counts[cell],
            1 <= r <= u32::MAX,
    {
        let h = self.word(cell, 0);
        proof {
            lemma_header(
                self.rec@.counts[cell],
                self.rec@.cells[cell].kind,
                self.rec@.cells[cell].data.len() + 1,
            );
        }
        count_of(h)
    }

    /// Add one reference to a cell. There must be a number for it.
    pub fn share(&mut self, cell: Cell)
        requires
            old(self).wf(),
            old(self).record().has(cell),
            old(self).record().counts[cell] < u32::MAX,
        ensures
            final(self).wf(),
            final(self).record() == with_ref(old(self).record(), cell),
            final(self).made == old(self).made,
            final(self).reused == old(self).reused,
    {
        let ghost before = *self;
        let h = self.word(cell, 0);
        proof {
            lemma_header(
                self.rec@.counts[cell],
                self.rec@.cells[cell].kind,
                self.rec@.cells[cell].data.len() + 1,
            );
            lemma_header(
                self.rec@.counts[cell] + 1,
                self.rec@.cells[cell].kind,
                self.rec@.cells[cell].data.len() + 1,
            );
            lemma_with_ref(self.rec@, cell);
        }
        self.set_word(cell, 0, h + 1);
        proof {
            self.rec@ = with_ref(before.rec@, cell);
            self.lemma_recounted(before, cell);
        }
    }

    /// A count written.
    proof fn lemma_recounted(self, o: Heap, cell: Cell)
        requires
            o.chunks_ok(),
            o.carved_ok(),
            o.free_ok(),
            o.tied(),
            o.live == o.rec@.order.len(),
            o.rec@.has(cell),
            self.chunks_ok(),
            self.carved_ok(),
            self.free@ == o.free@,
            self.carved@ == o.carved@,
            self.live == o.live,
            self.rec@.cells == o.rec@.cells,
            self.rec@.order == o.rec@.order,
            forall|c: Cell| c != cell ==> #[trigger] self.rec@.counts[c] == o.rec@.counts[c],
            peek(self.chunks@, cell, 0) == header(
                self.rec@.counts[cell],
                self.rec@.cells[cell].kind,
                self.rec@.cells[cell].data.len() + 1,
            ),
            forall|d: Cell, j: int|
                #![trigger peek(self.chunks@, d, j)]
                o.carved@.dom().contains(d) && 0 <= j < o.carved@[d] && (d != cell || j != 0)
                    ==> peek(self.chunks@, d, j) == peek(o.chunks@, d, j),
            forall|i: int|
                0 <= i < self.chunks@.len() && (#[trigger] self.chunks@[i]) is Some
                    ==> o.chunks@[i] is Some && self.chunks@[i]->Some_0.own
                    == o.chunks@[i]->Some_0.own,
        ensures
            self.laid_out(),
    {
        assert forall|c: Cell| #[trigger] self.rec@.has(c) implies {
            &&& self.carved@.dom().contains(c)
            &&& self.carved@[c] == self.rec@.cells[c].data.len() + 1
            &&& peek(self.chunks@, c, 0) == header(
                self.rec@.counts[c],
                self.rec@.cells[c].kind,
                self.rec@.cells[c].data.len() + 1,
            )
            &&& forall|j: int|
                0 <= j < self.rec@.cells[c].data.len() ==> peek(self.chunks@, c, j + 1)
                    == #[trigger] self.rec@.cells[c].data[j]
        } by {
            assert(o.rec@.has(c));
            if c != cell {
                assert(peek(self.chunks@, c, 0) == peek(o.chunks@, c, 0));
                assert(self.rec@.counts[c] == o.rec@.counts[c]);
            }
            assert forall|j: int| 0 <= j < self.rec@.cells[c].data.len() implies peek(
                self.chunks@,
                c,
                j + 1,
            ) == #[trigger] self.rec@.cells[c].data[j] by {
                assert(peek(o.chunks@, c, j + 1) == o.rec@.cells[c].data[j]);
                assert(peek(self.chunks@, c, j + 1) == peek(o.chunks@, c, j + 1));
            }
        }
        assert forall|s: usize, j: int|
            #![trigger self.free@[s]@[j]]
            self.free@.dom().contains(s) && 0 <= j < self.free@[s]@.len() implies {
            let c = self.free@[s]@[j];
            &&& self.carved@.dom().contains(c)
            &&& self.carved@[c] == s
            &&& !self.rec@.has(c)
            &&& !self.chunks@[c.chunk as int]->Some_0.own
        } by {
            let c = o.free@[s]@[j];
            assert(o.carved@.dom().contains(c));
            assert(!o.rec@.has(c));
            assert(self.carved@.dom().contains(c));
        }
    }

    /// Give a freed cell's words back.
    fn free_cell(&mut self, cell: Cell, size: usize)
        requires
            old(self).chunks_ok(),
            old(self).carved_ok(),
            old(self).free_ok(),
            old(self).tied(),
            old(self).live == old(self).rec@.order.len() + 1,
            old(self).loose(cell, size as int),
        ensures
            final(self).laid_out(),
            final(self).rec@ == old(self).rec@,
            final(self).made == old(self).made,
            final(self).reused == old(self).reused,
            final(self).only_freed(*old(self)),
            final(self).given_back(*old(self), cell, size),
    {
        let ghost before = *self;
        self.live = self.live - 1;
        let k: usize = cell.chunk as usize;
        let own = match &self.chunks[k] {
            Some(ch) => ch.own,
            None => false,
        };
        if own {
            self.chunks.set(k, None);
            self.spare.push(cell.chunk);
            proof {
                self.carved@ = self.carved@.remove(cell);
                self.lemma_chunk_gone(before, cell);
            }
        } else {
            self.set_word(cell, 0, 0);
            let ghost mid = *self;
            let mut list = match self.free.remove(&size) {
                Some(list) => list,
                None => Vec::new(),
            };
            let ghost l0 = list@;
            list.push(cell);
            self.free.insert(size, list);
            proof {
                assert(self.free@.dom() =~= mid.free@.dom().insert(size));
                self.lemma_listed(before, mid, cell, size, l0);
                let l1 = self.free@[size]@;
                assert(l1 == l0.push(cell));
                assert(l1[l0.len() as int] == cell);
                assert forall|s: usize, d: Cell|
                    #![trigger self.free@[s]@.contains(d)]
                    #![trigger before.free@[s]@.contains(d)]
                    before.free@.dom().contains(s) && before.free@[s]@.contains(
                        d,
                    ) implies self.free@.dom().contains(s) && self.free@[s]@.contains(d) by {
                    if s == size {
                        let j = choose|j: int| 0 <= j < l0.len() && l0[j] == d;
                        assert(l1[j] == d);
                    }
                }
            }
        }
    }

    /// What was given back stays so while cells are only freed.
    proof fn lemma_freed_on(self, o: Heap, mid: Heap)
        requires
            self.only_freed(mid),
            mid.only_freed(o),
        ensures
            self.only_freed(o),
            forall|c: Cell, size: usize|
                #![trigger self.given_back(o, c, size)]
                #![trigger mid.given_back(o, c, size)]
                c.chunk < o.chunks@.len() && mid.given_back(o, c, size) ==> self.given_back(
                    o,
                    c,
                    size,
                ),
    {
        assert forall|i: int| 0 <= i < self.chunks@.len() && (
        #[trigger] self.chunks@[i]) is Some implies o.chunk_is(
            i,
            self.chunks@[i]->Some_0.words@.len() as int,
            self.chunks@[i]->Some_0.own,
        ) by {
            assert(mid.chunks@[i] is Some);
        }
        assert forall|s: usize, d: Cell|
            #![trigger self.free@[s]@.contains(d)]
            #![trigger o.free@[s]@.contains(d)]
            o.free@.dom().contains(s) && o.free@[s]@.contains(d) implies self.free@.dom().contains(s)
            && self.free@[s]@.contains(d) by {
            assert(mid.free@[s]@.contains(d));
        }
        assert forall|c: Cell, size: usize|
            #![trigger self.given_back(o, c, size)]
            #![trigger mid.given_back(o, c, size)]
            c.chunk < o.chunks@.len() && mid.given_back(o, c, size) implies self.given_back(
            o,
            c,
            size,
        ) by {
            if o.chunks@[c.chunk as int]->Some_0.own {
                if self.chunks@[c.chunk as int] is Some {
                    assert(mid.chunk_is(
                        c.chunk as int,
                        self.chunks@[c.chunk as int]->Some_0.words@.len() as int,
                        self.chunks@[c.chunk as int]->Some_0.own,
                    ));
                }
            } else {
                assert(mid.free@[size]@.contains(c));
            }
        }
    }

    /// A big cell's chunk gone.
    proof fn lemma_chunk_gone(self, o: Heap, cell: Cell)
        requires
            o.chunks_ok(),
            o.carved_ok(),
            o.free_ok(),
            o.tied(),
            o.carved@.dom().contains(cell),
            !o.rec@.has(cell),
            o.chunks@[cell.chunk as int]->Some_0.own,
            self.chunks@ == o.chunks@.update(cell.chunk as int, None),
            self.spare@ == o.spare@.push(cell.chunk),
            self.current == o.current,
            self.free@ == o.free@,
            self.rec@ == o.rec@,
            self.live == self.rec@.order.len(),
            self.carved@ == o.carved@.remove(cell),
        ensures
            self.laid_out(),
    {
        assert forall|c: Cell| #[trigger] o.carved@.dom().contains(c) && c != cell implies c.chunk
            != cell.chunk by {
            assert(o.carved@.dom().contains(cell));
        }
        assert forall|i: int| 0 <= i < self.spare@.len() implies #[trigger] self.spare@[i]
            < self.chunks@.len() && self.chunks@[self.spare@[i] as int] is None by {
            if i < o.spare@.len() {
                assert(o.spare@[i] == self.spare@[i]);
                assert(o.chunks@[o.spare@[i] as int] is None);
            }
        }
        assert(self.spare@.no_duplicates()) by {
            assert forall|i: int, j: int|
                0 <= i < self.spare@.len() && 0 <= j < self.spare@.len() && i != j implies self.spare@[i]
                != self.spare@[j] by {
                if i < o.spare@.len() {
                    assert(o.chunks@[o.spare@[i] as int] is None);
                }
                if j < o.spare@.len() {
                    assert(o.chunks@[o.spare@[j] as int] is None);
                }
            }
        }
        assert forall|i: int| 0 <= i < self.chunks@.len() implies ((#[trigger] self.chunks@[i]) matches Some(
            ch,
        ) ==> ch.words@.len() <= MAX_CELL_WORDS && ch.used <= ch.words@.len()) by {
            assert(o.chunks@[i] matches Some(ch) ==> ch.words@.len() <= MAX_CELL_WORDS && ch.used
                <= ch.words@.len());
        }
        assert forall|c: Cell, d: Cell| #[trigger]
            self.carved@.dom().contains(c) && #[trigger] self.carved@.dom().contains(d) && c
                != d implies apart(self.carved@, c, d) by {
            assert(o.carved@.dom().contains(c));
            assert(o.carved@.dom().contains(d));
            assert(apart(o.carved@, c, d));
        }
        assert forall|c: Cell| #[trigger] self.carved@.dom().contains(c) implies {
            &&& c.chunk < self.chunks@.len()
            &&& self.chunks@[c.chunk as int] is Some
            &&& 1 <= self.carved@[c]
            &&& c.word + self.carved@[c] <= self.chunks@[c.chunk as int]->Some_0.used
            &&& self.chunks@[c.chunk as int]->Some_0.own ==> c.word == 0 && self.carved@[c]
                == self.chunks@[c.chunk as int]->Some_0.words@.len()
        } by {
            assert(o.carved@.dom().contains(c));
        }
        assert forall|c: Cell| #[trigger] self.rec@.has(c) implies {
            &&& self.carved@.dom().contains(c)
            &&& self.carved@[c] == self.rec@.cells[c].data.len() + 1
            &&& peek(self.chunks@, c, 0) == header(
                self.rec@.counts[c],
                self.rec@.cells[c].kind,
                self.rec@.cells[c].data.len() + 1,
            )
            &&& forall|j: int|
                0 <= j < self.rec@.cells[c].data.len() ==> peek(self.chunks@, c, j + 1)
                    == #[trigger] self.rec@.cells[c].data[j]
        } by {
            assert(o.rec@.has(c));
            assert(o.carved@.dom().contains(c));
            assert forall|j: int| 0 <= j < self.rec@.cells[c].data.len() implies peek(
                self.chunks@,
                c,
                j + 1,
            ) == #[trigger] self.rec@.cells[c].data[j] by {
                assert(peek(o.chunks@, c, j + 1) == o.rec@.cells[c].data[j]);
            }
        }
        assert forall|s: usize, j: int|
            #![trigger self.free@[s]@[j]]
            self.free@.dom().contains(s) && 0 <= j < self.free@[s]@.len() implies {
            let c = self.free@[s]@[j];
            &&& self.carved@.dom().contains(c)
            &&& self.carved@[c] == s
            &&& !self.rec@.has(c)
            &&& !self.chunks@[c.chunk as int]->Some_0.own
        } by {
            let c = o.free@[s]@[j];
            assert(o.carved@.dom().contains(c));
        }
    }

    /// A freed cell put on its list.
    proof fn lemma_listed(self, o: Heap, mid: Heap, cell: Cell, size: usize, l0: Seq<Cell>)
        requires
            o.tied(),
            o.loose(cell, size as int),
            mid.chunks_ok(),
            mid.carved_ok(),
            mid.free_ok(),
            mid.live == mid.rec@.order.len(),
            mid.rec@ == o.rec@,
            mid.carved@ == o.carved@,
            mid.free@ == o.free@,
            !mid.chunks@[cell.chunk as int]->Some_0.own,
            l0 == if mid.free@.dom().contains(size) {
                mid.free@[size]@
            } else {
                Seq::empty()
            },
            forall|d: Cell, j: int|
                #![trigger peek(mid.chunks@, d, j)]
                o.carved@.dom().contains(d) && 0 <= j < o.carved@[d] && (d != cell || j != 0)
                    ==> peek(mid.chunks@, d, j) == peek(o.chunks@, d, j),
            self.chunks@ == mid.chunks@,
            self.spare@ == mid.spare@,
            self.current == mid.current,
            self.carved@ == mid.carved@,
            self.rec@ == mid.rec@,
            self.live == mid.live,
            self.free@.dom() == mid.free@.dom().insert(size),
            self.free@[size]@ == l0.push(cell),
            forall|s: usize|
                s != size && #[trigger] self.free@.dom().contains(s) ==> self.free@[s] == mid.free@[s],
        ensures
            self.laid_out(),
    {
        assert forall|c: Cell| #[trigger] self.rec@.has(c) implies {
            &&& self.carved@.dom().contains(c)
            &&& self.carved@[c] == self.rec@.cells[c].data.len() + 1
            &&& peek(self.chunks@, c, 0) == header(
                self.rec@.counts[c],
                self.rec@.cells[c].kind,
                self.rec@.cells[c].data.len() + 1,
            )
            &&& forall|j: int|
                0 <= j < self.rec@.cells[c].data.len() ==> peek(self.chunks@, c, j + 1)
                    == #[trigger] self.rec@.cells[c].data[j]
        } by {
            assert(o.rec@.has(c));
            assert(o.carved@.dom().contains(c));
            assert(peek(self.chunks@, c, 0) == peek(o.chunks@, c, 0));
            assert forall|j: int| 0 <= j < self.rec@.cells[c].data.len() implies peek(
                self.chunks@,
                c,
                j + 1,
            ) == #[trigger] self.rec@.cells[c].data[j] by {
                assert(peek(o.chunks@, c, j + 1) == o.rec@.cells[c].data[j]);
                assert(peek(self.chunks@, c, j + 1) == peek(o.chunks@, c, j + 1));
            }
        }
        assert forall|s: usize, j: int|
            #![trigger self.free@[s]@[j]]
            self.free@.dom().contains(s) && 0 <= j < self.free@[s]@.len() implies {
            let c = self.free@[s]@[j];
            &&& self.carved@.dom().contains(c)
            &&& self.carved@[c] == s
            &&& !self.rec@.has(c)
            &&& !self.chunks@[c.chunk as int]->Some_0.own
        } by {
            if s == size {
                if j < l0.len() {
                    assert(mid.free@[s]@[j] == self.free@[s]@[j]);
                }
            } else {
                assert(mid.free@.dom().contains(s));
                assert(mid.free@[s]@[j] == self.free@[s]@[j]);
            }
        }
        assert forall|s: usize| #[trigger]
            self.free@.dom().contains(s) implies self.free@[s]@.no_duplicates() by {
            if s != size {
                assert(mid.free@.dom().contains(s));
            } else {
                let l = self.free@[s]@;
                assert forall|i: int, j: int|
                    0 <= i < l.len() && 0 <= j < l.len() && i != j implies l[i] != l[j] by {
                    if mid.free@.dom().contains(size) {
                        assert(mid.free@[size]@.no_duplicates());
                        if i < l0.len() {
                            assert(o.free@[size]@[i] != cell);
                        }
                        if j < l0.len() {
                            assert(o.free@[size]@[j] != cell);
                        }
                    }
                }
            }
        }
    }

    /// Give up one reference to a cell, freeing it when that was the last. What
    /// a freed cell held is given up in turn, from a list rather than by
    /// recursion.
    pub fn release(&mut self, cell: Cell)
        requires
            old(self).wf(),
            old(self).record().ext.count(cell) > 0,
        ensures
            final(self).wf(),
            final(self).record().ext == old(self).record().ext.remove(cell),
            part_of(final(self).record(), old(self).record()),
            keeps(old(self).record(), final(self).record()),
            final(self).made == old(self).made,
            final(self).reused == old(self).reused,
            final(self).only_freed(*old(self)),
            forall|c: Cell| #[trigger]
                old(self).record().has(c) && !final(self).record().has(c) ==>
                    final(self).given_back(
                    *old(self),
                    c,
                    (old(self).record().cells[c].data.len() + 1) as usize,
                ),
    {
        let ghost first = self.rec@;
        let mut dying: Vec<Cell> = Vec::new();
        dying.push(cell);
        proof {
            self.rec@ = Record { ext: first.ext.remove(cell), ..first };
            lemma_handed_over(first, cell);
            self.lemma_same_layout(*old(self));
            assert(dying@ =~= seq![cell]);
            lemma_one_pending(cell);
        }
        while dying.len() > 0
            invariant
                self.laid_out(),
                self.rec@.shaped(),
                self.rec@.counted(dying@.to_multiset()),
                self.rec@.ext == first.ext.remove(cell),
                part_of(self.rec@, first),
                self.made == old(self).made,
                self.reused == old(self).reused,
                old(self).wf(),
                first == old(self).record(),
                self.only_freed(*old(self)),
                forall|d: Cell| #[trigger]
                    first.has(d) && !self.rec@.has(d) ==> self.given_back(
                        *old(self),
                        d,
                        (first.cells[d].data.len() + 1) as usize,
                    ),
            decreases self.rec@.order.len(), dying@.len(),
        {
            let ghost list = dying@;
            match dying.pop() {
                Some(c) => {
                    let ghost pending = list.to_multiset();
                    let ghost before = *self;
                    proof {
                        lemma_pop_pending(list);
                        assert(dying@ =~= list.drop_last());
                        assert(pending.count(c) > 0);
                        assert(self.rec@.ext.count(c) + pending.count(c) > 0);
                        assert(self.rec@.has(c));
                        lemma_header(
                            self.rec@.counts[c],
                            self.rec@.cells[c].kind,
                            self.rec@.cells[c].data.len() + 1,
                        );
                    }
                    let h = self.word(c, 0);
                    if count_of(h) > 1 {
                        proof {
                            lemma_header(
                                (self.rec@.counts[c] - 1) as nat,
                                self.rec@.cells[c].kind,
                                self.rec@.cells[c].data.len() + 1,
                            );
                            lemma_lowered(self.rec@, c, pending);
                        }
                        self.set_word(c, 0, h - 1);
                        proof {
                            self.rec@ = lowered(before.rec@, c);
                            self.lemma_recounted(before, c);
                            self.lemma_freed_on(*old(self), before);
                            assert forall|d: Cell| #[trigger] first.has(d) && !self.rec@.has(
                                d,
                            ) implies self.given_back(
                                *old(self),
                                d,
                                (first.cells[d].data.len() + 1) as usize,
                            ) by {
                                assert(old(self).carved@.dom().contains(d));
                                assert(!before.rec@.has(d));
                                assert(before.given_back(
                                    *old(self),
                                    d,
                                    (first.cells[d].data.len() + 1) as usize,
                                ));
                            }
                            assert forall|d: Cell| #[trigger] self.rec@.has(d) implies first.has(d)
                                && self.rec@.cells[d] == first.cells[d] by {
                                assert(before.rec@.has(d));
                            }
                        }
                    } else {
                        let size = size_of(h);
                        proof {
                            lemma_kind_number(self.rec@.cells[c].kind);
                        }
                        let kind = match kind_of(h) {
                            Some(k) => k,
                            None => vstd::pervasive::unreached(),
                        };
                        proof {
                            lemma_kind_same(kind, self.rec@.cells[c].kind);
                        }
                        let ghost rest = dying@;
                        self.push_held(c, kind, size, &mut dying);
                        proof {
                            let b = before.rec@.cells[c];
                            assert(dying@ == rest + b.refs());
                            lemma_pending_add(rest, b.refs());
                            lemma_without(before.rec@, c, pending);
                            assert(pending.remove(c).add(b.refs().to_multiset())
                                =~= dying@.to_multiset());
                            self.rec@ = without(before.rec@, c);
                            self.lemma_taken_out(before, c);
                            assert forall|d: Cell| #[trigger] self.rec@.has(d) implies first.has(d)
                                && self.rec@.cells[d] == first.cells[d] by {
                                assert(before.rec@.has(d));
                            }
                        }
                        let ghost mid = *self;
                        self.free_cell(c, size);
                        proof {
                            self.lemma_freed_on(*old(self), mid);
                            assert(first.cells[c] == before.rec@.cells[c]);
                            assert(before.carved@.dom().contains(c));
                            assert(before.chunks@[c.chunk as int] is Some);
                            assert(mid.chunks@ == before.chunks@);
                            assert(size == first.cells[c].data.len() + 1);
                            assert forall|d: Cell| #[trigger] first.has(d) && !self.rec@.has(
                                d,
                            ) implies self.given_back(
                                *old(self),
                                d,
                                (first.cells[d].data.len() + 1) as usize,
                            ) by {
                                assert(old(self).carved@.dom().contains(d));
                                if d != c {
                                    assert(!before.rec@.has(d));
                                    assert(mid.given_back(
                                        *old(self),
                                        d,
                                        (first.cells[d].data.len() + 1) as usize,
                                    ));
                                }
                            }
                        }
                    }
                },
                None => {},
            }
        }
        proof {
            assert(dying@ =~= Seq::empty());
            lemma_none_pending(dying@);
        }
    }

    /// Write over the data of a cell that only the caller refers to. The
    /// references it held pass to the caller, and those in `data` pass to it.
    pub fn rewrite(&mut self, cell: Cell, data: &[u64])
        requires
            old(self).wf(),
            old(self).record().has(cell),
            old(self).record().counts[cell] == 1,
            old(self).record().ext.count(cell) > 0,
            data@.len() == old(self).record().cells[cell].data.len(),
            all_canonical(
                (Body { kind: old(self).record().cells[cell].kind, data: data@ }).held(),
            ),
            (Body {
                kind: old(self).record().cells[cell].kind,
                data: data@,
            }).refs().to_multiset().subset_of(old(self).record().ext.remove(cell)),
        ensures
            final(self).wf(),
            final(self).record() == rewritten(
                old(self).record(),
                cell,
                Body { kind: old(self).record().cells[cell].kind, data: data@ },
            ),
            final(self).made == old(self).made,
            final(self).reused == old(self).reused,
    {
        let ghost start = *self;
        let ghost body = Body { kind: self.rec@.cells[cell].kind, data: data@ };
        let mut i: usize = 0;
        while i < data.len()
            invariant
                i <= data@.len(),
                data@.len() + 1 <= MAX_CELL_WORDS,
                data@.len() + 1 == start.carved@[cell],
                start.carved@.dom().contains(cell),
                self.chunks_ok(),
                self.carved_ok(),
                self.free_ok(),
                start.laid_out(),
                self.same_but_words(start),
                peek(self.chunks@, cell, 0) == peek(start.chunks@, cell, 0),
                forall|j: int|
                    0 <= j < i ==> peek(self.chunks@, cell, j + 1) == #[trigger] data@[j],
                forall|d: Cell, j: int|
                    #![trigger peek(self.chunks@, d, j)]
                    start.carved@.dom().contains(d) && 0 <= j < start.carved@[d] && d != cell
                        ==> peek(self.chunks@, d, j) == peek(start.chunks@, d, j),
            decreases data@.len() - i,
        {
            let ghost mid = *self;
            self.set_word(cell, 1 + i, data[i]);
            proof {
                assert forall|j: int| 0 <= j < i + 1 implies peek(self.chunks@, cell, j + 1)
                    == #[trigger] data@[j] by {
                    if j < i {
                        assert(peek(self.chunks@, cell, j + 1) == peek(mid.chunks@, cell, j + 1));
                    }
                }
                assert(peek(self.chunks@, cell, 0) == peek(mid.chunks@, cell, 0));
                assert forall|d: Cell, j: int|
                    #![trigger peek(self.chunks@, d, j)]
                    start.carved@.dom().contains(d) && 0 <= j < start.carved@[d] && d
                        != cell implies peek(self.chunks@, d, j) == peek(start.chunks@, d, j) by {
                    assert(peek(self.chunks@, d, j) == peek(mid.chunks@, d, j));
                }
            }
            i += 1;
        }
        let ghost filled = *self;
        proof {
            lemma_rewritten(start.rec@, cell, body);
            self.rec@ = rewritten(start.rec@, cell, body);
            assert forall|c: Cell| #[trigger] self.rec@.has(c) implies {
                &&& self.carved@.dom().contains(c)
                &&& self.carved@[c] == self.rec@.cells[c].data.len() + 1
                &&& peek(self.chunks@, c, 0) == header(
                    self.rec@.counts[c],
                    self.rec@.cells[c].kind,
                    self.rec@.cells[c].data.len() + 1,
                )
                &&& forall|j: int|
                    0 <= j < self.rec@.cells[c].data.len() ==> peek(self.chunks@, c, j + 1)
                        == #[trigger] self.rec@.cells[c].data[j]
            } by {
                assert(start.rec@.has(c));
                if c != cell {
                    assert(start.carved@.dom().contains(c));
                    assert(peek(self.chunks@, c, 0) == peek(start.chunks@, c, 0));
                    assert forall|j: int| 0 <= j < self.rec@.cells[c].data.len() implies peek(
                        self.chunks@,
                        c,
                        j + 1,
                    ) == #[trigger] self.rec@.cells[c].data[j] by {
                        assert(peek(start.chunks@, c, j + 1) == start.rec@.cells[c].data[j]);
                        assert(peek(self.chunks@, c, j + 1) == peek(start.chunks@, c, j + 1));
                    }
                }
            }
            assert forall|s: usize, j: int|
                #![trigger self.free@[s]@[j]]
                self.free@.dom().contains(s) && 0 <= j < self.free@[s]@.len() implies {
                let c = self.free@[s]@[j];
                &&& self.carved@.dom().contains(c)
                &&& self.carved@[c] == s
                &&& !self.rec@.has(c)
                &&& !self.chunks@[c.chunk as int]->Some_0.own
            } by {
                let c = filled.free@[s]@[j];
                assert(filled.carved@.dom().contains(c));
                assert(!start.rec@.has(c));
            }
        }
    }

    /// Count one more constructor written over a cell.
    pub fn note_reused(&mut self)
        requires
            old(self).wf(),
        ensures
            final(self).wf(),
            final(self).record() == old(self).record(),
            final(self).made == old(self).made,
            old(self).reused < u64::MAX ==> final(self).reused == old(self).reused + 1,
    {
        if self.reused < u64::MAX {
            self.reused = self.reused + 1;
        }
        proof {
            self.lemma_same_layout(*old(self));
        }
    }

    /// The same words for the same cells.
    proof fn lemma_same_layout(self, o: Heap)
        requires
            o.laid_out(),
            self.chunks@ == o.chunks@,
            self.spare@ == o.spare@,
            self.current == o.current,
            self.free@ == o.free@,
            self.live == o.live,
            self.carved@ == o.carved@,
            self.rec@.cells == o.rec@.cells,
            self.rec@.counts == o.rec@.counts,
            self.rec@.order == o.rec@.order,
        ensures
            self.laid_out(),
    {
        assert forall|c: Cell| #[trigger] self.rec@.has(c) implies {
            &&& self.carved@.dom().contains(c)
            &&& self.carved@[c] == self.rec@.cells[c].data.len() + 1
            &&& peek(self.chunks@, c, 0) == header(
                self.rec@.counts[c],
                self.rec@.cells[c].kind,
                self.rec@.cells[c].data.len() + 1,
            )
            &&& forall|j: int|
                0 <= j < self.rec@.cells[c].data.len() ==> peek(self.chunks@, c, j + 1)
                    == #[trigger] self.rec@.cells[c].data[j]
        } by {
            assert(o.rec@.has(c));
            assert forall|j: int| 0 <= j < self.rec@.cells[c].data.len() implies peek(
                self.chunks@,
                c,
                j + 1,
            ) == #[trigger] self.rec@.cells[c].data[j] by {
                assert(peek(o.chunks@, c, j + 1) == o.rec@.cells[c].data[j]);
            }
        }
        assert forall|s: usize, j: int|
            #![trigger self.free@[s]@[j]]
            self.free@.dom().contains(s) && 0 <= j < self.free@[s]@.len() implies {
            let c = self.free@[s]@[j];
            &&& self.carved@.dom().contains(c)
            &&& self.carved@[c] == s
            &&& !self.rec@.has(c)
            &&& !self.chunks@[c.chunk as int]->Some_0.own
        } by {
            let c = o.free@[s]@[j];
            assert(o.carved@.dom().contains(c));
            assert(!o.rec@.has(c));
        }
    }

    /// A cell taken out of use, whose words are still there.
    proof fn lemma_taken_out(self, o: Heap, c: Cell)
        requires
            o.laid_out(),
            o.rec@.shaped(),
            o.rec@.has(c),
            self.chunks@ == o.chunks@,
            self.spare@ == o.spare@,
            self.current == o.current,
            self.free@ == o.free@,
            self.live == o.live,
            self.carved@ == o.carved@,
            self.rec@ == without(o.rec@, c),
            self.rec@.order.len() + 1 == o.rec@.order.len(),
        ensures
            self.chunks_ok(),
            self.carved_ok(),
            self.free_ok(),
            self.tied(),
            self.live == self.rec@.order.len() + 1,
            self.loose(c, o.rec@.cells[c].data.len() as int + 1),
    {
        assert forall|d: Cell| #[trigger] self.rec@.has(d) implies {
            &&& self.carved@.dom().contains(d)
            &&& self.carved@[d] == self.rec@.cells[d].data.len() + 1
            &&& peek(self.chunks@, d, 0) == header(
                self.rec@.counts[d],
                self.rec@.cells[d].kind,
                self.rec@.cells[d].data.len() + 1,
            )
            &&& forall|j: int|
                0 <= j < self.rec@.cells[d].data.len() ==> peek(self.chunks@, d, j + 1)
                    == #[trigger] self.rec@.cells[d].data[j]
        } by {
            assert(o.rec@.has(d));
            assert forall|j: int| 0 <= j < self.rec@.cells[d].data.len() implies peek(
                self.chunks@,
                d,
                j + 1,
            ) == #[trigger] self.rec@.cells[d].data[j] by {
                assert(peek(o.chunks@, d, j + 1) == o.rec@.cells[d].data[j]);
            }
        }
        assert forall|s: usize, j: int|
            #![trigger self.free@[s]@[j]]
            self.free@.dom().contains(s) && 0 <= j < self.free@[s]@.len() implies {
            let d = self.free@[s]@[j];
            &&& self.carved@.dom().contains(d)
            &&& self.carved@[d] == s
            &&& !self.rec@.has(d)
            &&& !self.chunks@[d.chunk as int]->Some_0.own
            &&& d != c
        } by {
            let d = o.free@[s]@[j];
            assert(o.carved@.dom().contains(d));
            assert(!o.rec@.has(d));
        }
    }

    /// Every cell that a cell refers to, onto the end of a list.
    fn push_held(&self, c: Cell, kind: Kind, size: usize, dying: &mut Vec<Cell>)
        requires
            self.laid_out(),
            self.rec@.shaped(),
            self.rec@.has(c),
            kind == self.rec@.cells[c].kind,
            size == self.rec@.cells[c].data.len() + 1,
        ensures
            final(dying)@ == old(dying)@ + self.rec@.cells[c].refs(),
    {
        let ghost b = self.rec@.cells[c];
        let ghost base = dying@;
        let n: usize = size - 1;
        let from = held_from(kind, n);
        let to = held_to(kind, n);
        let mut i: usize = from;
        let ghost ws = b.held();
        proof {
            assert(ws.take(0) =~= Seq::empty());
            assert(base + cells_in(ws.take(0)) =~= base);
        }
        while i < to
            invariant
                from <= i,
                i <= to || from > to,
                from == first_held(kind, n as int),
                to == after_held(kind, n as int),
                from <= to <= n,
                n < MAX_CELL_WORDS,
                self.laid_out(),
                self.rec@.shaped(),
                self.rec@.has(c),
                b == self.rec@.cells[c],
                kind == b.kind,
                n == b.data.len(),
                ws == b.held(),
                dying@ == base + cells_in(ws.take(i - from)),
            decreases to - i,
        {
            proof {
                assert(peek(self.chunks@, c, i + 1) == b.data[i as int]);
                let k = i - from;
                assert(ws[k] == b.data[i as int]);
                assert(ws.take(k + 1).drop_last() =~= ws.take(k));
                assert(ws.take(k + 1).last() == ws[k]);
            }
            let w = self.word(c, 1 + i);
            if let Some(d) = Value::from_bits(w).as_cell() {
                let ghost now = dying@;
                dying.push(d);
                proof {
                    assert(dying@ =~= base + cells_in(ws.take(i - from + 1)));
                }
            }
            i += 1;
        }
        proof {
            assert(ws.take(to - from) =~= ws);
        }
    }

    /// Cells in use.
    pub fn live(&self) -> (r: u64)
        requires
            self.wf(),
        ensures
            r == self.record().order.len(),
    {
        self.live
    }

    /// Cells this heap has made.
    pub fn made(&self) -> (r: u64)
        ensures
            r == self.made,
    {
        self.made
    }

    /// Cells that were overwritten in place of making one.
    pub fn reused(&self) -> (r: u64)
        ensures
            r == self.reused,
    {
        self.reused
    }
}

/// The first data word that holds a reference.
pub(crate) fn held_from(kind: Kind, n: usize) -> (r: usize)
    ensures
        r == first_held(kind, n as int),
        r <= n,
        r <= after_held(kind, n as int),
{
    match kind {
        Kind::Ctor | Kind::Closure | Kind::MapRoot | Kind::MapNode | Kind::MapCollision => if n
            >= 1 {
            1
        } else {
            n
        },
        Kind::Tuple | Kind::ArrayLeaf => 0,
        Kind::ArrayRoot => if n >= 3 {
            3
        } else {
            n
        },
        Kind::ArrayBranch => if n >= 1 {
            1 + (n - 1) / 2
        } else {
            n
        },
        Kind::BinarySlice => 0,
        Kind::String | Kind::BigInt | Kind::Range | Kind::Binary => n,
    }
}

pub(crate) fn held_to(kind: Kind, n: usize) -> (r: usize)
    ensures
        r == after_held(kind, n as int),
        r <= n,
{
    match kind {
        Kind::BinarySlice => if n >= 1 {
            1
        } else {
            n
        },
        _ => n,
    }
}

proof fn lemma_kind_number(k: Kind)
    ensures
        1 <= k.spec_number() <= 14,
{
}

proof fn lemma_kind_same(a: Kind, b: Kind)
    requires
        a.spec_number() == b.spec_number(),
    ensures
        a == b,
{
}

/// A reference from outside made pending.
proof fn lemma_handed_over(r: Record, c: Cell)
    requires
        r.ok(),
        r.ext.count(c) > 0,
    ensures
        ({
            let n = Record { ext: r.ext.remove(c), ..r };
            n.shaped() && n.counted(Multiset::singleton(c))
        }),
{
    let n = Record { ext: r.ext.remove(c), ..r };
    assert forall|d: Cell| #[trigger] n.has(d) <==> n.order.contains(d) by {
        assert(r.has(d) <==> r.order.contains(d));
    }
    assert forall|d: Cell, e: Cell|
        #![trigger n.has(d), n.has(e)]
        n.has(d) && n.cells[d].refs().contains(e) implies n.has(e) && n.rank[e] < n.rank[d] by {
        assert(r.has(d));
        crate::vm::record::lemma_ref_live(r, d, e);
    }
    assert forall|d: Cell| #[trigger] n.has(d) implies n.counts[d] == n.references(d)
        + Multiset::singleton(c).count(d) by {
        assert(r.has(d));
        assert(r.counts[d] == r.references(d));
    }
    assert forall|d: Cell| n.ext.count(d) + Multiset::singleton(c).count(d)
        > 0 implies #[trigger] n.has(d) by {
        assert(r.ext.count(d) > 0);
        assert(r.has(d));
    }
    assert forall|d: Cell| #[trigger] n.has(d) implies {
        &&& d.ok()
        &&& n.cells[d].data.len() + 1 <= 0x1000_0000
        &&& all_canonical(n.cells[d].held())
        &&& n.rank.dom().contains(d)
        &&& n.rank[d] < n.clock
        &&& 1 <= n.counts[d] <= u32::MAX
    } by {
        assert(r.has(d));
    }
}

proof fn lemma_one_pending(c: Cell)
    ensures
        seq![c].to_multiset() == Multiset::singleton(c),
{
    let s = seq![c];
    Seq::<Cell>::empty().to_multiset_ensures();
    assert(s =~= Seq::<Cell>::empty().push(c));
    assert(Seq::<Cell>::empty().to_multiset() =~= Multiset::empty());
    assert(s.to_multiset() =~= Multiset::singleton(c));
}

proof fn lemma_none_pending(s: Seq<Cell>)
    requires
        s.len() == 0,
    ensures
        s.to_multiset() == Multiset::<Cell>::empty(),
{
    s.to_multiset_ensures();
    assert(s.to_multiset() =~= Multiset::empty());
}

proof fn lemma_pop_pending(s: Seq<Cell>)
    requires
        s.len() > 0,
    ensures
        s.drop_last().to_multiset() == s.to_multiset().remove(s.last()),
        s.to_multiset().count(s.last()) > 0,
{
    s.to_multiset_ensures();
    assert(s.remove(s.len() - 1) =~= s.drop_last());
    assert(s.contains(s.last()));
    assert(s.remove(s.len() - 1).to_multiset() =~= s.to_multiset().remove(s[s.len() - 1]));
}

proof fn lemma_pending_add(a: Seq<Cell>, b: Seq<Cell>)
    ensures
        (a + b).to_multiset() == a.to_multiset().add(b.to_multiset()),
    decreases b.len(),
{
    if b.len() == 0 {
        assert(a + b =~= a);
        lemma_none_pending(b);
        assert(a.to_multiset().add(b.to_multiset()) =~= a.to_multiset());
    } else {
        lemma_pending_add(a, b.drop_last());
        assert(a + b =~= (a + b.drop_last()).push(b.last()));
        assert(b =~= b.drop_last().push(b.last()));
        (a + b.drop_last()).to_multiset_ensures();
        b.drop_last().to_multiset_ensures();
        assert((a + b).to_multiset() =~= a.to_multiset().add(b.to_multiset()));
    }
}

/// No more cells can be in use than there are names for.
proof fn lemma_live_bound(r: Record)
    requires
        r.shaped(),
    ensures
        r.order.len() <= 0x1_0000_0000_0000,
{
    let names = Seq::new(r.order.len(), |i: int| r.order[i].spec_bits() as int);
    assert forall|i: int, j: int| 0 <= i < names.len() && 0 <= j < names.len() && i
        != j implies names[i] != names[j] by {
        assert(r.order.contains(r.order[i]));
        assert(r.order.contains(r.order[j]));
        assert(r.has(r.order[i]));
        assert(r.has(r.order[j]));
        law_cell_roundtrip(r.order[i]);
        law_cell_roundtrip(r.order[j]);
    }
    assert(names.no_duplicates());
    names.unique_seq_to_set();
    let all = vstd::set_lib::set_int_range(0, 0x1_0000_0000_0000);
    vstd::set_lib::lemma_int_range(0, 0x1_0000_0000_0000);
    assert(names.to_set().subset_of(all)) by {
        assert forall|x: int| names.to_set().contains(x) implies all.contains(x) by {
            let i = choose|i: int| 0 <= i < names.len() && names[i] == x;
            assert(r.order.contains(r.order[i]));
            assert(r.has(r.order[i]));
            law_cell_roundtrip(r.order[i]);
        }
    }
    vstd::set_lib::lemma_len_subset(names.to_set(), all);
}

} // verus!
