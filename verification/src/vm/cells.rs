//! What cells hold: text, big numbers, constructors, closures and tuples.

use crate::vm::heap::{Full, Heap, MAX_CELL_WORDS};
use crate::vm::record::{
    after_held, all_canonical, Body, cells_in, first_held, Kind, part_of, Record, rewritten,
    with_cell,
};
use crate::vm::value::{
    canonical, Cell, FuncIdx, Value, variant_bits, variant_from_bits, variant_of, variant_to_bits,
    VariantRef,
};
use vstd::multiset::Multiset;
use vstd::prelude::*;

verus! {

/// What a run of bytes counts to.
pub open spec fn bytes_span(n: nat) -> nat
    decreases n,
{
    if n == 0 {
        1
    } else {
        256 * bytes_span((n - 1) as nat)
    }
}

/// Up to eight bytes as a word, the first in its low bits.
pub open spec fn pack(bytes: Seq<u8>) -> nat
    decreases bytes.len(),
{
    if bytes.len() == 0 {
        0
    } else {
        bytes[0] as nat + 256 * pack(bytes.skip(1))
    }
}

/// Byte `i` of a word.
pub open spec fn nth_byte(w: nat, i: nat) -> u8
    decreases i,
{
    if i == 0 {
        (w % 256) as u8
    } else {
        nth_byte(w / 256, (i - 1) as nat)
    }
}

proof fn lemma_pack(bytes: Seq<u8>)
    ensures
        pack(bytes) < bytes_span(bytes.len()),
    decreases bytes.len(),
{
    if bytes.len() > 0 {
        lemma_pack(bytes.skip(1));
    }
}

proof fn lemma_span(n: nat)
    requires
        n <= 8,
    ensures
        bytes_span(n) <= 0x1_0000_0000_0000_0000,
        n <= 7 ==> bytes_span(n) <= 0x100_0000_0000_0000,
{
    reveal_with_fuel(bytes_span, 9);
}

/// A packed byte is read back; past the end there are zeros.
pub proof fn lemma_nth(bytes: Seq<u8>, i: nat)
    ensures
        nth_byte(pack(bytes), i) == if i < bytes.len() {
            bytes[i as int]
        } else {
            0
        },
    decreases bytes.len(), i,
{
    if bytes.len() == 0 {
        lemma_nth_zero(i);
    } else {
        let rest = bytes.skip(1);
        let w = pack(bytes);
        assert(w % 256 == bytes[0] as nat);
        assert(w / 256 == pack(rest));
        if i > 0 {
            lemma_nth(rest, (i - 1) as nat);
        }
    }
}

proof fn lemma_nth_zero(i: nat)
    ensures
        nth_byte(0, i) == 0,
    decreases i,
{
    if i > 0 {
        lemma_nth_zero((i - 1) as nat);
    }
}

/// Up to eight bytes of a slice as a word.
pub(crate) fn pack_word(bytes: &[u8], from: usize, to: usize) -> (r: u64)
    requires
        from <= to <= bytes@.len(),
        to - from <= 8,
    ensures
        r == pack(bytes@.subrange(from as int, to as int)),
{
    let mut w: u64 = 0;
    let mut i: usize = to;
    proof {
        assert(bytes@.subrange(to as int, to as int) =~= Seq::empty());
    }
    while i > from
        invariant
            from <= i <= to <= bytes@.len(),
            to - from <= 8,
            w == pack(bytes@.subrange(i as int, to as int)),
        decreases i,
    {
        proof {
            let tail = bytes@.subrange(i as int, to as int);
            lemma_pack(tail);
            lemma_span(tail.len());
            let now = bytes@.subrange(i - 1, to as int);
            assert(now.skip(1) =~= tail);
            assert(now[0] == bytes@[i - 1]);
        }
        i = i - 1;
        w = w * 256 + bytes[i] as u64;
    }
    w
}

/// Byte `i` of a word.
pub(crate) fn word_byte(w: u64, i: usize) -> (r: u8)
    ensures
        r == nth_byte(w as nat, i as nat),
{
    let mut x: u64 = w;
    let mut k: usize = i;
    while k > 0
        invariant
            nth_byte(x as nat, k as nat) == nth_byte(w as nat, i as nat),
        decreases k,
    {
        x = x / 256;
        k = k - 1;
    }
    (x % 256) as u8
}

/// Bytes as words, eight to a word.
pub open spec fn byte_words(bytes: Seq<u8>) -> Seq<u64> {
    Seq::new(
        ((bytes.len() + 7) / 8) as nat,
        |i: int|
            pack(
                bytes.subrange(
                    8 * i,
                    if 8 * i + 8 <= bytes.len() {
                        8 * i + 8
                    } else {
                        bytes.len() as int
                    },
                ),
            ) as u64,
    )
}

/// The first `n` bytes of words.
pub open spec fn unpacked(ws: Seq<u64>, n: nat) -> Seq<u8> {
    Seq::new(n, |i: int| nth_byte(ws[i / 8] as nat, (i % 8) as nat))
}

/// Bytes put in words are read back.
pub proof fn lemma_unpacked(bytes: Seq<u8>)
    ensures
        unpacked(byte_words(bytes), bytes.len()) == bytes,
{
    let ws = byte_words(bytes);
    assert forall|i: int| 0 <= i < bytes.len() implies unpacked(ws, bytes.len())[i] == bytes[i] by {
        let k = i / 8;
        let end = if 8 * k + 8 <= bytes.len() {
            8 * k + 8
        } else {
            bytes.len() as int
        };
        let part = bytes.subrange(8 * k, end);
        lemma_pack(part);
        lemma_span(part.len());
        lemma_nth(part, (i % 8) as nat);
        assert(part[i % 8] == bytes[i]);
        assert(ws[k] == pack(part) as u64);
    }
    assert(unpacked(ws, bytes.len()) =~= bytes);
}

/// A length and the bytes, as words.
pub open spec fn text_data(bytes: Seq<u8>) -> Seq<u64> {
    seq![bytes.len() as u64] + byte_words(bytes)
}

/// More text than a cell holds.
pub open spec fn too_long(bytes: Seq<u8>) -> bool {
    text_data(bytes).len() + 1 > MAX_CELL_WORDS
}

/// A cell of text.
pub open spec fn is_text(b: Body) -> bool {
    b.kind is String && exists|bytes: Seq<u8>| #[trigger] text_data(bytes) == b.data && bytes.len()
        <= usize::MAX
}

/// The bytes of a cell of text.
pub open spec fn text_of(b: Body) -> Seq<u8> {
    unpacked(b.data.skip(1), b.data[0] as nat)
}

pub proof fn lemma_text(b: Body, bytes: Seq<u8>)
    requires
        b.kind is String,
        b.data == text_data(bytes),
        bytes.len() <= usize::MAX,
    ensures
        is_text(b),
        text_of(b) == bytes,
        b.data[0] == bytes.len(),
        b.refs().len() == 0,
        b.held().len() == 0,
{
    assert(b.data.skip(1) =~= byte_words(bytes));
    lemma_unpacked(bytes);
}

/// A cell of text has a word for each eight bytes.
proof fn lemma_text_size(b: Body)
    requires
        is_text(b),
    ensures
        b.data.len() == 1 + (text_of(b).len() + 7) / 8,
        text_of(b).len() == b.data[0],
{
    let bytes = choose|bytes: Seq<u8>| #[trigger]
        text_data(bytes) == b.data && bytes.len() <= usize::MAX;
    lemma_text(b, bytes);
    assert(b.data.len() == 1 + byte_words(bytes).len());
}

/// The data words of a run of bytes.
fn words_of(bytes: &[u8]) -> (r: Vec<u64>)
    ensures
        r@ == text_data(bytes@),
{
    let n: usize = bytes.len();
    let mut out: Vec<u64> = Vec::new();
    out.push(n as u64);
    let mut i: usize = 0;
    let ghost ws = byte_words(bytes@);
    proof {
        assert(out@ =~= seq![n as u64] + ws.take(0));
    }
    while i < n
        invariant
            i <= n,
            n == bytes@.len(),
            i < n ==> i % 8 == 0,
            ws == byte_words(bytes@),
            out@ == seq![n as u64] + ws.take((i + 7) as int / 8),
        decreases n - i,
    {
        let end: usize = if n - i > 8 {
            i + 8
        } else {
            n
        };
        let w = pack_word(bytes, i, end);
        let ghost before = out@;
        out.push(w);
        proof {
            let k = i as int / 8;
            assert((i + 7) as int / 8 == k);
            assert((end + 7) as int / 8 == k + 1);
            assert(8 * k == i);
            lemma_pack(bytes@.subrange(i as int, end as int));
            assert(ws[k] == w);
            assert(ws.take(k + 1) =~= ws.take(k).push(w));
            assert(out@ =~= seq![n as u64] + ws.take(k + 1));
        }
        i = end;
    }
    proof {
        assert(ws.take((n + 7) as int / 8) =~= ws);
    }
    out
}

/// The words of values.
pub open spec fn value_words(vs: Seq<Value>) -> Seq<u64> {
    Seq::new(vs.len(), |i: int| vs[i].bits)
}

pub open spec fn all_ok(vs: Seq<Value>) -> bool {
    forall|i: int| 0 <= i < vs.len() ==> (#[trigger] vs[i]).ok()
}

/// The references that values hold.
pub open spec fn handles(vs: Seq<Value>) -> Multiset<Cell> {
    cells_in(value_words(vs)).to_multiset()
}

fn bits_of(first: Option<u64>, vs: &[Value]) -> (r: Vec<u64>)
    ensures
        r@ == (if first is Some {
            seq![first->Some_0]
        } else {
            Seq::empty()
        }) + value_words(vs@),
{
    let mut out: Vec<u64> = Vec::new();
    match first {
        Some(w) => {
            out.push(w);
        },
        None => {},
    }
    let ghost base = out@;
    let ghost ws = value_words(vs@);
    let mut i: usize = 0;
    proof {
        assert(out@ =~= base + ws.take(0));
    }
    while i < vs.len()
        invariant
            i <= vs@.len(),
            ws == value_words(vs@),
            out@ == base + ws.take(i as int),
        decreases vs@.len() - i,
    {
        out.push(vs[i].bits);
        proof {
            assert(ws.take(i + 1) =~= ws.take(i as int).push(ws[i as int]));
            assert(out@ =~= base + ws.take(i + 1));
        }
        i += 1;
    }
    proof {
        assert(ws.take(i as int) =~= ws);
        assert(base =~= if first is Some {
            seq![first->Some_0]
        } else {
            Seq::empty()
        });
    }
    out
}

/// The data of a constructor's cell.
pub open spec fn ctor_data(v: VariantRef, fields: Seq<Value>) -> Seq<u64> {
    seq![variant_bits(v)] + value_words(fields)
}

pub open spec fn closure_data(f: FuncIdx, captures: Seq<Value>) -> Seq<u64> {
    seq![f.0 as u64] + value_words(captures)
}

/// What a constructor's, closure's or tuple's cell holds references in.
pub proof fn lemma_held(kind: Kind, first: u64, vs: Seq<Value>)
    requires
        all_ok(vs),
    ensures
        kind is Ctor || kind is Closure ==> (Body {
            kind,
            data: seq![first] + value_words(vs),
        }).held() == value_words(vs),
        kind is Tuple ==> (Body { kind, data: value_words(vs) }).held() == value_words(vs),
        all_canonical(value_words(vs)),
{
    let ws = value_words(vs);
    assert((seq![first] + ws).subrange(1, (seq![first] + ws).len() as int) =~= ws);
    assert(ws.subrange(0, ws.len() as int) =~= ws);
    assert forall|i: int| 0 <= i < ws.len() implies canonical(#[trigger] ws[i]) by {
        assert(vs[i].ok());
    }
}

/// The words of a list of values are its own: no two lists share them.
pub proof fn lemma_words_tell(a: Seq<Value>, b: Seq<Value>)
    requires
        value_words(a) == value_words(b),
    ensures
        a == b,
{
    assert(a.len() == value_words(a).len());
    assert forall|i: int| 0 <= i < a.len() implies a[i] == b[i] by {
        assert(value_words(a)[i] == a[i].bits);
        assert(value_words(b)[i] == b[i].bits);
    }
    assert(a =~= b);
}

/// A constructor's cell reads back as what it was made of: its variant, each
/// field in its place, and nothing past the last.
pub proof fn law_constructor_reads_back(v: VariantRef, fields: Seq<Value>, read: Seq<Value>)
    ensures
        variant_of(ctor_data(v, fields)[0]) == v,
        ctor_data(v, fields).len() == fields.len() + 1,
        forall|i: int|
            0 <= i < fields.len() ==> (Value { bits: #[trigger] ctor_data(v, fields)[i + 1] })
                == fields[i],
        value_words(read) == ctor_data(v, fields).skip(1) <==> read == fields,
{
    let d = ctor_data(v, fields);
    assert(d[0] == variant_bits(v));
    assert(d.skip(1) =~= value_words(fields));
    if value_words(read) == d.skip(1) {
        lemma_words_tell(read, fields);
    }
    assert forall|i: int| 0 <= i < fields.len() implies (Value { bits: #[trigger] d[i + 1] })
        == fields[i] by {
        assert(d[i + 1] == value_words(fields)[i]);
    }
}

/// A closure's cell reads back as what it was made of: its function and each
/// capture in its place.
pub proof fn law_closure_reads_back(f: FuncIdx, captures: Seq<Value>, read: Seq<Value>)
    ensures
        FuncIdx((closure_data(f, captures)[0] % 0x1_0000_0000) as u32) == f,
        closure_data(f, captures).len() == captures.len() + 1,
        forall|i: int|
            0 <= i < captures.len() ==> (Value {
                bits: #[trigger] closure_data(f, captures)[i + 1],
            }) == captures[i],
        value_words(read) == closure_data(f, captures).skip(1) <==> read == captures,
{
    let d = closure_data(f, captures);
    assert(d[0] == f.0 as u64);
    assert(d.skip(1) =~= value_words(captures));
    if value_words(read) == d.skip(1) {
        lemma_words_tell(read, captures);
    }
    assert forall|i: int| 0 <= i < captures.len() implies (Value { bits: #[trigger] d[i + 1] })
        == captures[i] by {
        assert(d[i + 1] == value_words(captures)[i]);
    }
}

/// A tuple's cell reads back as its elements, each in its place.
pub proof fn law_tuple_reads_back(elements: Seq<Value>, read: Seq<Value>)
    ensures
        value_words(elements).len() == elements.len(),
        forall|i: int|
            0 <= i < elements.len() ==> (Value { bits: #[trigger] value_words(elements)[i] })
                == elements[i],
        value_words(read) == value_words(elements) <==> read == elements,
{
    if value_words(read) == value_words(elements) {
        lemma_words_tell(read, elements);
    }
}

/// A new cell, or no room for one.
pub open spec fn made_or_full(
    before: Heap,
    after: Heap,
    r: Result<Cell, Full>,
    kind: Kind,
    data: Seq<u64>,
) -> bool {
    match r {
        Ok(c) => {
            &&& !before.record().has(c)
            &&& c.ok()
            &&& after.record() == with_cell(before.record(), c, (Body { kind, data }))
        },
        Err(_) => {
            &&& after.record() == before.record()
            &&& data.len() + 1 > MAX_CELL_WORDS || !before.has_room(data.len() as int + 1)
            &&& data.len() + 1 > MAX_CELL_WORDS || after.full()
        },
    }
}

/// Words that hold no reference take none.
pub proof fn lemma_no_refs_needed(b: Body, ext: Multiset<Cell>)
    requires
        b.held().len() == 0,
    ensures
        b.refs().to_multiset().subset_of(ext),
        all_canonical(b.held()),
        b.refs().to_multiset() == Multiset::<Cell>::empty(),
{
    b.refs().to_multiset_ensures();
    assert(b.refs().to_multiset() =~= Multiset::empty());
}

impl Heap {
    /// A new cell holding text.
    pub fn string(&mut self, text: &[u8]) -> (r: Result<Cell, Full>)
        requires
            old(self).wf(),
        ensures
            final(self).wf(),
            made_or_full(*old(self), *final(self), r, Kind::String, text_data(text@)),
            r matches Ok(c) ==> is_text(final(self).record().cells[c]) && text_of(
                final(self).record().cells[c],
            ) == text@,
    {
        let data = words_of(text);
        let n: usize = text.len();
        proof {
            assert(text@.len() == n);
            let b = Body { kind: Kind::String, data: data@ };
            lemma_text(b, text@);
            lemma_no_refs_needed(b, self.record().ext);
        }
        self.make(Kind::String, data.as_slice())
    }

    /// The length in bytes of a cell of text.
    pub fn string_len(&self, cell: Cell) -> (r: usize)
        requires
            self.wf(),
            self.record().has(cell),
            is_text(self.record().cells[cell]),
        ensures
            r == text_of(self.record().cells[cell]).len(),
    {
        proof {
            let b = self.record().cells[cell];
            let bytes = choose|bytes: Seq<u8>| #[trigger]
                text_data(bytes) == b.data && bytes.len() <= usize::MAX;
            lemma_text(b, bytes);
        }
        self.get(cell, 0) as usize
    }

    /// The bytes of a cell of text, put at the end of `out`.
    pub fn read_string(&self, cell: Cell, out: &mut Vec<u8>)
        requires
            self.wf(),
            self.record().has(cell),
            is_text(self.record().cells[cell]),
        ensures
            final(out)@ == old(out)@ + text_of(self.record().cells[cell]),
    {
        let ghost b = self.record().cells[cell];
        let ghost text = text_of(b);
        let ghost base = out@;
        let n = self.string_len(cell);
        proof {
            lemma_text_size(b);
            assert(base + text.take(0) =~= base);
        }
        let mut i: usize = 0;
        while i < n
            invariant
                i <= n,
                self.wf(),
                self.record().has(cell),
                b == self.record().cells[cell],
                text == text_of(b),
                n == text.len(),
                n == b.data[0],
                b.data.len() == 1 + (n + 7) / 8,
                out@ == base + text.take(i as int),
            decreases n - i,
        {
            let w = self.get(cell, 1 + i / 8);
            let x = word_byte(w, i % 8);
            out.push(x);
            proof {
                assert(b.data.skip(1)[i as int / 8] == w);
                assert(text[i as int] == x);
                assert(text.take(i + 1) =~= text.take(i as int).push(x));
                assert(out@ =~= base + text.take(i + 1));
            }
            i += 1;
        }
        proof {
            assert(text.take(i as int) =~= text);
        }
    }

    /// Whether a cell of text holds exactly `text`.
    pub fn string_is(&self, cell: Cell, text: &[u8]) -> (r: bool)
        requires
            self.wf(),
            self.record().has(cell),
            is_text(self.record().cells[cell]),
        ensures
            r == (text_of(self.record().cells[cell]) == text@),
    {
        if self.string_len(cell) != text.len() {
            return false;
        }
        let mut held: Vec<u8> = Vec::new();
        self.read_string(cell, &mut held);
        let ghost all = text_of(self.record().cells[cell]);
        proof {
            assert(held@ =~= all);
        }
        let mut i: usize = 0;
        while i < text.len()
            invariant
                i <= text@.len(),
                held@ == all,
                all == text_of(self.record().cells[cell]),
                all.len() == text@.len(),
                all.take(i as int) == text@.take(i as int),
            decreases text@.len() - i,
        {
            if held[i] != text[i] {
                proof {
                    assert(all[i as int] != text@[i as int]);
                }
                return false;
            }
            proof {
                assert(all.take(i + 1) =~= all.take(i as int).push(all[i as int]));
                assert(text@.take(i + 1) =~= text@.take(i as int).push(text@[i as int]));
            }
            i += 1;
        }
        proof {
            assert(all.take(i as int) =~= all);
            assert(text@.take(i as int) =~= text@);
        }
        true
    }

    /// A new cell for a constructor. Each field's reference passes to it.
    pub fn ctor(&mut self, v: VariantRef, fields: &[Value]) -> (r: Result<Cell, Full>)
        requires
            old(self).wf(),
            all_ok(fields@),
            handles(fields@).subset_of(old(self).record().ext),
        ensures
            final(self).wf(),
            made_or_full(*old(self), *final(self), r, Kind::Ctor, ctor_data(v, fields@)),
    {
        let data = bits_of(Some(variant_to_bits(v)), fields);
        proof {
            lemma_held(Kind::Ctor, variant_bits(v), fields@);
        }
        self.make(Kind::Ctor, data.as_slice())
    }

    /// A new cell for a function over captures, whose references pass to it.
    pub fn closure(&mut self, func: FuncIdx, captures: &[Value]) -> (r: Result<Cell, Full>)
        requires
            old(self).wf(),
            all_ok(captures@),
            handles(captures@).subset_of(old(self).record().ext),
        ensures
            final(self).wf(),
            made_or_full(*old(self), *final(self), r, Kind::Closure, closure_data(func, captures@)),
    {
        let data = bits_of(Some(func.0 as u64), captures);
        proof {
            lemma_held(Kind::Closure, func.0 as u64, captures@);
        }
        self.make(Kind::Closure, data.as_slice())
    }

    /// A new tuple cell. Each element's reference passes to it.
    pub fn tuple(&mut self, elements: &[Value]) -> (r: Result<Cell, Full>)
        requires
            old(self).wf(),
            all_ok(elements@),
            handles(elements@).subset_of(old(self).record().ext),
        ensures
            final(self).wf(),
            made_or_full(*old(self), *final(self), r, Kind::Tuple, value_words(elements@)),
    {
        let data = bits_of(None, elements);
        proof {
            lemma_held(Kind::Tuple, 0, elements@);
            assert(data@ =~= value_words(elements@));
        }
        self.make(Kind::Tuple, data.as_slice())
    }

    /// Which constructor a constructor's cell is.
    pub fn variant(&self, cell: Cell) -> (r: VariantRef)
        requires
            self.wf(),
            self.record().has(cell),
            self.record().cells[cell].data.len() >= 1,
        ensures
            r == variant_of(self.record().cells[cell].data[0]),
    {
        variant_from_bits(self.get(cell, 0))
    }

    /// Field `i` of a constructor's cell, or `None` past its last. Reading it
    /// adds no reference.
    pub fn field(&self, cell: Cell, i: usize) -> (r: Option<Value>)
        requires
            self.wf(),
            self.record().has(cell),
        ensures
            r == if i + 1 < self.record().cells[cell].data.len() {
                Some(Value { bits: self.record().cells[cell].data[i + 1] })
            } else {
                None
            },
    {
        let n = self.len(cell);
        if i < n && i + 1 < n {
            Some(Value::from_bits(self.get(cell, i + 1)))
        } else {
            None
        }
    }

    /// The function a closure's cell runs.
    pub fn closure_func(&self, cell: Cell) -> (r: FuncIdx)
        requires
            self.wf(),
            self.record().has(cell),
            self.record().cells[cell].data.len() >= 1,
        ensures
            r == FuncIdx((self.record().cells[cell].data[0] % 0x1_0000_0000) as u32),
    {
        FuncIdx((self.get(cell, 0) % 0x1_0000_0000) as u32)
    }

    /// Capture `i` of a closure's cell, or `None` past its last.
    pub fn capture(&self, cell: Cell, i: usize) -> (r: Option<Value>)
        requires
            self.wf(),
            self.record().has(cell),
        ensures
            r == if i + 1 < self.record().cells[cell].data.len() {
                Some(Value { bits: self.record().cells[cell].data[i + 1] })
            } else {
                None
            },
    {
        self.field(cell, i)
    }

    /// Element `i` of a tuple's cell, or `None` past its last.
    pub fn element(&self, cell: Cell, i: usize) -> (r: Option<Value>)
        requires
            self.wf(),
            self.record().has(cell),
        ensures
            r == if i < self.record().cells[cell].data.len() {
                Some(Value { bits: self.record().cells[cell].data[i as int] })
            } else {
                None
            },
    {
        if i < self.len(cell) {
            Some(Value::from_bits(self.get(cell, i)))
        } else {
            None
        }
    }

    /// The values in data words `from` on.
    fn values_from(&self, cell: Cell, from: usize) -> (r: Vec<Value>)
        requires
            self.wf(),
            self.record().has(cell),
            from <= self.record().cells[cell].data.len(),
        ensures
            value_words(r@) == self.record().cells[cell].data.skip(from as int),
    {
        let n = self.len(cell);
        let ghost d = self.record().cells[cell].data;
        let mut out: Vec<Value> = Vec::new();
        let mut i: usize = from;
        proof {
            assert(value_words(out@) =~= d.subrange(from as int, from as int));
        }
        while i < n
            invariant
                from <= i <= n,
                self.wf(),
                self.record().has(cell),
                d == self.record().cells[cell].data,
                n == d.len(),
                value_words(out@) == d.subrange(from as int, i as int),
            decreases n - i,
        {
            out.push(Value::from_bits(self.get(cell, i)));
            proof {
                assert(value_words(out@) =~= d.subrange(from as int, i as int).push(d[i as int]));
                assert(d.subrange(from as int, i + 1) =~= d.subrange(from as int, i as int).push(
                    d[i as int],
                ));
            }
            i += 1;
        }
        proof {
            assert(d.subrange(from as int, n as int) =~= d.skip(from as int));
        }
        out
    }

    /// A constructor's fields, or a closure's captures.
    pub fn fields(&self, cell: Cell) -> (r: Vec<Value>)
        requires
            self.wf(),
            self.record().has(cell),
            self.record().cells[cell].data.len() >= 1,
        ensures
            value_words(r@) == self.record().cells[cell].data.skip(1),
    {
        self.values_from(cell, 1)
    }

    /// A tuple's elements.
    pub fn elements(&self, cell: Cell) -> (r: Vec<Value>)
        requires
            self.wf(),
            self.record().has(cell),
        ensures
            value_words(r@) == self.record().cells[cell].data,
    {
        proof {
            let d = self.record().cells[cell].data;
            assert(d.skip(0) =~= d);
        }
        self.values_from(cell, 0)
    }

    /// Whether a constructor of `fields` fields may be written over a cell: it
    /// is a constructor's cell of exactly that size, and nothing else refers to
    /// it.
    pub fn fits_ctor(&self, cell: Cell, fields: usize) -> (r: bool)
        requires
            self.wf(),
            self.record().has(cell),
        ensures
            r == (self.record().counts[cell] == 1 && self.record().cells[cell].kind is Ctor
                && self.record().cells[cell].data.len() == fields + 1),
    {
        let n = self.len(cell);
        let k = self.kind(cell);
        self.count(cell) == 1 && k == Kind::Ctor && n >= 1 && n - 1 == fields
    }

    /// Give up everything that a cell holds, if nothing else refers to it, and
    /// keep the cell for a constructor of its size. `false` when something else
    /// refers to it, which leaves it as it is.
    pub fn hollow(&mut self, cell: Cell) -> (r: bool)
        requires
            old(self).wf(),
            old(self).record().ext.count(cell) > 0,
        ensures
            final(self).wf(),
            r == (old(self).record().counts[cell] == 1),
            !r ==> final(self).record() == old(self).record(),
            r ==> {
                &&& final(self).record().ext == old(self).record().ext
                &&& final(self).record().has(cell)
                &&& final(self).record().counts[cell] == 1
                &&& final(self).record().cells[cell] == hollowed(old(self).record().cells[cell])
                &&& forall|d: Cell| #[trigger]
                    final(self).record().has(d) && d != cell ==> old(self).record().has(d)
                        && final(self).record().cells[d] == old(self).record().cells[d]
            },
    {
        let ghost first = self.record();
        proof {
            self.lemma_record_ok();
            assert(first.has(cell));
        }
        if self.count(cell) != 1 {
            return false;
        }
        let kind = self.kind(cell);
        let mut data = self.data(cell);
        let n: usize = data.len();
        let ghost b = first.cells[cell];
        let mut given: Vec<Cell> = Vec::new();
        let from = first_held_word(kind, n);
        let to = after_held_word(kind, n);
        let nil = Value::nil();
        let mut i: usize = from;
        let ghost ws = b.held();
        proof {
            assert(ws.take(0) =~= Seq::empty());
        }
        while i < to
            invariant
                from <= i <= to <= n,
                n == data@.len(),
                n == b.data.len(),
                from == first_held(b.kind, n as int),
                to == after_held(b.kind, n as int),
                ws == b.held(),
                nil.ok(),
                nil.spec_cell() is None,
                given@ == cells_in(ws.take(i - from)),
                forall|j: int|
                    0 <= j < n ==> #[trigger] data@[j] == if from <= j < i {
                        nil.bits
                    } else {
                        b.data[j]
                    },
            decreases to - i,
        {
            proof {
                let k = i - from;
                assert(ws[k] == b.data[i as int]);
                assert(ws.take(k + 1).drop_last() =~= ws.take(k));
                assert(ws.take(k + 1).last() == ws[k]);
            }
            if let Some(c) = Value::from_bits(data[i]).as_cell() {
                given.push(c);
            }
            data.set(i, nil.bits);
            i += 1;
        }
        let ghost nb = Body { kind, data: data@ };
        proof {
            assert(ws.take(to - from) =~= ws);
            assert(given@ == b.refs());
            assert(nb.held().len() == to - from);
            assert forall|j: int| 0 <= j < nb.held().len() implies #[trigger] nb.held()[j]
                == nil.bits by {}
            lemma_no_cells(nb.held());
            nb.refs().to_multiset_ensures();
            assert(nb.refs().to_multiset() =~= Multiset::empty());
            assert(nb.data =~= hollowed(b).data);
        }
        self.rewrite(cell, data.as_slice());
        let ghost mid = self.record();
        proof {
            self.lemma_record_ok();
            assert(mid.ext =~= first.ext.add(b.refs().to_multiset()));
        }
        let mut k: usize = 0;
        proof {
            assert(given@.skip(0) =~= given@);
        }
        while k < given.len()
            invariant
                k <= given@.len(),
                self.wf(),
                given@ == b.refs(),
                self.record().ext == first.ext.add(given@.skip(k as int).to_multiset()),
                part_of(self.record(), mid),
                first.ext.count(cell) > 0,
            decreases given@.len() - k,
        {
            let ghost rest = given@.skip(k as int);
            proof {
                rest.to_multiset_ensures();
                assert(rest[0] == given@[k as int]);
                assert(rest.contains(given@[k as int]));
                assert(rest.remove(0) =~= given@.skip(k + 1));
                assert(rest.remove(0).to_multiset() =~= rest.to_multiset().remove(rest[0]));
            }
            let ghost now = self.record();
            self.release(given[k]);
            proof {
                assert forall|d: Cell| #[trigger] self.record().has(d) implies mid.has(d)
                    && self.record().cells[d] == mid.cells[d] by {
                    assert(now.has(d));
                }
                assert(self.record().ext =~= first.ext.add(given@.skip(k + 1).to_multiset()));
            }
            k += 1;
        }
        proof {
            self.lemma_record_ok();
            assert(given@.skip(k as int) =~= Seq::empty());
            given@.skip(k as int).to_multiset_ensures();
            assert(given@.skip(k as int).to_multiset() =~= Multiset::empty());
            assert(self.record().ext =~= first.ext);
            assert(self.record().has(cell));
            crate::vm::record::lemma_rewritten(first, cell, nb);
            let rec = self.record();
            assert(rec.counts[cell] == rec.references(cell));
            assert(first.counts[cell] == first.references(cell));
            assert(first.ext.count(cell) == 1);
            lemma_only_outside(first, mid, rec, cell, nb);
            assert forall|d: Cell| #[trigger] rec.has(d) && d != cell implies first.has(d)
                && rec.cells[d] == first.cells[d] by {
                assert(mid.has(d));
            }
        }
        true
    }

    /// Write a constructor over a cell that was emptied and is of its size. The
    /// fields' references pass to it.
    pub fn ctor_in(&mut self, cell: Cell, v: VariantRef, fields: &[Value])
        requires
            old(self).wf(),
            old(self).record().has(cell),
            old(self).record().counts[cell] == 1,
            old(self).record().ext.count(cell) > 0,
            old(self).record().cells[cell].kind is Ctor,
            old(self).record().cells[cell].data.len() == fields@.len() + 1,
            old(self).record().cells[cell].refs().len() == 0,
            all_ok(fields@),
            handles(fields@).subset_of(old(self).record().ext.remove(cell)),
        ensures
            final(self).wf(),
            final(self).record() == rewritten(
                old(self).record(),
                cell,
                (Body { kind: Kind::Ctor, data: ctor_data(v, fields@) }),
            ),
            final(self).made == old(self).made,
            old(self).reused < u64::MAX ==> final(self).reused == old(self).reused + 1,
    {
        let data = bits_of(Some(variant_to_bits(v)), fields);
        proof {
            lemma_held(Kind::Ctor, variant_bits(v), fields@);
        }
        self.note_reused();
        self.rewrite(cell, data.as_slice());
    }
}

/// A cell with nothing left in the words that held references.
pub open spec fn hollowed(b: Body) -> Body {
    let n = b.data.len() as int;
    Body {
        kind: b.kind,
        data: Seq::new(
            b.data.len(),
            |j: int|
                if first_held(b.kind, n) <= j < after_held(b.kind, n) {
                    0xFFFA_0000_0000_0000u64
                } else {
                    b.data[j]
                },
        ),
    }
}

/// Nil names no cell.
proof fn lemma_no_cells(ws: Seq<u64>)
    requires
        forall|j: int| 0 <= j < ws.len() ==> #[trigger] ws[j] == 0xFFFA_0000_0000_0000u64,
    ensures
        cells_in(ws).len() == 0,
        all_canonical(ws),
    decreases ws.len(),
{
    if ws.len() > 0 {
        let init = ws.drop_last();
        assert forall|j: int| 0 <= j < init.len() implies #[trigger] init[j]
            == 0xFFFA_0000_0000_0000u64 by {
            assert(init[j] == ws[j]);
        }
        lemma_no_cells(init);
        assert(ws[ws.len() - 1] == ws.last());
    }
}

/// A cell that only the caller referred to still is one: what is left refers
/// to it from nowhere else.
proof fn lemma_only_outside(first: Record, mid: Record, rec: Record, cell: Cell, nb: Body)
    requires
        first.ok(),
        first.has(cell),
        first.counts[cell] == 1,
        first.ext.count(cell) == 1,
        mid == rewritten(first, cell, nb),
        mid.ok(),
        mid.ext.count(cell) == 1,
        rec.ok(),
        rec.has(cell),
        rec.ext == first.ext,
        part_of(rec, mid),
        nb.refs().len() == 0,
    ensures
        rec.counts[cell] == 1,
{
    assert(rec.counts[cell] == rec.references(cell));
    lemma_none_refer(mid, rec, cell, rec.order.len() as int);
    assert(rec.order.take(rec.order.len() as int) =~= rec.order);
}

proof fn lemma_none_refer(mid: Record, rec: Record, cell: Cell, n: int)
    requires
        mid.ok(),
        rec.ok(),
        mid.has(cell),
        mid.counts[cell] == 1,
        mid.ext.count(cell) == 1,
        part_of(rec, mid),
        0 <= n <= rec.order.len(),
    ensures
        crate::vm::record::total(rec.order.take(n), rec.cells).count(cell) == 0,
    decreases n,
{
    if n > 0 {
        lemma_none_refer(mid, rec, cell, n - 1);
        assert(rec.order.take(n).drop_last() =~= rec.order.take(n - 1));
        let d = rec.order[n - 1];
        assert(rec.order.take(n).last() == d);
        assert(rec.order.contains(d));
        assert(rec.has(d));
        assert(mid.has(d));
        let refs = rec.cells[d].refs();
        refs.to_multiset_ensures();
        if refs.to_multiset().count(cell) > 0 {
            assert(refs.contains(cell));
            assert(mid.cells[d] == rec.cells[d]);
            assert(mid.order.contains(d));
            let i = choose|i: int| 0 <= i < mid.order.len() && mid.order[i] == d;
            crate::vm::record::lemma_total_counts(mid.order, mid.cells, i, cell);
            assert(mid.counts[cell] == mid.references(cell));
        }
    }
}

fn first_held_word(kind: Kind, n: usize) -> (r: usize)
    ensures
        r == first_held(kind, n as int),
        r <= after_held(kind, n as int),
        r <= n,
{
    crate::vm::heap::held_from(kind, n)
}

fn after_held_word(kind: Kind, n: usize) -> (r: usize)
    ensures
        r == after_held(kind, n as int),
        r <= n,
{
    crate::vm::heap::held_to(kind, n)
}

} // verus!
