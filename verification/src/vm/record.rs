//! What a heap holds: its cells, who refers to them, and that every count is
//! right.

use crate::vm::value::{canonical, Cell, Value};
use vstd::multiset::Multiset;
use vstd::prelude::*;

verus! {

/// What a cell holds.
#[derive(Debug, Clone, Copy, PartialEq, Eq, Structural)]
pub enum Kind {
    /// Text: a word holding its length in bytes, then the bytes.
    String,
    /// An Int too big for a value word: a word holding its sign and how many
    /// 64-bit digits follow, then the digits, least significant first.
    BigInt,
    /// A constructor with fields: a word holding its type and its place in it,
    /// then each field, which holds a reference.
    Ctor,
    /// A function with captures: a word holding the function, then each
    /// capture, which holds a reference.
    Closure,
    /// A tuple's elements, each of which holds a reference.
    Tuple,
    /// An array's root, one of its leaves, or one of its branches.
    ArrayRoot,
    ArrayLeaf,
    ArrayBranch,
    /// The two ends of a range of Ints.
    Range,
    /// A binary's bits, or a slice of another binary's, to which it holds a
    /// reference in its first word.
    Binary,
    BinarySlice,
    /// A map's root, one of its nodes, or a list of keys whose whole hashes are
    /// equal. Each holds references in every word after its first.
    MapRoot,
    MapNode,
    MapCollision,
}

impl Kind {
    pub open spec fn spec_number(self) -> u64 {
        match self {
            Kind::String => 1,
            Kind::BigInt => 2,
            Kind::Ctor => 3,
            Kind::Closure => 4,
            Kind::Tuple => 5,
            Kind::ArrayRoot => 6,
            Kind::ArrayLeaf => 7,
            Kind::ArrayBranch => 8,
            Kind::Range => 9,
            Kind::Binary => 10,
            Kind::BinarySlice => 11,
            Kind::MapRoot => 12,
            Kind::MapNode => 13,
            Kind::MapCollision => 14,
        }
    }

    pub fn number(self) -> (r: u64)
        ensures
            r == self.spec_number(),
            1 <= r <= 14,
    {
        match self {
            Kind::String => 1,
            Kind::BigInt => 2,
            Kind::Ctor => 3,
            Kind::Closure => 4,
            Kind::Tuple => 5,
            Kind::ArrayRoot => 6,
            Kind::ArrayLeaf => 7,
            Kind::ArrayBranch => 8,
            Kind::Range => 9,
            Kind::Binary => 10,
            Kind::BinarySlice => 11,
            Kind::MapRoot => 12,
            Kind::MapNode => 13,
            Kind::MapCollision => 14,
        }
    }

    pub fn from_number(n: u64) -> (r: Option<Kind>)
        ensures
            r is Some <==> 1 <= n <= 14,
            r matches Some(k) ==> k.spec_number() == n,
    {
        if n == 1 {
            Some(Kind::String)
        } else if n == 2 {
            Some(Kind::BigInt)
        } else if n == 3 {
            Some(Kind::Ctor)
        } else if n == 4 {
            Some(Kind::Closure)
        } else if n == 5 {
            Some(Kind::Tuple)
        } else if n == 6 {
            Some(Kind::ArrayRoot)
        } else if n == 7 {
            Some(Kind::ArrayLeaf)
        } else if n == 8 {
            Some(Kind::ArrayBranch)
        } else if n == 9 {
            Some(Kind::Range)
        } else if n == 10 {
            Some(Kind::Binary)
        } else if n == 11 {
            Some(Kind::BinarySlice)
        } else if n == 12 {
            Some(Kind::MapRoot)
        } else if n == 13 {
            Some(Kind::MapNode)
        } else if n == 14 {
            Some(Kind::MapCollision)
        } else {
            None
        }
    }
}

/// The first of `n` data words that holds a reference, all from there on do but
/// in a binary slice, of which only the first does.
pub open spec fn first_held(kind: Kind, n: int) -> int {
    match kind {
        Kind::Ctor | Kind::Closure | Kind::MapRoot | Kind::MapNode | Kind::MapCollision => if n
            >= 1 {
            1
        } else {
            n
        },
        Kind::Tuple | Kind::ArrayLeaf => 0,
        Kind::ArrayRoot => if n >= 3 {
            3
        } else {
            n
        },
        Kind::ArrayBranch => if n >= 1 {
            1 + (n - 1) / 2
        } else {
            n
        },
        Kind::BinarySlice => 0,
        Kind::String | Kind::BigInt | Kind::Range | Kind::Binary => n,
    }
}

pub open spec fn after_held(kind: Kind, n: int) -> int {
    match kind {
        Kind::BinarySlice => if n >= 1 {
            1
        } else {
            n
        },
        _ => n,
    }
}

/// A cell: its kind, and the words after its header.
pub struct Body {
    pub kind: Kind,
    pub data: Seq<u64>,
}

impl Body {
    /// The words that hold references.
    pub open spec fn held(self) -> Seq<u64> {
        let n = self.data.len() as int;
        self.data.subrange(first_held(self.kind, n), after_held(self.kind, n))
    }

    /// The cells it refers to, once for each reference.
    pub open spec fn refs(self) -> Seq<Cell> {
        cells_in(self.held())
    }
}

/// The cells that words name.
pub open spec fn cells_in(ws: Seq<u64>) -> Seq<Cell>
    decreases ws.len(),
{
    if ws.len() == 0 {
        Seq::empty()
    } else {
        let rest = cells_in(ws.drop_last());
        match (Value { bits: ws.last() }).spec_cell() {
            Some(c) => rest.push(c),
            None => rest,
        }
    }
}

pub open spec fn all_canonical(ws: Seq<u64>) -> bool {
    forall|i: int| 0 <= i < ws.len() ==> canonical(#[trigger] ws[i])
}

pub proof fn lemma_cells_add(a: Seq<u64>, b: Seq<u64>)
    ensures
        cells_in(a + b) == cells_in(a) + cells_in(b),
    decreases b.len(),
{
    if b.len() == 0 {
        assert(a + b =~= a);
        assert(cells_in(a) + cells_in(b) =~= cells_in(a));
    } else {
        lemma_cells_add(a, b.drop_last());
        assert((a + b).drop_last() =~= a + b.drop_last());
        assert((a + b).last() == b.last());
        assert(cells_in(a + b) =~= cells_in(a) + cells_in(b));
    }
}

/// A word that names a cell puts it among those named.
pub proof fn lemma_cells_at(ws: Seq<u64>, i: int)
    requires
        0 <= i < ws.len(),
        (Value { bits: ws[i] }).spec_cell() is Some,
    ensures
        cells_in(ws).contains((Value { bits: ws[i] }).spec_cell()->Some_0),
    decreases ws.len(),
{
    let c = (Value { bits: ws[i] }).spec_cell()->Some_0;
    let all = cells_in(ws);
    if i == ws.len() - 1 {
        assert(all[all.len() - 1] == c);
    } else {
        assert(ws.drop_last()[i] == ws[i]);
        lemma_cells_at(ws.drop_last(), i);
        let rest = cells_in(ws.drop_last());
        let j = choose|j: int| 0 <= j < rest.len() && rest[j] == c;
        assert(all[j] == c);
    }
}

/// Everything the cells in a list refer to.
pub open spec fn total(order: Seq<Cell>, cells: Map<Cell, Body>) -> Multiset<Cell>
    decreases order.len(),
{
    if order.len() == 0 {
        Multiset::empty()
    } else {
        total(order.drop_last(), cells).add(cells[order.last()].refs().to_multiset())
    }
}

pub proof fn lemma_total_remove(order: Seq<Cell>, cells: Map<Cell, Body>, j: int)
    requires
        0 <= j < order.len(),
    ensures
        total(order, cells) == total(order.remove(j), cells).add(
            cells[order[j]].refs().to_multiset(),
        ),
    decreases order.len(),
{
    if j == order.len() - 1 {
        assert(order.remove(j) =~= order.drop_last());
    } else {
        lemma_total_remove(order.drop_last(), cells, j);
        assert(order.remove(j).drop_last() =~= order.drop_last().remove(j));
        assert(order.remove(j).last() == order.last());
        assert(total(order, cells) =~= total(order.remove(j), cells).add(
            cells[order[j]].refs().to_multiset(),
        ));
    }
}

/// Only what listed cells hold counts.
pub proof fn lemma_total_same(order: Seq<Cell>, a: Map<Cell, Body>, b: Map<Cell, Body>)
    requires
        forall|i: int| 0 <= i < order.len() ==> a[#[trigger] order[i]] == b[order[i]],
    ensures
        total(order, a) == total(order, b),
    decreases order.len(),
{
    if order.len() > 0 {
        let init = order.drop_last();
        assert forall|i: int| 0 <= i < init.len() implies a[#[trigger] init[i]] == b[init[i]] by {
            assert(init[i] == order[i]);
        }
        lemma_total_same(init, a, b);
        assert(order[order.len() - 1] == order.last());
    }
}

/// What a heap holds: its cells, their counts, and the references to them from
/// outside it. Each cell came after those it refers to.
pub struct Record {
    pub cells: Map<Cell, Body>,
    pub counts: Map<Cell, nat>,
    pub order: Seq<Cell>,
    pub ext: Multiset<Cell>,
    pub rank: Map<Cell, nat>,
    pub clock: nat,
}

impl Record {
    pub open spec fn has(self, c: Cell) -> bool {
        self.cells.dom().contains(c)
    }

    /// The references that there are to a cell, from inside and outside.
    pub open spec fn references(self, c: Cell) -> nat {
        total(self.order, self.cells).count(c) + self.ext.count(c)
    }

    /// Everything but the counts is right.
    pub open spec fn shaped(self) -> bool {
        &&& self.order.no_duplicates()
        &&& self.counts.dom() == self.cells.dom()
        &&& forall|c: Cell| #[trigger] self.has(c) <==> self.order.contains(c)
        &&& forall|c: Cell| #[trigger]
            self.has(c) ==> {
                &&& c.ok()
                &&& self.cells[c].data.len() + 1 <= 0x1000_0000
                &&& all_canonical(self.cells[c].held())
                &&& self.rank.dom().contains(c)
                &&& self.rank[c] < self.clock
                &&& 1 <= self.counts[c] <= u32::MAX
            }
        &&& forall|c: Cell, d: Cell|
            #![trigger self.has(c), self.has(d)]
            self.has(c) && self.cells[c].refs().contains(d) ==> self.has(d) && self.rank[d]
                < self.rank[c]
    }

    /// Every count is the number of references.
    pub open spec fn counted(self, pending: Multiset<Cell>) -> bool {
        &&& forall|c: Cell| #[trigger]
            self.has(c) ==> self.counts[c] == self.references(c) + pending.count(c)
        &&& forall|c: Cell| self.ext.count(c) + pending.count(c) > 0 ==> #[trigger] self.has(c)
    }

    pub open spec fn ok(self) -> bool {
        self.shaped() && self.counted(Multiset::empty())
    }
}

/// Cells that are in both are as they were.
pub open spec fn keeps(a: Record, b: Record) -> bool {
    forall|c: Cell| #[trigger] a.has(c) && b.has(c) ==> b.cells[c] == a.cells[c]
}

/// Every cell of `a` is one of `b`, and as it is there.
pub open spec fn part_of(a: Record, b: Record) -> bool {
    forall|c: Cell| #[trigger] a.has(c) ==> b.has(c) && a.cells[c] == b.cells[c]
}

/// A cell refers only to cells that are there, which came before it.
pub proof fn lemma_ref_live(r: Record, c: Cell, d: Cell)
    requires
        r.shaped(),
        r.has(c),
        r.cells[c].refs().contains(d),
    ensures
        r.has(d),
        r.rank[d] < r.rank[c],
{
    let _ = r.has(d);
}

/// A cell added, which takes over the references that its words hold.
pub open spec fn with_cell(r: Record, c: Cell, b: Body) -> Record {
    Record {
        cells: r.cells.insert(c, b),
        counts: r.counts.insert(c, 1),
        order: r.order.push(c),
        ext: r.ext.sub(b.refs().to_multiset()).insert(c),
        rank: r.rank.insert(c, r.clock),
        clock: r.clock + 1,
    }
}

pub proof fn lemma_with_cell(r: Record, c: Cell, b: Body)
    requires
        r.ok(),
        c.ok(),
        !r.has(c),
        b.data.len() + 1 <= 0x1000_0000,
        all_canonical(b.held()),
        b.refs().to_multiset().subset_of(r.ext),
    ensures
        with_cell(r, c, b).ok(),
        keeps(r, with_cell(r, c, b)),
{
    let n = with_cell(r, c, b);
    b.refs().to_multiset_ensures();
    assert forall|i: int| 0 <= i < r.order.len() implies r.cells[#[trigger] r.order[i]]
        == n.cells[r.order[i]] by {
        assert(r.order.contains(r.order[i]));
        assert(r.has(r.order[i]));
    }
    lemma_total_same(r.order, r.cells, n.cells);
    assert(n.order.drop_last() =~= r.order);
    assert(n.order.last() == c);
    assert(n.cells[c] == b);
    assert(total(n.order, n.cells) =~= total(r.order, r.cells).add(b.refs().to_multiset()));
    assert(n.counts.dom() =~= n.cells.dom());
    assert forall|d: Cell| #[trigger] n.has(d) <==> n.order.contains(d) by {
        if d == c {
            assert(n.order[r.order.len() as int] == c);
        }
        if r.order.contains(d) {
            let i = choose|i: int| 0 <= i < r.order.len() && r.order[i] == d;
            assert(n.order[i] == d);
        }
        if n.order.contains(d) && d != c {
            let i = choose|i: int| 0 <= i < n.order.len() && n.order[i] == d;
            assert(r.order[i] == d);
            assert(r.order.contains(d));
            assert(r.has(d));
        }
        if n.has(d) && d != c {
            assert(r.has(d));
        }
    }
    assert(n.order.no_duplicates()) by {
        assert forall|i: int, j: int| 0 <= i < n.order.len() && 0 <= j < n.order.len() && i != j
            implies n.order[i] != n.order[j] by {
            if i < r.order.len() && j < r.order.len() {
            } else if i < r.order.len() {
                assert(r.order.contains(r.order[i]));
                assert(r.has(r.order[i]));
            } else {
                assert(r.order.contains(r.order[j]));
                assert(r.has(r.order[j]));
            }
        }
    }
    lemma_no_refs(r, c);
    assert forall|d: Cell, e: Cell|
        #![trigger n.has(d), n.has(e)]
        n.has(d) && n.cells[d].refs().contains(e) implies n.has(e) && n.rank[e] < n.rank[d] by {
        if d == c {
            assert(b.refs().to_multiset().count(e) > 0);
            assert(r.ext.count(e) > 0);
            assert(r.has(e));
        } else {
            assert(r.has(d));
            lemma_ref_live(r, d, e);
        }
    }
    assert forall|d: Cell| #[trigger] n.has(d) implies n.counts[d] == n.references(d) by {
        if d != c {
            assert(r.has(d));
            assert(r.counts[d] == r.references(d));
            assert(b.refs().to_multiset().count(d) <= r.ext.count(d));
        } else {
            assert(!b.refs().contains(c)) by {
                if b.refs().contains(c) {
                    assert(b.refs().to_multiset().count(c) > 0);
                    assert(r.ext.count(c) > 0);
                    assert(r.has(c));
                }
            }
            assert(b.refs().to_multiset().count(c) == 0);
            assert(r.ext.count(c) == 0) by {
                if r.ext.count(c) > 0 {
                    assert(r.has(c));
                }
            }
        }
    }
    assert forall|d: Cell| n.ext.count(d) > 0 implies #[trigger] n.has(d) by {
        if d != c {
            assert(r.ext.count(d) > 0);
            assert(r.has(d));
        }
    }
    assert forall|d: Cell| #[trigger] n.has(d) implies {
        &&& d.ok()
        &&& n.cells[d].data.len() + 1 <= 0x1000_0000
        &&& all_canonical(n.cells[d].held())
        &&& n.rank.dom().contains(d)
        &&& n.rank[d] < n.clock
        &&& 1 <= n.counts[d] <= u32::MAX
    } by {
        if d != c {
            assert(r.has(d));
        }
    }
    assert forall|d: Cell| #[trigger] r.has(d) && n.has(d) implies n.cells[d] == r.cells[d] by {}
}

/// Nothing refers to a cell that is not there.
pub proof fn lemma_no_refs(r: Record, c: Cell)
    requires
        r.shaped(),
        !r.has(c),
    ensures
        total(r.order, r.cells).count(c) == 0,
{
    lemma_no_refs_in(r, c, r.order.len() as int);
    assert(r.order.take(r.order.len() as int) =~= r.order);
}

proof fn lemma_no_refs_in(r: Record, c: Cell, n: int)
    requires
        r.shaped(),
        !r.has(c),
        0 <= n <= r.order.len(),
    ensures
        total(r.order.take(n), r.cells).count(c) == 0,
    decreases n,
{
    if n > 0 {
        lemma_no_refs_in(r, c, n - 1);
        assert(r.order.take(n).drop_last() =~= r.order.take(n - 1));
        let d = r.order[n - 1];
        assert(r.order.take(n).last() == d);
        assert(r.order.contains(d));
        assert(r.has(d));
        let refs = r.cells[d].refs();
        refs.to_multiset_ensures();
        if refs.to_multiset().count(c) > 0 {
            assert(refs.contains(c));
            lemma_ref_live(r, d, c);
        }
    }
}

/// One more reference from outside.
pub open spec fn with_ref(r: Record, c: Cell) -> Record {
    Record { counts: r.counts.insert(c, r.counts[c] + 1), ext: r.ext.insert(c), ..r }
}

pub proof fn lemma_with_ref(r: Record, c: Cell)
    requires
        r.ok(),
        r.has(c),
        r.counts[c] < u32::MAX,
    ensures
        with_ref(r, c).ok(),
        keeps(r, with_ref(r, c)),
{
    let n = with_ref(r, c);
    assert(n.counts.dom() =~= n.cells.dom());
    assert forall|d: Cell| #[trigger] n.has(d) <==> n.order.contains(d) by {
        assert(r.has(d) <==> r.order.contains(d));
    }
    assert forall|d: Cell, e: Cell|
        #![trigger n.has(d), n.has(e)]
        n.has(d) && n.cells[d].refs().contains(e) implies n.has(e) && n.rank[e] < n.rank[d] by {
        assert(r.has(d));
        lemma_ref_live(r, d, e);
    }
    assert forall|d: Cell| #[trigger] n.has(d) implies n.counts[d] == n.references(d) by {
        assert(r.has(d));
        assert(r.counts[d] == r.references(d));
    }
    assert forall|d: Cell| n.ext.count(d) > 0 implies #[trigger] n.has(d) by {
        if d != c {
            assert(r.ext.count(d) > 0);
            assert(r.has(d));
        } else {
            assert(r.has(c));
        }
    }
    assert forall|d: Cell| #[trigger] n.has(d) implies {
        &&& d.ok()
        &&& n.cells[d].data.len() + 1 <= 0x1000_0000
        &&& all_canonical(n.cells[d].held())
        &&& n.rank.dom().contains(d)
        &&& n.rank[d] < n.clock
        &&& 1 <= n.counts[d] <= u32::MAX
    } by {
        assert(r.has(d));
    }
    assert forall|d: Cell| #[trigger] r.has(d) && n.has(d) implies n.cells[d] == r.cells[d] by {}
}

/// A count lowered by one.
pub open spec fn lowered(r: Record, c: Cell) -> Record {
    Record { counts: r.counts.insert(c, (r.counts[c] - 1) as nat), ..r }
}

/// A pending reference given up that was not the last.
pub proof fn lemma_lowered(r: Record, c: Cell, pending: Multiset<Cell>)
    requires
        r.shaped(),
        r.counted(pending),
        r.has(c),
        pending.count(c) > 0,
        r.counts[c] > 1,
    ensures
        lowered(r, c).shaped(),
        lowered(r, c).counted(pending.remove(c)),
{
    let n = lowered(r, c);
    assert(n.counts.dom() =~= n.cells.dom());
    assert forall|d: Cell| #[trigger] n.has(d) <==> n.order.contains(d) by {
        assert(r.has(d) <==> r.order.contains(d));
    }
    assert forall|d: Cell, e: Cell|
        #![trigger n.has(d), n.has(e)]
        n.has(d) && n.cells[d].refs().contains(e) implies n.has(e) && n.rank[e] < n.rank[d] by {
        assert(r.has(d));
        lemma_ref_live(r, d, e);
    }
    assert forall|d: Cell| #[trigger] n.has(d) implies n.counts[d] == n.references(d)
        + pending.remove(c).count(d) by {
        assert(r.has(d));
        assert(r.counts[d] == r.references(d) + pending.count(d));
    }
    assert forall|d: Cell| n.ext.count(d) + pending.remove(c).count(d) > 0 implies #[trigger] n.has(
        d,
    ) by {
        assert(r.ext.count(d) + pending.count(d) > 0);
        assert(r.has(d));
    }
    assert forall|d: Cell| #[trigger] n.has(d) implies {
        &&& d.ok()
        &&& n.cells[d].data.len() + 1 <= 0x1000_0000
        &&& all_canonical(n.cells[d].held())
        &&& n.rank.dom().contains(d)
        &&& n.rank[d] < n.clock
        &&& 1 <= n.counts[d] <= u32::MAX
    } by {
        assert(r.has(d));
    }
}

/// A cell gone.
pub open spec fn without(r: Record, c: Cell) -> Record {
    Record {
        cells: r.cells.remove(c),
        counts: r.counts.remove(c),
        order: r.order.remove(r.order.index_of(c)),
        ..r
    }
}

/// The last reference given up: the cell goes, and the references it held are
/// pending.
pub proof fn lemma_without(r: Record, c: Cell, pending: Multiset<Cell>)
    requires
        r.shaped(),
        r.counted(pending),
        r.has(c),
        pending.count(c) > 0,
        r.counts[c] == 1,
    ensures
        without(r, c).shaped(),
        without(r, c).counted(pending.remove(c).add(r.cells[c].refs().to_multiset())),
        without(r, c).order.len() + 1 == r.order.len(),
{
    let n = without(r, c);
    let refs = r.cells[c].refs();
    let next = pending.remove(c).add(refs.to_multiset());
    refs.to_multiset_ensures();
    assert(r.order.contains(c));
    let j = r.order.index_of(c);
    assert(r.order[j] == c);
    assert(r.counts[c] == r.references(c) + pending.count(c));
    assert(n.counts.dom() =~= n.cells.dom());
    lemma_total_remove(r.order, r.cells, j);
    assert forall|d: Cell| #[trigger] n.has(d) <==> n.order.contains(d) by {
        assert(r.has(d) <==> r.order.contains(d));
        if n.has(d) {
            let i = choose|i: int| 0 <= i < r.order.len() && r.order[i] == d;
            if i < j {
                assert(n.order[i] == d);
            } else {
                assert(i != j);
                assert(n.order[i - 1] == d);
            }
        }
        if n.order.contains(d) {
            let i = choose|i: int| 0 <= i < n.order.len() && n.order[i] == d;
            if i < j {
                assert(r.order[i] == d);
            } else {
                assert(r.order[i + 1] == d);
            }
        }
    }
    assert(n.order.no_duplicates()) by {
        assert forall|p: int, q: int| 0 <= p < n.order.len() && 0 <= q < n.order.len() && p != q
            implies n.order[p] != n.order[q] by {
            let p2 = if p < j {
                p
            } else {
                p + 1
            };
            let q2 = if q < j {
                q
            } else {
                q + 1
            };
            assert(r.order[p2] != r.order[q2]);
        }
    }
    assert forall|i: int| 0 <= i < n.order.len() implies r.cells[#[trigger] n.order[i]]
        == n.cells[n.order[i]] by {
        assert(n.order.contains(n.order[i]));
        assert(n.has(n.order[i]));
    }
    lemma_total_same(n.order, r.cells, n.cells);
    assert forall|d: Cell, e: Cell|
        #![trigger n.has(d), n.has(e)]
        n.has(d) && n.cells[d].refs().contains(e) implies n.has(e) && n.rank[e] < n.rank[d] by {
        assert(r.has(d));
        lemma_ref_live(r, d, e);
        if e == c {
            let i = choose|i: int| 0 <= i < n.order.len() && n.order[i] == d;
            lemma_total_counts(n.order, n.cells, i, c);
        }
    }
    assert forall|d: Cell| #[trigger] n.has(d) implies n.counts[d] == n.references(d)
        + next.count(d) by {
        assert(r.has(d));
        assert(r.counts[d] == r.references(d) + pending.count(d));
    }
    assert forall|d: Cell| n.ext.count(d) + next.count(d) > 0 implies #[trigger] n.has(d) by {
        if d == c {
            if refs.to_multiset().count(c) > 0 {
                assert(refs.contains(c));
                lemma_ref_live(r, c, c);
            }
        } else {
            if refs.to_multiset().count(d) > 0 {
                assert(refs.contains(d));
                lemma_ref_live(r, c, d);
            } else {
                assert(r.ext.count(d) + pending.count(d) > 0);
                assert(r.has(d));
            }
        }
    }
    assert forall|d: Cell| #[trigger] n.has(d) implies {
        &&& d.ok()
        &&& n.cells[d].data.len() + 1 <= 0x1000_0000
        &&& all_canonical(n.cells[d].held())
        &&& n.rank.dom().contains(d)
        &&& n.rank[d] < n.clock
        &&& 1 <= n.counts[d] <= u32::MAX
    } by {
        assert(r.has(d));
    }
}

/// A reference from a listed cell counts.
pub proof fn lemma_total_counts(order: Seq<Cell>, cells: Map<Cell, Body>, i: int, c: Cell)
    requires
        0 <= i < order.len(),
        cells[order[i]].refs().contains(c),
    ensures
        total(order, cells).count(c) > 0,
    decreases order.len(),
{
    let refs = cells[order[i]].refs();
    refs.to_multiset_ensures();
    assert(refs.to_multiset().count(c) > 0);
    if i < order.len() - 1 {
        assert(order.drop_last()[i] == order[i]);
        lemma_total_counts(order.drop_last(), cells, i, c);
    }
}

/// With no reference from outside, the heap is empty: nothing is kept for good
/// by mistake.
pub proof fn law_nothing_leaks(r: Record)
    requires
        r.ok(),
        forall|c: Cell| #[trigger] r.ext.count(c) == 0,
    ensures
        forall|c: Cell| !#[trigger] r.has(c),
        r.order.len() == 0,
{
    if r.order.len() > 0 {
        let top = lemma_highest(r, r.order.len() as int);
        assert(r.order.contains(top));
        assert(r.has(top));
        assert(r.counts[top] == r.references(top));
        lemma_not_referred(r, top, r.order.len() as int);
        assert(r.order.take(r.order.len() as int) =~= r.order);
    }
    assert forall|c: Cell| !#[trigger] r.has(c) by {
        if r.has(c) {
            assert(r.order.contains(c));
        }
    }
}

/// A cell that came after the others listed.
proof fn lemma_highest(r: Record, n: int) -> (top: Cell)
    requires
        r.shaped(),
        1 <= n <= r.order.len(),
    ensures
        r.order.contains(top),
        forall|i: int| 0 <= i < n ==> r.rank[#[trigger] r.order[i]] <= r.rank[top],
    decreases n,
{
    assert(r.order.contains(r.order[n - 1]));
    if n == 1 {
        r.order[0]
    } else {
        let t = lemma_highest(r, n - 1);
        if r.rank[r.order[n - 1]] > r.rank[t] {
            r.order[n - 1]
        } else {
            t
        }
    }
}

proof fn lemma_not_referred(r: Record, top: Cell, n: int)
    requires
        r.shaped(),
        0 <= n <= r.order.len(),
        forall|i: int| 0 <= i < r.order.len() ==> r.rank[#[trigger] r.order[i]] <= r.rank[top],
    ensures
        total(r.order.take(n), r.cells).count(top) == 0,
    decreases n,
{
    if n > 0 {
        lemma_not_referred(r, top, n - 1);
        assert(r.order.take(n).drop_last() =~= r.order.take(n - 1));
        let d = r.order[n - 1];
        assert(r.order.take(n).last() == d);
        assert(r.order.contains(d));
        assert(r.has(d));
        let refs = r.cells[d].refs();
        refs.to_multiset_ensures();
        if refs.to_multiset().count(top) > 0 {
            assert(refs.contains(top));
            lemma_ref_live(r, d, top);
        }
    }
}

/// A cell that only the caller refers to written over: the references it held
/// pass to the caller, and those its new words hold pass to it.
pub open spec fn rewritten(r: Record, c: Cell, b: Body) -> Record {
    Record {
        cells: r.cells.insert(c, b),
        ext: r.ext.sub(b.refs().to_multiset()).add(r.cells[c].refs().to_multiset()),
        rank: r.rank.insert(c, r.clock),
        clock: r.clock + 1,
        ..r
    }
}

#[verifier::spinoff_prover]
pub proof fn lemma_rewritten(r: Record, c: Cell, b: Body)
    requires
        r.ok(),
        r.has(c),
        r.counts[c] == 1,
        r.ext.count(c) > 0,
        b.data.len() == r.cells[c].data.len(),
        all_canonical(b.held()),
        b.refs().to_multiset().subset_of(r.ext.remove(c)),
    ensures
        rewritten(r, c, b).ok(),
        rewritten(r, c, b).ext.count(c) == 1,
{
    let n = rewritten(r, c, b);
    let old_refs = r.cells[c].refs();
    old_refs.to_multiset_ensures();
    b.refs().to_multiset_ensures();
    assert(r.counts[c] == r.references(c));
    assert(r.order.contains(c));
    let j = r.order.index_of(c);
    assert(r.order[j] == c);
    let rest = r.order.remove(j);
    lemma_total_remove(r.order, r.cells, j);
    lemma_total_remove(r.order, n.cells, j);
    assert forall|i: int| 0 <= i < rest.len() implies r.cells[#[trigger] rest[i]]
        == n.cells[rest[i]] by {
        let k = if i < j {
            i
        } else {
            i + 1
        };
        assert(rest[i] == r.order[k]);
        assert(r.order[k] != r.order[j]);
    }
    lemma_total_same(rest, r.cells, n.cells);
    assert(n.cells[c] == b);
    assert(n.counts.dom() =~= n.cells.dom());
    assert(!b.refs().contains(c)) by {
        if b.refs().contains(c) {
            assert(b.refs().to_multiset().count(c) > 0);
            assert(r.ext.remove(c).count(c) > 0);
        }
    }
    assert(b.refs().to_multiset().count(c) == 0);
    assert(!old_refs.contains(c)) by {
        if old_refs.contains(c) {
            lemma_ref_live(r, c, c);
        }
    }
    assert(old_refs.to_multiset().count(c) == 0);
    assert forall|d: Cell| #[trigger] n.has(d) <==> n.order.contains(d) by {
        assert(r.has(d) <==> r.order.contains(d));
    }
    assert forall|d: Cell, e: Cell|
        #![trigger n.has(d), n.has(e)]
        n.has(d) && n.cells[d].refs().contains(e) implies n.has(e) && n.rank[e] < n.rank[d] by {
        if d == c {
            assert(b.refs().to_multiset().count(e) > 0);
            assert(r.ext.remove(c).count(e) > 0);
            assert(r.ext.count(e) > 0);
            assert(r.has(e));
            assert(e != c);
        } else {
            assert(r.has(d));
            lemma_ref_live(r, d, e);
            if e == c {
                let i = choose|i: int| 0 <= i < r.order.len() && r.order[i] == d;
                lemma_total_counts(r.order, r.cells, i, c);
            }
        }
    }
    assert forall|d: Cell| #[trigger] n.has(d) implies n.counts[d] == n.references(d) by {
        assert(r.has(d));
        assert(r.counts[d] == r.references(d));
        assert(b.refs().to_multiset().count(d) <= r.ext.remove(c).count(d));
    }
    assert forall|d: Cell| n.ext.count(d) > 0 implies #[trigger] n.has(d) by {
        if r.ext.count(d) > 0 {
            assert(r.has(d));
        } else {
            assert(old_refs.to_multiset().count(d) > 0);
            assert(old_refs.contains(d));
            lemma_ref_live(r, c, d);
        }
    }
    assert forall|d: Cell| #[trigger] n.has(d) implies {
        &&& d.ok()
        &&& n.cells[d].data.len() + 1 <= 0x1000_0000
        &&& all_canonical(n.cells[d].held())
        &&& n.rank.dom().contains(d)
        &&& n.rank[d] < n.clock
        &&& 1 <= n.counts[d] <= u32::MAX
    } by {
        assert(r.has(d));
    }
    let none = Multiset::<Cell>::empty();
    assert(n.shaped());
    assert forall|d: Cell| #[trigger] n.has(d) implies n.counts[d] == n.references(d)
        + none.count(d) by {
        assert(none.count(d) == 0);
    }
    assert forall|d: Cell| n.ext.count(d) + none.count(d) > 0 implies #[trigger] n.has(d) by {
        assert(none.count(d) == 0);
    }
    assert(n.counted(none));
}

} // verus!
