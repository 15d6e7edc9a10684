//! What every cell of a heap is, by its kind: what the operations on values
//! keep, and rely on.

use crate::vm::binary::{bit_place, word_bit};
use crate::vm::cells::is_text;
use crate::vm::nodes::{elems, lemma_keep_live, live};
use crate::vm::record::{Body, keeps, Kind, lemma_cells_at, lemma_ref_live, part_of, Record};
use crate::vm::tree::{lemma_tree_keep, tree, tree_elems};
use crate::vm::value::{Cell, SMALL_MAX, SMALL_MIN, Value};
use vstd::prelude::*;

verus! {

/// An array's root, read out of its cell.
pub struct Root {
    pub len: usize,
    pub shift: usize,
    /// Items at the front of `head` that this array has left behind.
    pub offset: usize,
    pub head: Value,
    pub tree: Value,
    pub tail: Value,
}

pub open spec fn root_of(b: Body) -> Root {
    Root {
        len: b.data[0] as usize,
        shift: b.data[1] as usize,
        offset: b.data[2] as usize,
        head: Value { bits: b.data[3] },
        tree: Value { bits: b.data[4] },
        tail: Value { bits: b.data[5] },
    }
}

/// A leaf at one end of an array, or none.
pub open spec fn buffer(r: Record, v: Value) -> bool {
    tree(r, v, 0)
}

/// The elements a root holds: what is left of its head, its tree and its tail.
pub open spec fn root_items(r: Record, t: Root) -> Seq<Value> {
    elems(r, t.head, 0).skip(t.offset as int) + tree_elems(r, t.tree, t.shift) + elems(r, t.tail, 0)
}

pub open spec fn root_ok(r: Record, t: Root) -> bool {
    &&& buffer(r, t.head)
    &&& tree(r, t.tree, t.shift)
    &&& buffer(r, t.tail)
    &&& t.offset == 0 || t.offset < elems(r, t.head, 0).len()
    &&& t.len == root_items(r, t).len()
}

/// A cell that is an array's root.
pub open spec fn array(r: Record, c: Cell) -> bool {
    let b = r.cells[c];
    &&& r.has(c)
    &&& b.kind is ArrayRoot
    &&& b.data.len() == 6
    &&& b.data[0] <= usize::MAX
    &&& b.data[1] <= usize::MAX
    &&& b.data[2] <= usize::MAX
    &&& root_ok(r, root_of(b))
}

/// An array's elements, front to back.
pub open spec fn items(r: Record, c: Cell) -> Seq<Value> {
    root_items(r, root_of(r.cells[c]))
}

/// A number from its digits of 64 bits, the least first.
pub open spec fn digits_value(ds: Seq<u64>) -> nat
    decreases ds.len(),
{
    if ds.len() == 0 {
        0
    } else {
        ds[0] as nat + 0x1_0000_0000_0000_0000 * digits_value(ds.skip(1))
    }
}

/// A number from its sign and its digits.
pub open spec fn signed_value(negative: bool, ds: Seq<u64>) -> int {
    if negative {
        -(digits_value(ds) as int)
    } else {
        digits_value(ds) as int
    }
}

/// The Int that a cell of digits is.
pub open spec fn big_value(b: Body) -> int {
    signed_value(b.data[0] >= 0x8000_0000_0000_0000, b.data.skip(1))
}

/// A cell of an Int that no word holds: its sign and how many digits there
/// are, then the digits, the last not zero.
pub open spec fn is_big(b: Body) -> bool {
    &&& b.kind is BigInt
    &&& b.data.len() >= 2
    &&& b.data[0] % 0x8000_0000_0000_0000 == b.data.len() - 1
    &&& b.data.last() != 0
    &&& big_value(b) < SMALL_MIN || big_value(b) > SMALL_MAX
}

/// A range's ends.
pub open spec fn range_start(b: Body) -> i64 {
    signed_word(b.data[0])
}

pub open spec fn range_end(b: Body) -> i64 {
    signed_word(b.data[1])
}

pub open spec fn signed_word(w: u64) -> i64 {
    if w < 0x8000_0000_0000_0000 {
        w as i64
    } else {
        (w - 0x1_0000_0000_0000_0000) as i64
    }
}

/// A cell that owns bits: how many there are, then its bytes, eight to a word.
/// The bits past the last in its word are zero.
pub open spec fn is_owner(b: Body) -> bool {
    &&& b.kind is Binary
    &&& b.data.len() >= 1
    &&& b.data.len() == 1 + (b.data[0] + 63) / 64
    &&& forall|i: int|
        b.data[0] <= i < 64 * (b.data.len() - 1) ==> !#[trigger] word_bit(
            b.data[1 + i / 64],
            bit_place(i),
        )
}

/// A cell that shows some of an owner's bits.
pub open spec fn is_slice(r: Record, b: Body) -> bool {
    &&& b.kind is BinarySlice
    &&& b.data.len() == 3
    &&& (Value { bits: b.data[0] }).spec_cell() matches Some(c) && r.has(c) && is_owner(r.cells[c])
        && b.data[1] + b.data[2] <= r.cells[c].data[0]
}

/// What a cell must be, by its kind.
pub open spec fn valid(r: Record, c: Cell) -> bool {
    let b = r.cells[c];
    match b.kind {
        Kind::String => is_text(b),
        Kind::BigInt => is_big(b),
        Kind::Ctor => b.data.len() >= 1,
        Kind::Closure => b.data.len() >= 1,
        Kind::ArrayRoot => array(r, c),
        Kind::Range => b.data.len() == 2,
        Kind::Binary => is_owner(b),
        Kind::BinarySlice => is_slice(r, b),
        _ => true,
    }
}

pub open spec fn sound(r: Record) -> bool {
    forall|c: Cell| #[trigger] r.has(c) ==> valid(r, c)
}

/// An array stays what it is where its cells stay.
pub proof fn lemma_array_keep(a: Record, b: Record, c: Cell)
    requires
        part_of(a, b),
        array(a, c),
    ensures
        array(b, c),
        items(b, c) == items(a, c),
        b.cells[c] == a.cells[c],
{
    assert(a.has(c));
    let t = root_of(a.cells[c]);
    lemma_root_keep(a, b, t);
}

pub proof fn lemma_root_keep(a: Record, b: Record, t: Root)
    requires
        part_of(a, b),
        root_ok(a, t),
    ensures
        root_ok(b, t),
        root_items(b, t) == root_items(a, t),
{
    lemma_tree_keep(a, b, t.head, 0);
    lemma_tree_keep(a, b, t.tree, t.shift);
    lemma_tree_keep(a, b, t.tail, 0);
    assert(tree_elems(a, t.head, 0) == elems(a, t.head, 0));
    assert(tree_elems(b, t.head, 0) == elems(b, t.head, 0));
    assert(tree_elems(a, t.tail, 0) == elems(a, t.tail, 0));
    assert(tree_elems(b, t.tail, 0) == elems(b, t.tail, 0));
}

/// New cells that are what they must be keep a heap sound.
pub proof fn lemma_sound_part(a: Record, b: Record)
    requires
        sound(a),
        part_of(a, b),
        forall|c: Cell| #[trigger] b.has(c) && !a.has(c) ==> valid(b, c),
    ensures
        sound(b),
{
    assert forall|c: Cell| #[trigger] b.has(c) implies valid(b, c) by {
        if a.has(c) {
            assert(valid(a, c));
            if a.cells[c].kind is ArrayRoot {
                lemma_array_keep(a, b, c);
            }
            if a.cells[c].kind is BinarySlice {
                let d = (Value { bits: a.cells[c].data[0] }).spec_cell()->Some_0;
                assert(a.has(d));
            }
        }
    }
}

/// An array's parts are referred to by its root.
pub proof fn lemma_root_refs(r: Record, c: Cell)
    requires
        r.shaped(),
        r.has(c),
        r.cells[c].kind is ArrayRoot,
        r.cells[c].data.len() == 6,
    ensures
        live(r, root_of(r.cells[c]).head),
        live(r, root_of(r.cells[c]).tree),
        live(r, root_of(r.cells[c]).tail),
{
    let b = r.cells[c];
    let t = root_of(b);
    assert(b.held() =~= seq![b.data[3], b.data[4], b.data[5]]);
    if t.head.spec_cell() is Some {
        lemma_cells_at(b.held(), 0);
        lemma_ref_live(r, c, t.head.spec_cell()->Some_0);
    }
    if t.tree.spec_cell() is Some {
        lemma_cells_at(b.held(), 1);
        lemma_ref_live(r, c, t.tree.spec_cell()->Some_0);
    }
    if t.tail.spec_cell() is Some {
        lemma_cells_at(b.held(), 2);
        lemma_ref_live(r, c, t.tail.spec_cell()->Some_0);
    }
}

pub proof fn lemma_tree_keep_live(a: Record, b: Record, v: Value, shift: usize)
    requires
        b.shaped(),
        keeps(a, b),
        tree(a, v, shift),
        live(b, v),
    ensures
        tree(b, v, shift),
        tree_elems(b, v, shift) == tree_elems(a, v, shift),
{
    if v.spec_cell() is Some {
        lemma_keep_live(a, b, v, (shift / 5) as nat);
    } else {
        assert(tree_elems(b, v, shift) =~= tree_elems(a, v, shift));
    }
}

/// An array that is still there is what it was.
pub proof fn lemma_array_keep_live(a: Record, b: Record, c: Cell)
    requires
        b.shaped(),
        keeps(a, b),
        array(a, c),
        b.has(c),
    ensures
        array(b, c),
        items(b, c) == items(a, c),
{
    assert(a.has(c));
    lemma_root_refs(b, c);
    let t = root_of(a.cells[c]);
    lemma_tree_keep_live(a, b, t.head, 0);
    lemma_tree_keep_live(a, b, t.tree, t.shift);
    lemma_tree_keep_live(a, b, t.tail, 0);
    assert(tree_elems(a, t.head, 0) == elems(a, t.head, 0));
    assert(tree_elems(b, t.head, 0) == elems(b, t.head, 0));
    assert(tree_elems(a, t.tail, 0) == elems(a, t.tail, 0));
    assert(tree_elems(b, t.tail, 0) == elems(b, t.tail, 0));
}

/// Freed cells leave a heap sound.
pub proof fn lemma_sound_release(a: Record, b: Record)
    requires
        sound(a),
        b.shaped(),
        part_of(b, a),
        keeps(a, b),
    ensures
        sound(b),
{
    assert forall|c: Cell| #[trigger] b.has(c) implies valid(b, c) by {
        assert(a.has(c));
        assert(valid(a, c));
        let body = a.cells[c];
        assert(b.cells[c] == body);
        if body.kind is ArrayRoot {
            lemma_array_keep_live(a, b, c);
        }
        if body.kind is BinarySlice {
            let d = (Value { bits: body.data[0] }).spec_cell()->Some_0;
            assert(body.held() =~= seq![body.data[0]]);
            lemma_cells_at(body.held(), 0);
            lemma_ref_live(b, c, d);
            assert(b.has(d));
            assert(a.has(d));
        }
    }
}

} // verus!
