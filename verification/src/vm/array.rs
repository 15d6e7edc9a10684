//! Arrays: a tree of elements between two buffers, one at either end, or a
//! range of Ints that stores only its two ends.
//!
//! The two buffer leaves make a push at either end cheap: only a full buffer
//! goes into the tree. Nothing is changed in place: an operation builds new
//! nodes along the one path that it touches, and shares every other node.

use crate::vm::cells::{all_ok, handles};
use crate::vm::heap::{Full, Heap};
use crate::vm::join::{lemma_owned_live, lemma_still_live_after, merge};
use crate::vm::nodes::{
    all_live, branch, elems, elems_all, give_up, handle, leaf, lemma_elems_add, lemma_elems_live,
    lemma_elems_one, lemma_handle_one, lemma_handles_add, lemma_items_live, lemma_keep,
    lemma_keep_all, lemma_no_handles, lemma_node, lemma_prefix_len, lemma_still_live, live, node,
    node_len, node_slots, nodes, own, own_all, size_slot,
};
use crate::vm::record::{Body, keeps, Kind, part_of, Record};
use crate::vm::sound::{
    array, buffer, items, lemma_array_keep, lemma_root_keep, lemma_root_refs, lemma_sound_part,
    lemma_tree_keep_live, range_end, range_start, Root, root_items, root_of, root_ok, signed_word,
    sound,
};
use crate::vm::tree::{
    beside, collapse, End, first_leaf, joined, leaf_with, lemma_part_live, lemma_tree_keep, part, tree,
    tree_drop, tree_elems, tree_push_leaf, tree_take,
};
use crate::vm::value::{Cell, Value};
use vstd::prelude::*;

verus! {

/// An array as the machine holds it.
#[derive(Clone, Copy, PartialEq, Eq, Structural, Debug)]
pub enum Items {
    Tree(Cell),
    Range { start: i64, end: i64 },
}

/// How many Ints `start..end` holds.
pub open spec fn range_count(start: int, end: int) -> int {
    if end > start {
        end - start
    } else {
        0
    }
}

/// How many Ints `start..end` holds: none when `end` is not past `start`.
pub fn range_len(start: i64, end: i64) -> (r: u64)
    ensures
        r == range_count(start as int, end as int),
{
    if end > start {
        (end as i128 - start as i128) as u64
    } else {
        0
    }
}

/// A word that holds a signed number.
pub open spec fn unsigned_word(n: i64) -> u64 {
    if n >= 0 {
        n as u64
    } else {
        (n + 0x1_0000_0000_0000_0000) as u64
    }
}

pub(crate) fn to_word(n: i64) -> (r: u64)
    ensures
        r == unsigned_word(n),
        signed_word(r) == n,
{
    if n >= 0 {
        n as u64
    } else {
        (n as i128 + 0x1_0000_0000_0000_0000) as u64
    }
}

pub(crate) fn from_word(w: u64) -> (r: i64)
    ensures
        r == signed_word(w),
{
    if w < 0x8000_0000_0000_0000 {
        w as i64
    } else {
        (w as i128 - 0x1_0000_0000_0000_0000) as i64
    }
}

/// A new range cell, `start..end`.
pub fn range(heap: &mut Heap, start: i64, end: i64) -> (r: Result<Cell, Full>)
    requires
        old(heap).wf(),
    ensures
        r is Err ==> final(heap).full(),
        final(heap).wf(),
        sound(old(heap).record()) ==> sound(final(heap).record()),
        part_of(old(heap).record(), final(heap).record()),
        match r {
            Ok(c) => {
                let b = final(heap).record().cells[c];
                &&& !old(heap).record().has(c)
                &&& c.ok()
                &&& final(heap).record().has(c)
                &&& b.kind is Range
                &&& b.data.len() == 2
                &&& range_start(b) == start
                &&& range_end(b) == end
                &&& final(heap).record().ext == old(heap).record().ext.insert(c)
            },
            Err(_) => final(heap).record() == old(heap).record(),
        },
{
    let ghost first = heap.record();
    let data: Vec<u64> = vec![to_word(start), to_word(end)];
    let ghost b = Body { kind: Kind::Range, data: data@ };
    proof {
        assert(b.held() =~= Seq::empty());
        crate::vm::cells::lemma_no_refs_needed(b, first.ext);
    }
    let c = heap.make(Kind::Range, data.as_slice())?;
    proof {
        let now = heap.record();
        assert(now.ext =~= first.ext.insert(c));
        if sound(first) {
            lemma_sound_part(first, now);
        }
    }
    Ok(c)
}

/// What kind of array a cell is.
pub open spec fn seq_of(r: Record, c: Cell) -> Option<Items> {
    let b = r.cells[c];
    match b.kind {
        Kind::ArrayRoot => Some(Items::Tree(c)),
        Kind::Range => Some(Items::Range { start: range_start(b), end: range_end(b) }),
        _ => None,
    }
}

/// The array a cell holds, or `None` when it holds something else.
pub fn seq(heap: &Heap, cell: Cell) -> (r: Option<Items>)
    requires
        heap.wf(),
        heap.record().has(cell),
        heap.record().cells[cell].kind is Range ==> heap.record().cells[cell].data.len() == 2,
    ensures
        r == seq_of(heap.record(), cell),
{
    match heap.kind(cell) {
        Kind::ArrayRoot => Some(Items::Tree(cell)),
        Kind::Range => Some(
            Items::Range { start: from_word(heap.get(cell, 0)), end: from_word(heap.get(cell, 1)) },
        ),
        _ => None,
    }
}

impl Items {
    /// How many elements there are.
    pub open spec fn count(self, r: Record) -> int {
        match self {
            Items::Tree(c) => items(r, c).len() as int,
            Items::Range { start, end } => range_count(start as int, end as int),
        }
    }

    /// A tree that is one.
    pub open spec fn is(self, r: Record) -> bool {
        match self {
            Items::Tree(c) => array(r, c),
            Items::Range { .. } => true,
        }
    }

    pub fn len(self, heap: &Heap) -> (r: u64)
        requires
            heap.wf(),
            self.is(heap.record()),
        ensures
            r == self.count(heap.record()),
    {
        match self {
            Items::Tree(c) => len(heap, c) as u64,
            Items::Range { start, end } => range_len(start, end),
        }
    }
}

fn root(heap: &Heap, cell: Cell) -> (r: Root)
    requires
        heap.wf(),
        array(heap.record(), cell),
    ensures
        r == root_of(heap.record().cells[cell]),
        root_ok(heap.record(), r),
        root_items(heap.record(), r) == items(heap.record(), cell),
        live(heap.record(), r.head),
        live(heap.record(), r.tree),
        live(heap.record(), r.tail),
{
    proof {
        heap.lemma_record_ok();
        lemma_root_refs(heap.record(), cell);
    }
    Root {
        len: heap.get(cell, 0) as usize,
        shift: heap.get(cell, 1) as usize,
        offset: heap.get(cell, 2) as usize,
        head: Value::from_bits(heap.get(cell, 3)),
        tree: Value::from_bits(heap.get(cell, 4)),
        tail: Value::from_bits(heap.get(cell, 5)),
    }
}

/// How many elements an array has.
pub fn len(heap: &Heap, cell: Cell) -> (r: usize)
    requires
        heap.wf(),
        array(heap.record(), cell),
    ensures
        r == items(heap.record(), cell).len(),
{
    root(heap, cell).len
}

/// A new root over parts whose references pass to it.
fn root_at(heap: &mut Heap, t: Root) -> (r: Result<Cell, Full>)
    requires
        old(heap).wf(),
        root_ok(old(heap).record(), t),
        handle(t.head).add(handle(t.tree)).add(handle(t.tail)).subset_of(
            old(heap).record().ext,
        ),
    ensures
        r is Err ==> final(heap).full(),
        final(heap).wf(),
        sound(old(heap).record()) ==> sound(final(heap).record()),
        part_of(old(heap).record(), final(heap).record()),
        r matches Ok(c) ==> {
            &&& array(final(heap).record(), c)
            &&& items(final(heap).record(), c) == root_items(old(heap).record(), t)
            &&& final(heap).record().ext == old(heap).record().ext.sub(
                handle(t.head).add(handle(t.tree)).add(handle(t.tail)),
            ).insert(c)
        },
{
    let ghost first = heap.record();
    let data: Vec<u64> = vec![
        t.len as u64,
        t.shift as u64,
        t.offset as u64,
        t.head.bits(),
        t.tree.bits(),
        t.tail.bits(),
    ];
    let ghost b = Body { kind: Kind::ArrayRoot, data: data@ };
    proof {
        let vs = seq![t.head] + seq![t.tree] + seq![t.tail];
        assert(b.held() =~= crate::vm::cells::value_words(vs));
        lemma_handles_add(seq![t.head] + seq![t.tree], seq![t.tail]);
        lemma_handles_add(seq![t.head], seq![t.tree]);
        lemma_handle_one(t.head);
        lemma_handle_one(t.tree);
        lemma_handle_one(t.tail);
        assert(b.refs().to_multiset() == handles(vs));
        assert(crate::vm::record::all_canonical(b.held()));
    }
    let c = heap.make(Kind::ArrayRoot, data.as_slice())?;
    proof {
        let now = heap.record();
        assert(now.cells[c] == b);
        assert forall|d: Cell| #[trigger] first.has(d) implies now.has(d) && first.cells[d]
            == now.cells[d] by {}
        lemma_root_keep(first, now, t);
        assert(root_of(b) == t);
        assert(now.ext =~= first.ext.sub(
            handle(t.head).add(handle(t.tree)).add(handle(t.tail)),
        ).insert(c));
        if sound(first) {
            lemma_sound_part(first, now);
        }
    }
    Ok(c)
}

/// A new root over parts that are borrowed.
fn root_over(heap: &mut Heap, t: Root) -> (r: Result<Cell, Full>)
    requires
        old(heap).wf(),
        root_ok(old(heap).record(), t),
        live(old(heap).record(), t.head),
        live(old(heap).record(), t.tree),
        live(old(heap).record(), t.tail),
    ensures
        r is Err ==> final(heap).full(),
        final(heap).wf(),
        sound(old(heap).record()) ==> sound(final(heap).record()),
        part_of(old(heap).record(), final(heap).record()),
        r matches Ok(c) ==> gained(old(heap).record(), final(heap).record(), c, root_items(
            old(heap).record(),
            t,
        )),
{
    let ghost first = heap.record();
    own(heap, t.head)?;
    own(heap, t.tree)?;
    own(heap, t.tail)?;
    proof {
        lemma_root_keep(first, heap.record(), t);
    }
    let c = root_at(heap, t)?;
    proof {
        assert(heap.record().ext =~= first.ext.insert(c));
    }
    Ok(c)
}

/// A new array, with a reference to it.
pub open spec fn gained(a: Record, b: Record, c: Cell, vs: Seq<Value>) -> bool {
    &&& array(b, c)
    &&& items(b, c) == vs
    &&& b.ext == a.ext.insert(c)
}

/// The elements of a buffer or of nothing.
fn buffer_items(heap: &Heap, v: Value) -> (r: Vec<Value>)
    requires
        heap.wf(),
        buffer(heap.record(), v),
    ensures
        r@ == elems(heap.record(), v, 0),
        all_ok(r@),
        all_live(heap.record(), r@),
        r@.len() <= 32,
        r@.len() == 0 <==> v.spec_cell() is None,
{
    let ghost rec = heap.record();
    if v.as_cell().is_none() {
        return Vec::new();
    }
    proof {
        heap.lemma_record_ok();
        lemma_node(rec, v, 0);
        lemma_items_live(rec, v);
    }
    node_slots(heap, v, Ghost(0nat))
}

/// The head's elements that are left.
fn head_items(heap: &Heap, t: &Root) -> (r: Vec<Value>)
    requires
        heap.wf(),
        root_ok(heap.record(), *t),
    ensures
        r@ == elems(heap.record(), t.head, 0).skip(t.offset as int),
        all_ok(r@),
        all_live(heap.record(), r@),
        r@.len() <= 32,
        r@.len() == 0 <==> t.head.spec_cell() is None,
{
    let all = buffer_items(heap, t.head);
    let n: usize = all.len();
    proof {
        lemma_part_live(heap.record(), all@, t.offset as int, n as int);
        assert(all@.subrange(t.offset as int, n as int) =~= all@.skip(t.offset as int));
    }
    part(all.as_slice(), t.offset, n)
}

/// A leaf of exactly the head's elements that are left, or `Nil` when there are
/// none. Nothing left behind means the head itself, shared rather than copied.
fn own_head(heap: &mut Heap, t: &Root) -> (r: Result<Value, Full>)
    requires
        old(heap).wf(),
        root_ok(old(heap).record(), *t),
    ensures
        r is Err ==> final(heap).full(),
        final(heap).wf(),
        sound(old(heap).record()) ==> sound(final(heap).record()),
        part_of(old(heap).record(), final(heap).record()),
        r matches Ok(v) ==> {
            &&& buffer(final(heap).record(), v)
            &&& elems(final(heap).record(), v, 0) == elems(old(heap).record(), t.head, 0).skip(
                t.offset as int,
            )
            &&& final(heap).record().ext == old(heap).record().ext.add(handle(v))
        },
{
    let ghost first = heap.record();
    proof {
        lemma_tree_keep(first, first, t.head, 0);
    }
    if t.offset == 0 {
        own(heap, t.head)?;
        proof {
            lemma_tree_keep(first, heap.record(), t.head, 0);
            assert(elems(first, t.head, 0).skip(0) =~= elems(first, t.head, 0));
        }
        return Ok(t.head);
    }
    let kept = head_items(heap, t);
    own_all(heap, kept.as_slice())?;
    let ghost mid = heap.record();
    let v = leaf(heap, kept.as_slice())?;
    proof {
        assert(heap.record().ext =~= first.ext.add(handle(v)));
    }
    Ok(v)
}

fn no_tree(len: usize, tail: Value) -> (t: Root)
    ensures
        t.len == len,
        t.shift == 0,
        t.offset == 0,
        t.head.ok(),
        t.head.spec_view() is Nil,
        t.tree.ok(),
        t.tree.spec_view() is Nil,
        t.tail == tail,
{
    Root { len, shift: 0, offset: 0, head: Value::nil(), tree: Value::nil(), tail }
}

/// The array of no elements.
pub fn empty(heap: &mut Heap) -> (r: Result<Cell, Full>)
    requires
        old(heap).wf(),
    ensures
        r is Err ==> final(heap).full(),
        final(heap).wf(),
        sound(old(heap).record()) ==> sound(final(heap).record()),
        part_of(old(heap).record(), final(heap).record()),
        r matches Ok(c) ==> gained(
            old(heap).record(),
            final(heap).record(),
            c,
            Seq::<Value>::empty(),
        ),
{
    let ghost first = heap.record();
    let t = no_tree(0, Value::nil());
    proof {
        assert(root_items(first, t) =~= Seq::empty());
    }
    root_over(heap, t)
}

/// A root of only a tail.
proof fn lemma_only_tail(r: Record, t: Root)
    requires
        t.offset == 0,
        t.head.spec_cell() is None,
        t.tree.spec_cell() is None,
    ensures
        root_items(r, t) == elems(r, t.tail, 0),
{
    assert(elems(r, t.head, 0) =~= Seq::empty());
    assert(elems(r, t.head, 0).skip(0) =~= Seq::empty());
    assert(root_items(r, t) =~= elems(r, t.tail, 0));
}

/// Element `i`, with no reference added, or `None` past the end.
pub fn get(heap: &Heap, cell: Cell, i: usize) -> (r: Option<Value>)
    requires
        heap.wf(),
        array(heap.record(), cell),
    ensures
        match r {
            Some(v) => i < items(heap.record(), cell).len() && v == items(heap.record(), cell)[i as int]
                && v.ok() && live(heap.record(), v),
            None => i >= items(heap.record(), cell).len(),
        },
{
    let ghost rec = heap.record();
    let t = root(heap, cell);
    if i >= t.len {
        return None;
    }
    let ghost all = items(rec, cell);
    proof {
        heap.lemma_record_ok();
        lemma_array_live(rec, cell);
        assert(all[i as int].ok() && live(rec, all[i as int]));
    }
    let front = head_items(heap, &t);
    if i < front.len() {
        return Some(front[i]);
    }
    let idx: usize = i - front.len();
    let ghost h = (t.shift / 5) as nat;
    let tree_len = node_len(heap, t.tree, Ghost(h));
    if idx >= tree_len {
        let back = buffer_items(heap, t.tail);
        return Some(back[idx - tree_len]);
    }
    Some(tree_get(heap, t.tree, idx, Ghost(h)))
}

fn tree_get(heap: &Heap, n: Value, i: usize, Ghost(h): Ghost<nat>) -> (r: Value)
    requires
        heap.wf(),
        node(heap.record(), n, h),
        i < elems(heap.record(), n, h).len() <= usize::MAX,
    ensures
        r == elems(heap.record(), n, h)[i as int],
    decreases h,
{
    let ghost rec = heap.record();
    proof {
        lemma_node(rec, n, h);
    }
    let kids = node_slots(heap, n, Ghost(h));
    let c = match n.as_cell() {
        Some(c) => c,
        None => vstd::pervasive::unreached(),
    };
    if heap.kind(c) == Kind::ArrayLeaf {
        return kids[i];
    }
    let ghost low = (h - 1) as nat;
    let slot = size_slot(heap, n, i, Ghost(h));
    let ghost k = slot.child as int;
    proof {
        assert(node(rec, kids@[k], low));
        lemma_prefix_len(rec, kids@, k, low);
        lemma_prefix_len(rec, kids@, k + 1, low);
        assert(kids@.take(k + 1).drop_last() =~= kids@.take(k));
        assert(kids@.take(k + 1).last() == kids@[k]);
    }
    tree_get(heap, kids[slot.child], i - slot.before, Ghost(low))
}

/// An array's elements are values of live cells.
pub proof fn lemma_array_live(r: Record, c: Cell)
    requires
        r.shaped(),
        array(r, c),
    ensures
        all_ok(items(r, c)),
        all_live(r, items(r, c)),
{
    let t = root_of(r.cells[c]);
    lemma_tree_live(r, t.head, 0);
    lemma_tree_live(r, t.tree, t.shift);
    lemma_tree_live(r, t.tail, 0);
    let a = elems(r, t.head, 0).skip(t.offset as int);
    let b = tree_elems(r, t.tree, t.shift);
    let d = elems(r, t.tail, 0);
    let all = a + b + d;
    assert(elems(r, t.head, 0) == tree_elems(r, t.head, 0));
    assert(elems(r, t.tail, 0) == tree_elems(r, t.tail, 0));
    assert forall|i: int| 0 <= i < all.len() implies (#[trigger] all[i]).ok() && live(r, all[i]) by {
        if i < a.len() {
            let x = elems(r, t.head, 0)[t.offset + i];
            assert(x.ok() && live(r, x));
        } else if i < a.len() + b.len() {
            let x = b[i - a.len()];
            assert(x.ok() && live(r, x));
        } else {
            let x = d[i - a.len() - b.len()];
            assert(x.ok() && live(r, x));
        }
    }
}

proof fn lemma_tree_live(r: Record, v: Value, shift: usize)
    requires
        r.shaped(),
        tree(r, v, shift),
    ensures
        all_ok(tree_elems(r, v, shift)),
        all_live(r, tree_elems(r, v, shift)),
{
    if v.spec_cell() is Some {
        lemma_elems_live(r, v, (shift / 5) as nat);
    }
}

/// Every element, front to back, with no reference added.
pub fn elements(heap: &Heap, cell: Cell) -> (r: Vec<Value>)
    requires
        heap.wf(),
        array(heap.record(), cell),
    ensures
        r@ == items(heap.record(), cell),
{
    let ghost rec = heap.record();
    let t = root(heap, cell);
    let front = head_items(heap, &t);
    let mut out = front;
    if t.tree.as_cell().is_some() {
        collect(heap, t.tree, &mut out, Ghost((t.shift / 5) as nat));
    }
    let back = buffer_items(heap, t.tail);
    let all = joined(out.as_slice(), back.as_slice());
    proof {
        assert(all@ =~= items(rec, cell));
    }
    all
}

/// A node's elements, put at the end of `out`.
fn collect(heap: &Heap, n: Value, out: &mut Vec<Value>, Ghost(h): Ghost<nat>)
    requires
        heap.wf(),
        node(heap.record(), n, h),
    ensures
        final(out)@ == old(out)@ + elems(heap.record(), n, h),
    decreases h,
{
    let ghost rec = heap.record();
    let ghost before = out@;
    proof {
        lemma_node(rec, n, h);
    }
    let mut kids = node_slots(heap, n, Ghost(h));
    let c = match n.as_cell() {
        Some(c) => c,
        None => vstd::pervasive::unreached(),
    };
    if heap.kind(c) == Kind::ArrayLeaf {
        out.append(&mut kids);
        return;
    }
    let ghost low = (h - 1) as nat;
    let ghost all = kids@;
    let mut i: usize = 0;
    proof {
        assert(all.take(0) =~= Seq::empty());
        assert(elems_all(rec, all.take(0), low) =~= Seq::empty());
        assert(before + Seq::empty() =~= before);
    }
    while i < kids.len()
        invariant
            i <= kids@.len(),
            kids@ == all,
            h > 0,
            low == h - 1,
            heap.wf(),
            rec == heap.record(),
            nodes(rec, all, low),
            out@ == before + elems_all(rec, all.take(i as int), low),
        decreases kids@.len() - i,
    {
        proof {
            assert(node(rec, all[i as int], low));
            assert(all.take(i + 1).drop_last() =~= all.take(i as int));
            assert(all.take(i + 1).last() == all[i as int]);
        }
        collect(heap, kids[i], out, Ghost(low));
        proof {
            assert(out@ =~= before + elems_all(rec, all.take(i + 1), low));
        }
        i += 1;
    }
    proof {
        assert(all.take(i as int) =~= all);
    }
}

/// The buffer `this`, at an end of the borrowed tree `t`, with the owned `x`
/// added, and the tree beside it. A full buffer goes into the tree.
fn grow(heap: &mut Heap, this: Value, t: Value, shift: usize, x: Value, end: End) -> (r: Result<
    (Value, Value, usize),
    Full,
>)
    requires
        old(heap).wf(),
        buffer(old(heap).record(), this),
        tree(old(heap).record(), t, shift),
        tree_elems(old(heap).record(), t, shift).len() + elems(old(heap).record(), this, 0).len()
            < usize::MAX,
        x.ok(),
        handle(x).subset_of(old(heap).record().ext),
    ensures
        r is Err ==> final(heap).full() || shift > usize::MAX - 10,
        final(heap).wf(),
        sound(old(heap).record()) ==> sound(final(heap).record()),
        part_of(old(heap).record(), final(heap).record()),
        r matches Ok((new, grown, s)) ==> {
            &&& buffer(final(heap).record(), new)
            &&& tree(final(heap).record(), grown, s)
            &&& beside(
                end,
                elems(final(heap).record(), new, 0),
                tree_elems(final(heap).record(), grown, s),
            ) == beside(
                end,
                seq![x],
                beside(
                    end,
                    elems(old(heap).record(), this, 0),
                    tree_elems(old(heap).record(), t, shift),
                ),
            )
            &&& final(heap).record().ext == old(heap).record().ext.sub(handle(x)).add(
                handle(new),
            ).add(handle(grown))
        },
{
    let ghost first = heap.record();
    let this_items = buffer_items(heap, this);
    if this_items.len() < 32 {
        let new = leaf_with(heap, x, this_items.as_slice(), end)?;
        let ghost two = heap.record();
        proof {
            lemma_tree_keep(first, two, t, shift);
        }
        own(heap, t)?;
        proof {
            let now = heap.record();
            lemma_tree_keep(two, now, t, shift);
            lemma_keep(two, now, new, 0);
            assert(beside(end, elems(now, new, 0), tree_elems(now, t, shift)) =~= beside(
                end,
                seq![x],
                beside(end, elems(first, this, 0), tree_elems(first, t, shift)),
            ));
            assert(now.ext =~= first.ext.sub(handle(x)).add(handle(new)).add(handle(t)));
        }
        Ok((new, t, shift))
    } else {
        let (grown, s) = tree_push_leaf(heap, t, shift, this, end)?;
        let ghost two = heap.record();
        let none: Vec<Value> = Vec::new();
        proof {
            assert forall|c: Cell| handle(x).count(c) <= two.ext.count(c) by {
                assert(handle(x).count(c) <= first.ext.count(c));
            }
        }
        let new = leaf_with(heap, x, none.as_slice(), end)?;
        proof {
            let now = heap.record();
            lemma_tree_keep(two, now, grown, s);
            assert(beside(end, seq![x], none@) =~= seq![x]);
            assert(now.ext =~= first.ext.sub(handle(x)).add(handle(new)).add(handle(grown)));
        }
        Ok((new, grown, s))
    }
}

/// An array is about as long, or as high, as can be counted.
pub open spec fn strained(r: Record) -> bool {
    exists|c: Cell| #[trigger]
        r.has(c) && r.cells[c].kind is ArrayRoot && (root_of(r.cells[c]).len > usize::MAX / 2 || root_of(
            r.cells[c],
        ).shift > usize::MAX - 10)
}

/// Nothing more can be asked of the heap: it is full, or an array is strained.
pub open spec fn out_of_room(h: Heap) -> bool {
    h.full() || strained(h.record())
}

/// An array with `x` added at `end`; `x`'s reference passes to the result. The
/// buffer at that end takes it, and a full buffer first goes into the tree.
#[verifier::rlimit(40)]
pub fn push(heap: &mut Heap, cell: Cell, x: Value, end: End) -> (r: Result<Cell, Full>)
    requires
        old(heap).wf(),
        array(old(heap).record(), cell),
        x.ok(),
        handle(x).subset_of(old(heap).record().ext),
    ensures
        r is Err ==> out_of_room(*final(heap)),
        final(heap).wf(),
        sound(old(heap).record()) ==> sound(final(heap).record()),
        part_of(old(heap).record(), final(heap).record()),
        r matches Ok(c) ==> {
            &&& array(final(heap).record(), c)
            &&& items(final(heap).record(), c) == beside(
                end,
                seq![x],
                items(old(heap).record(), cell),
            )
            &&& final(heap).record().ext == old(heap).record().ext.sub(handle(x)).insert(c)
        },
{
    let ghost first = heap.record();
    proof {
        heap.lemma_record_ok();
    }
    let t = root(heap, cell);
    if t.len == usize::MAX {
        return Err(Full);
    }
    // A head with items left behind is settled first: the leaf that goes into
    // the tree, or that the new item joins, must hold only what is left.
    let settled = own_head(heap, &t)?;
    let ghost one = heap.record();
    proof {
        lemma_tree_keep(first, one, t.head, 0);
        lemma_tree_keep(first, one, t.tree, t.shift);
        lemma_tree_keep(first, one, t.tail, 0);
    }
    let (this, other) = match end {
        End::Front => (settled, t.tail),
        End::Back => (t.tail, settled),
    };
    let (new, new_tree, shift) = grow(heap, this, t.tree, t.shift, x, end)?;
    let ghost three = heap.record();
    proof {
        lemma_tree_keep(one, three, settled, 0);
        lemma_tree_keep(one, three, t.tail, 0);
    }
    own(heap, other)?;
    let ghost four = heap.record();
    proof {
        lemma_tree_keep(three, four, other, 0);
        lemma_tree_keep(three, four, new_tree, shift);
        lemma_tree_keep(three, four, new, 0);
    }
    let (head, tail) = match end {
        End::Front => (new, other),
        End::Back => (other, new),
    };
    let next = Root { len: t.len + 1, shift, offset: 0, head, tree: new_tree, tail };
    proof {
        assert(elems(four, head, 0).skip(0) =~= elems(four, head, 0));
        let tr = tree_elems(first, t.tree, t.shift);
        let he = elems(first, t.head, 0).skip(t.offset as int);
        let ta = elems(first, t.tail, 0);
        assert(items(first, cell) == he + tr + ta);
        assert(elems(one, t.tail, 0) == tree_elems(one, t.tail, 0));
        match end {
            End::Front => {
                assert(elems(four, new, 0) + tree_elems(four, new_tree, shift) == seq![x] + (he
                    + tr));
                assert(elems(four, tail, 0) == ta);
                assert(root_items(four, next) == seq![x] + (he + tr) + ta);
                assert(seq![x] + (he + tr) + ta =~= seq![x] + (he + tr + ta));
            },
            End::Back => {
                assert(tree_elems(four, new_tree, shift) + elems(four, new, 0) == tr + ta + seq![x]);
                assert(elems(four, head, 0) == he);
                assert(root_items(four, next) =~= he + (tree_elems(four, new_tree, shift) + elems(
                    four,
                    new,
                    0,
                )));
                assert(he + (tr + ta + seq![x]) =~= he + tr + ta + seq![x]);
            },
        }
        assert(root_items(four, next) =~= beside(end, seq![x], items(first, cell)));
        assert(four.ext =~= first.ext.sub(handle(x)).add(handle(settled)).add(handle(head)).add(
            handle(new_tree),
        ).add(handle(tail)));
    }
    let c = root_at(heap, next)?;
    let ghost five = heap.record();
    proof {
        assert(handle(settled).subset_of(five.ext));
    }
    give_up(heap, settled);
    proof {
        let now = heap.record();
        heap.lemma_record_ok();
        assert(now.ext =~= first.ext.sub(handle(x)).insert(c));
        lemma_pushed(first, five, now, c, end, x, items(first, cell));
    }
    Ok(c)
}

/// An array that took `x` is there after what else was made is given up, and so
/// is all that was there before.
proof fn lemma_pushed(
    first: Record,
    made: Record,
    now: Record,
    c: Cell,
    end: End,
    x: Value,
    rest: Seq<Value>,
)
    requires
        first.ok(),
        now.ok(),
        part_of(first, made),
        keeps(made, now),
        array(made, c),
        items(made, c) == beside(end, seq![x], rest),
        now.ext == first.ext.sub(handle(x)).insert(c),
    ensures
        array(now, c),
        items(now, c) == items(made, c),
        part_of(first, now),
{
    assert(now.ext.count(c) > 0);
    assert(now.has(c));
    crate::vm::sound::lemma_array_keep_live(made, now, c);
    lemma_array_live(now, c);
    lemma_pushed_live(now, c, end, x, rest);
    assert forall|d: Cell| #[trigger] first.ext.count(d) > 0 implies now.has(d) by {
        if now.ext.count(d) == 0 {
            assert(handle(x).count(d) > 0);
            assert(x.spec_cell() == Some(d));
        } else {
            assert(now.has(d));
        }
    }
    assert forall|d: Cell| #[trigger] first.has(d) && now.has(d) implies now.cells[d]
        == first.cells[d] by {
        assert(made.has(d));
    }
    lemma_still_live(first, now);
}

/// What was pushed is in the array.
proof fn lemma_pushed_live(r: Record, c: Cell, end: End, x: Value, rest: Seq<Value>)
    requires
        all_live(r, items(r, c)),
        items(r, c) == beside(end, seq![x], rest),
    ensures
        live(r, x),
{
    let all = items(r, c);
    match end {
        End::Front => {
            assert(all[0] == x);
            assert(live(r, all[0]));
        },
        End::Back => {
            assert(all[rest.len() as int] == x);
            assert(live(r, all[rest.len() as int]));
        },
    }
}

/// An array itself, with one more reference.
fn again(heap: &mut Heap, cell: Cell) -> (r: Result<Cell, Full>)
    requires
        old(heap).wf(),
        array(old(heap).record(), cell),
    ensures
        r is Err ==> final(heap).full(),
        final(heap).wf(),
        sound(old(heap).record()) ==> sound(final(heap).record()),
        part_of(old(heap).record(), final(heap).record()),
        r matches Ok(c) ==> gained(
            old(heap).record(),
            final(heap).record(),
            c,
            items(old(heap).record(), cell),
        ),
        r matches Ok(c) ==> c == cell && final(heap).record().cells == old(heap).record().cells,
{
    let ghost first = heap.record();
    proof {
        heap.lemma_record_ok();
        assert(first.has(cell));
    }
    own(heap, Value::cell(cell))?;
    proof {
        lemma_array_keep(first, heap.record(), cell);
        assert(heap.record().ext =~= first.ext.insert(cell));
    }
    Ok(cell)
}

/// A root of only a tail, made of borrowed elements.
fn tail_of(heap: &mut Heap, vs: &[Value]) -> (r: Result<Cell, Full>)
    requires
        old(heap).wf(),
        1 <= vs@.len() <= 32,
        all_ok(vs@),
        all_live(old(heap).record(), vs@),
    ensures
        r is Err ==> final(heap).full(),
        final(heap).wf(),
        sound(old(heap).record()) ==> sound(final(heap).record()),
        part_of(old(heap).record(), final(heap).record()),
        r matches Ok(c) ==> gained(old(heap).record(), final(heap).record(), c, vs@),
{
    let ghost first = heap.record();
    own_all(heap, vs)?;
    let ghost mid = heap.record();
    let v = leaf(heap, vs)?;
    let ghost next = heap.record();
    let t = no_tree(vs.len(), v);
    proof {
        lemma_only_tail(next, t);
        assert(next.ext =~= first.ext.add(handle(v)));
        assert(elems(next, t.head, 0) =~= Seq::empty());
    }
    let c = root_at(heap, t)?;
    proof {
        assert(heap.record().ext =~= first.ext.insert(c));
    }
    Ok(c)
}

/// The owned tree `cut`, without the levels it does not need, between borrowed
/// buffers.
fn root_around(heap: &mut Heap, t: Root, cut: Value, Ghost(base): Ghost<Record>) -> (r: Result<
    Cell,
    Full,
>)
    requires
        old(heap).wf(),
        base.ok(),
        part_of(base, old(heap).record()),
        old(heap).record().ext == base.ext.add(handle(cut)),
        buffer(base, t.head),
        buffer(base, t.tail),
        tree(old(heap).record(), cut, t.shift),
        cut.spec_cell() is Some,
        t.offset == 0 || t.offset < elems(base, t.head, 0).len(),
        t.len == elems(base, t.head, 0).skip(t.offset as int).len() + tree_elems(
            old(heap).record(),
            cut,
            t.shift,
        ).len() + elems(base, t.tail, 0).len(),
    ensures
        r is Err ==> final(heap).full(),
        final(heap).wf(),
        sound(old(heap).record()) ==> sound(final(heap).record()),
        part_of(base, final(heap).record()),
        r matches Ok(c) ==> gained(
            base,
            final(heap).record(),
            c,
            elems(base, t.head, 0).skip(t.offset as int) + tree_elems(
                old(heap).record(),
                cut,
                t.shift,
            ) + elems(base, t.tail, 0),
        ),
{
    let ghost first = heap.record();
    proof {
        assert(handle(cut).subset_of(first.ext));
    }
    let cut_down = collapse(heap, cut, t.shift);
    let ghost mid = heap.record();
    proof {
        heap.lemma_record_ok();
        assert forall|c: Cell| base.ext.count(c) <= mid.ext.count(c) by {
            assert(first.ext.sub(handle(cut)).count(c) <= mid.ext.count(c));
        }
        assert(base.ext.subset_of(mid.ext));
        lemma_still_live_after(base, first, mid);
    }
    let (small, shift) = cut_down?;
    proof {
        lemma_tree_keep(base, mid, t.head, 0);
        lemma_tree_keep(base, mid, t.tail, 0);
    }
    own(heap, t.head)?;
    own(heap, t.tail)?;
    let next = Root { shift, tree: small, ..t };
    let ghost now = heap.record();
    proof {
        lemma_tree_keep(mid, now, t.head, 0);
        lemma_tree_keep(mid, now, t.tail, 0);
        lemma_tree_keep(mid, now, small, shift);
        assert(now.ext =~= base.ext.add(handle(small)).add(handle(t.head)).add(handle(t.tail)));
    }
    let c = root_at(heap, next)?;
    proof {
        assert(heap.record().ext =~= base.ext.insert(c));
    }
    Ok(c)
}

/// The first `n` elements.
pub fn take(heap: &mut Heap, cell: Cell, n: usize) -> (r: Result<Cell, Full>)
    requires
        old(heap).wf(),
        array(old(heap).record(), cell),
    ensures
        r is Err ==> final(heap).full(),
        final(heap).wf(),
        sound(old(heap).record()) ==> sound(final(heap).record()),
        part_of(old(heap).record(), final(heap).record()),
        r matches Ok(c) ==> gained(
            old(heap).record(),
            final(heap).record(),
            c,
            if n <= items(old(heap).record(), cell).len() {
                items(old(heap).record(), cell).take(n as int)
            } else {
                items(old(heap).record(), cell)
            },
        ),
{
    let ghost first = heap.record();
    let ghost all = items(first, cell);
    proof {
        heap.lemma_record_ok();
    }
    let t = root(heap, cell);
    if n == 0 {
        proof {
            assert(all.take(0) =~= Seq::empty());
        }
        return empty(heap);
    }
    if n >= t.len {
        proof {
            assert(n == all.len() ==> all.take(n as int) =~= all);
        }
        return again(heap, cell);
    }
    let front = head_items(heap, &t);
    if n <= front.len() {
        proof {
            lemma_part_live(first, front@, 0, n as int);
            assert(front@.subrange(0, n as int) =~= all.take(n as int));
        }
        let kept = part(front.as_slice(), 0, n);
        return tail_of(heap, kept.as_slice());
    }
    let m: usize = n - front.len();
    let ghost h = (t.shift / 5) as nat;
    let tree_len = node_len(heap, t.tree, Ghost(h));
    if m <= tree_len {
        let cut = tree_take(heap, t.tree, m, Ghost(h))?;
        let nil = Value::nil();
        let next = Root { len: n, tail: nil, ..t };
        proof {
            let now = heap.record();
            assert(now.ext =~= first.ext.add(handle(cut)));
            assert(elems(first, nil, 0) =~= Seq::empty());
            assert(elems(first, t.head, 0).skip(t.offset as int) + tree_elems(now, cut, t.shift)
                + elems(first, nil, 0) =~= all.take(n as int));
        }
        return root_around(heap, next, cut, Ghost(first));
    }
    let back = buffer_items(heap, t.tail);
    let kept = part(back.as_slice(), 0, m - tree_len);
    proof {
        lemma_part_live(first, back@, 0, m - tree_len);
    }
    own_all(heap, kept.as_slice())?;
    let ghost mid = heap.record();
    let tail = leaf(heap, kept.as_slice())?;
    let ghost next = heap.record();
    proof {
        lemma_tree_keep(first, next, t.head, 0);
        lemma_tree_keep(first, next, t.tree, t.shift);
    }
    own(heap, t.head)?;
    own(heap, t.tree)?;
    let made = Root { len: n, tail, ..t };
    proof {
        let now = heap.record();
        lemma_tree_keep(next, now, t.head, 0);
        lemma_tree_keep(next, now, t.tree, t.shift);
        lemma_keep(next, now, tail, 0);
        assert(root_items(now, made) =~= all.take(n as int));
        assert(now.ext =~= first.ext.add(handle(t.head)).add(handle(t.tree)).add(handle(tail)));
    }
    let c = root_at(heap, made)?;
    proof {
        assert(heap.record().ext =~= first.ext.insert(c));
    }
    Ok(c)
}

/// Every element but the first `n`.
#[verifier::rlimit(40)]
pub fn skip(heap: &mut Heap, cell: Cell, n: usize) -> (r: Result<Cell, Full>)
    requires
        old(heap).wf(),
        array(old(heap).record(), cell),
    ensures
        r is Err ==> final(heap).full(),
        final(heap).wf(),
        sound(old(heap).record()) ==> sound(final(heap).record()),
        part_of(old(heap).record(), final(heap).record()),
        r matches Ok(c) ==> gained(
            old(heap).record(),
            final(heap).record(),
            c,
            if n <= items(old(heap).record(), cell).len() {
                items(old(heap).record(), cell).skip(n as int)
            } else {
                Seq::empty()
            },
        ),
{
    let ghost first = heap.record();
    let ghost all = items(first, cell);
    proof {
        heap.lemma_record_ok();
    }
    let t = root(heap, cell);
    if n == 0 {
        proof {
            assert(all.skip(0) =~= all);
        }
        return again(heap, cell);
    }
    if n >= t.len {
        proof {
            assert(n == all.len() ==> all.skip(n as int) =~= Seq::empty());
        }
        return empty(heap);
    }
    let front = head_items(heap, &t);
    if n < front.len() {
        // The same head leaf, tree and tail, with `n` more items left behind.
        let next = Root { len: t.len - n, offset: t.offset + n, ..t };
        proof {
            assert(elems(first, t.head, 0).skip(t.offset + n) =~= front@.skip(n as int));
            assert(root_items(first, next) =~= all.skip(n as int));
        }
        return root_over(heap, next);
    }
    let m: usize = n - front.len();
    let ghost h = (t.shift / 5) as nat;
    let tree_len = node_len(heap, t.tree, Ghost(h));
    let nil = Value::nil();
    proof {
        assert(elems(first, nil, 0) =~= Seq::empty());
        assert(elems(first, nil, 0).skip(0) =~= Seq::empty());
    }
    if m < tree_len {
        // The head is spent, so what is left comes out of the tree. Its
        // leftmost leaf moves up to be the new head, whole, and `m` of it is
        // left behind: the tree is cut once for a leaf, not once an element.
        let lead = first_leaf(heap, t.tree, Ghost(h));
        let lead_len = node_len(heap, lead, Ghost(0nat));
        proof {
            lemma_node(first, lead, 0);
        }
        if m < lead_len {
            if lead_len == tree_len {
                let next = Root {
                    len: t.len - n,
                    shift: 0,
                    offset: m,
                    head: lead,
                    tree: nil,
                    tail: t.tail,
                };
                proof {
                    assert(elems(first, lead, 0) =~= tree_elems(first, t.tree, t.shift));
                    assert(root_items(first, next) =~= all.skip(n as int));
                }
                return root_over(heap, next);
            }
            let cut = tree_drop(heap, t.tree, lead_len, Ghost(h))?;
            let next = Root { len: t.len - n, offset: m, head: lead, ..t };
            proof {
                let now = heap.record();
                assert(now.ext =~= first.ext.add(handle(cut)));
                let whole = tree_elems(first, t.tree, t.shift);
                assert(elems(first, lead, 0).skip(m as int) + tree_elems(now, cut, t.shift)
                    =~= whole.skip(m as int));
                assert(elems(first, lead, 0).skip(m as int) + tree_elems(now, cut, t.shift) + elems(
                    first,
                    t.tail,
                    0,
                ) =~= all.skip(n as int));
            }
            return root_around(heap, next, cut, Ghost(first));
        }
        let cut = tree_drop(heap, t.tree, m, Ghost(h))?;
        let next = Root { len: t.len - n, offset: 0, head: nil, ..t };
        proof {
            let now = heap.record();
            assert(now.ext =~= first.ext.add(handle(cut)));
            assert(elems(first, nil, 0).skip(0) + tree_elems(now, cut, t.shift) + elems(
                first,
                t.tail,
                0,
            ) =~= all.skip(n as int));
        }
        return root_around(heap, next, cut, Ghost(first));
    }
    let k: usize = m - tree_len;
    if k == 0 {
        let next = no_tree(t.len - n, t.tail);
        proof {
            lemma_only_tail(first, next);
            assert(elems(first, next.head, 0) =~= Seq::empty());
            assert(root_items(first, next) =~= all.skip(n as int));
        }
        return root_over(heap, next);
    }
    let back = buffer_items(heap, t.tail);
    let kept = part(back.as_slice(), k, back.len());
    proof {
        lemma_part_live(first, back@, k as int, back@.len() as int);
        assert(kept@ =~= all.skip(n as int));
    }
    tail_of(heap, kept.as_slice())
}

/// The elements from `start` up to but not including `end`, or `None` when that
/// range is not inside the array.
pub fn slice(heap: &mut Heap, cell: Cell, start: usize, end: usize) -> (r: Result<
    Option<Cell>,
    Full,
>)
    requires
        old(heap).wf(),
        array(old(heap).record(), cell),
    ensures
        r is Err ==> final(heap).full(),
        final(heap).wf(),
        sound(old(heap).record()) ==> sound(final(heap).record()),
        part_of(old(heap).record(), final(heap).record()),
        r matches Ok(None) ==> final(heap).record() == old(heap).record() && !(start <= end
            <= items(old(heap).record(), cell).len()),
        r matches Ok(Some(c)) ==> start <= end <= items(old(heap).record(), cell).len() && gained(
            old(heap).record(),
            final(heap).record(),
            c,
            items(old(heap).record(), cell).subrange(start as int, end as int),
        ),
{
    let ghost first = heap.record();
    proof {
        heap.lemma_record_ok();
    }
    if start > end || end > len(heap, cell) {
        return Ok(None);
    }
    let front = take(heap, cell, end)?;
    let ghost one = heap.record();
    let cut = skip(heap, front, start)?;
    let ghost two = heap.record();
    proof {
        lemma_array_keep(one, two, front);
        assert(two.ext.count(front) > 0);
        assert(items(two, cut) =~= items(first, cell).subrange(start as int, end as int));
    }
    heap.release(front);
    proof {
        let now = heap.record();
        heap.lemma_record_ok();
        assert(now.ext =~= first.ext.insert(cut));
        assert(now.ext.count(cut) > 0);
        assert(now.has(cut));
        crate::vm::sound::lemma_array_keep_live(two, now, cut);
        lemma_still_live_after(first, two, now);
        if sound(first) {
            crate::vm::sound::lemma_sound_release(two, now);
        }
    }
    Ok(Some(cut))
}

/// A tree with its buffer at `end` gone into it.
fn closed_tree(heap: &mut Heap, t: Value, shift: usize, b: Value, end: End) -> (r: Result<
    (Value, usize),
    Full,
>)
    requires
        old(heap).wf(),
        tree(old(heap).record(), t, shift),
        buffer(old(heap).record(), b),
        tree_elems(old(heap).record(), t, shift).len() + elems(old(heap).record(), b, 0).len()
            <= usize::MAX,
    ensures
        r is Err ==> final(heap).full() || shift > usize::MAX - 10,
        final(heap).wf(),
        sound(old(heap).record()) ==> sound(final(heap).record()),
        part_of(old(heap).record(), final(heap).record()),
        r matches Ok((v, s)) ==> {
            &&& s <= shift + 5
            &&& tree(final(heap).record(), v, s)
            &&& tree_elems(final(heap).record(), v, s) == beside(
                end,
                elems(old(heap).record(), b, 0),
                tree_elems(old(heap).record(), t, shift),
            )
            &&& final(heap).record().ext == old(heap).record().ext.add(handle(v))
        },
{
    let ghost first = heap.record();
    proof {
        lemma_tree_keep(first, first, t, shift);
    }
    if b.as_cell().is_none() {
        own(heap, t)?;
        proof {
            lemma_tree_keep(first, heap.record(), t, shift);
            assert(elems(first, b, 0) =~= Seq::empty());
            assert(beside(end, elems(first, b, 0), tree_elems(first, t, shift)) =~= tree_elems(
                first,
                t,
                shift,
            ));
        }
        return Ok((t, shift));
    }
    let (v, s) = tree_push_leaf(heap, t, shift, b, end)?;
    proof {
        assert(heap.record().ext =~= first.ext.add(handle(v)));
    }
    Ok((v, s))
}

/// Two owned trees, one after the other, as one.
#[verifier::rlimit(40)]
fn join_trees(
    heap: &mut Heap,
    a: Value,
    ashift: usize,
    b: Value,
    bshift: usize,
    Ghost(base): Ghost<Record>,
) -> (r: Result<(Value, usize), Full>)
    requires
        old(heap).wf(),
        base.ok(),
        part_of(base, old(heap).record()),
        old(heap).record().ext == base.ext.add(handle(a)).add(handle(b)),
        tree(old(heap).record(), a, ashift),
        tree(old(heap).record(), b, bshift),
        tree_elems(old(heap).record(), a, ashift).len() + tree_elems(
            old(heap).record(),
            b,
            bshift,
        ).len() <= usize::MAX,
    ensures
        r is Err ==> final(heap).full() || ashift > usize::MAX - 5 || bshift > usize::MAX - 5,
        final(heap).wf(),
        sound(old(heap).record()) ==> sound(final(heap).record()),
        part_of(base, final(heap).record()),
        r matches Ok((v, s)) ==> {
            &&& tree(final(heap).record(), v, s)
            &&& tree_elems(final(heap).record(), v, s) == tree_elems(old(heap).record(), a, ashift)
                + tree_elems(old(heap).record(), b, bshift)
            &&& final(heap).record().ext == base.ext.add(handle(v))
        },
{
    let ghost first = heap.record();
    let ghost whole = tree_elems(first, a, ashift) + tree_elems(first, b, bshift);
    if a.as_cell().is_none() {
        proof {
            assert(whole =~= tree_elems(first, b, bshift));
            assert(first.ext =~= base.ext.add(handle(b)));
        }
        return Ok((b, bshift));
    }
    if b.as_cell().is_none() {
        proof {
            assert(whole =~= tree_elems(first, a, ashift));
            assert(first.ext =~= base.ext.add(handle(a)));
        }
        return Ok((a, ashift));
    }
    let top = merge(
        heap,
        a,
        ashift,
        b,
        bshift,
        Ghost((ashift / 5) as nat),
        Ghost((bshift / 5) as nat),
    )?;
    let ghost one = heap.record();
    let both: Vec<Value> = vec![a, b];
    let shift: usize = if ashift > bshift {
        ashift
    } else {
        bshift
    };
    let ghost h = (shift / 5) as nat;
    proof {
        assert(both@ =~= seq![a] + seq![b]);
        lemma_handles_add(seq![a], seq![b]);
        lemma_handle_one(a);
        lemma_handle_one(b);
        assert(handles(both@).subset_of(one.ext));
    }
    crate::vm::join::give_up_all(heap, both.as_slice());
    let ghost two = heap.record();
    proof {
        heap.lemma_record_ok();
        assert(two.ext =~= base.ext.add(handles(top@)));
        lemma_owned_live(two, top@);
        assert forall|i: int| 0 <= i < top@.len() implies node(one, #[trigger] top@[i], h) && (
        top@[i].spec_cell() matches Some(c) && two.has(c)) by {
            assert(live(two, top@[i]));
            lemma_node(one, top@[i], h);
        }
        crate::vm::nodes::lemma_keep_live_all(one, two, top@, h);
        lemma_still_live_after(base, one, two);
    }
    if top.len() == 1 {
        let only = top[0];
        proof {
            assert(top@ =~= seq![only]);
            lemma_handle_one(only);
            lemma_elems_one(two, only, h);
            assert(node(two, top@[0], h));
            assert(handle(only).subset_of(two.ext));
        }
        let small = collapse(heap, only, shift);
        proof {
            let now = heap.record();
            heap.lemma_record_ok();
            assert forall|c: Cell| base.ext.count(c) <= now.ext.count(c) by {
                assert(two.ext.sub(handle(only)).count(c) <= now.ext.count(c));
            }
            assert(base.ext.subset_of(now.ext));
            lemma_still_live_after(base, two, now);
        }
        let (v, s) = small?;
        proof {
            assert(heap.record().ext =~= base.ext.add(handle(v)));
        }
        return Ok((v, s));
    }
    if shift > usize::MAX - 5 {
        return Err(Full);
    }
    proof {
        assert(handles(top@).subset_of(two.ext));
        assert((shift + 5) / 5 == h + 1);
        assert((shift + 5) % 5 == 0);
    }
    let v = branch(heap, shift + 5, top.as_slice(), Ghost(h))?;
    proof {
        assert(heap.record().ext =~= base.ext.add(handle(v)));
    }
    Ok((v, shift + 5))
}

/// `l` then `r`. Each level of the two trees is packed again when it would be
/// too loose, which keeps a lookup a step per level however many joins built
/// the array. With one side empty, the other is the result, shared once more.
#[verifier::rlimit(60)]
#[verifier::spinoff_prover]
pub fn concat(heap: &mut Heap, l: Cell, r: Cell) -> (res: Result<Cell, Full>)
    requires
        old(heap).wf(),
        array(old(heap).record(), l),
        array(old(heap).record(), r),
    ensures
        res is Err ==> out_of_room(*final(heap)),
        final(heap).wf(),
        sound(old(heap).record()) ==> sound(final(heap).record()),
        part_of(old(heap).record(), final(heap).record()),
        res matches Ok(c) ==> gained(
            old(heap).record(),
            final(heap).record(),
            c,
            items(old(heap).record(), l) + items(old(heap).record(), r),
        ),
        res matches Ok(c) ==> items(old(heap).record(), l).len() == 0 ==> c == r
            && final(heap).record().cells == old(heap).record().cells,
        res matches Ok(c) ==> items(old(heap).record(), l).len() > 0 && items(
            old(heap).record(),
            r,
        ).len() == 0 ==> c == l && final(heap).record().cells == old(heap).record().cells,
{
    let ghost first = heap.record();
    proof {
        heap.lemma_record_ok();
    }
    let lt = root(heap, l);
    let rt = root(heap, r);
    if lt.len == 0 {
        proof {
            assert(items(first, l) + items(first, r) =~= items(first, r));
        }
        return again(heap, r);
    }
    if rt.len == 0 {
        proof {
            assert(items(first, l) + items(first, r) =~= items(first, l));
        }
        return again(heap, l);
    }
    if lt.len > usize::MAX - rt.len {
        return Err(Full);
    }
    // The buffers at the seam go into their trees. The left array keeps its
    // head, and the right one its tail.
    let (ltree, lshift) = closed_tree(heap, lt.tree, lt.shift, lt.tail, End::Back)?;
    let ghost one = heap.record();
    proof {
        lemma_root_keep(first, one, rt);
        lemma_tree_keep(first, one, rt.tree, rt.shift);
        lemma_tree_keep(first, one, rt.head, 0);
    }
    let rhead = own_head(heap, &rt)?;
    let ghost two = heap.record();
    proof {
        lemma_tree_keep(one, two, rt.tree, rt.shift);
        lemma_tree_keep(one, two, ltree, lshift);
    }
    let (rtree, rshift) = closed_tree(heap, rt.tree, rt.shift, rhead, End::Front)?;
    let ghost three = heap.record();
    proof {
        lemma_tree_keep(two, three, ltree, lshift);
        assert(handle(rhead).subset_of(three.ext));
    }
    give_up(heap, rhead);
    let ghost four = heap.record();
    proof {
        heap.lemma_record_ok();
        assert(four.ext =~= first.ext.add(handle(ltree)).add(handle(rtree)));
        lemma_handle_live(four, ltree);
        lemma_handle_live(four, rtree);
        lemma_tree_keep_live(three, four, ltree, lshift);
        lemma_tree_keep_live(three, four, rtree, rshift);
        lemma_still_live_after(first, three, four);
    }
    let (t, shift) = join_trees(heap, ltree, lshift, rtree, rshift, Ghost(first))?;
    let ghost five = heap.record();
    proof {
        lemma_tree_keep(first, five, lt.head, 0);
        lemma_tree_keep(first, five, rt.tail, 0);
    }
    own(heap, lt.head)?;
    own(heap, rt.tail)?;
    let next = Root {
        len: lt.len + rt.len,
        shift,
        offset: lt.offset,
        head: lt.head,
        tree: t,
        tail: rt.tail,
    };
    proof {
        let now = heap.record();
        lemma_tree_keep(five, now, t, shift);
        lemma_tree_keep(five, now, lt.head, 0);
        lemma_tree_keep(five, now, rt.tail, 0);
        let he = elems(first, lt.head, 0).skip(lt.offset as int);
        let lm = tree_elems(first, lt.tree, lt.shift);
        let le = elems(first, lt.tail, 0);
        let re = elems(first, rt.head, 0).skip(rt.offset as int);
        let rm = tree_elems(first, rt.tree, rt.shift);
        let ta = elems(first, rt.tail, 0);
        assert(tree_elems(four, ltree, lshift) == lm + le);
        assert(elems(one, rt.head, 0) == tree_elems(one, rt.head, 0));
        assert(elems(first, rt.head, 0) == tree_elems(first, rt.head, 0));
        assert(tree_elems(four, rtree, rshift) == re + rm);
        assert(elems(now, lt.head, 0) == tree_elems(now, lt.head, 0));
        assert(elems(now, rt.tail, 0) == tree_elems(now, rt.tail, 0));
        assert(root_items(now, next) == he + ((lm + le) + (re + rm)) + ta);
        assert(he + ((lm + le) + (re + rm)) + ta =~= (he + lm + le) + (re + rm + ta));
        assert(now.ext =~= first.ext.add(handle(t)).add(handle(lt.head)).add(handle(rt.tail)));
    }
    let c = root_at(heap, next)?;
    proof {
        assert(heap.record().ext =~= first.ext.insert(c));
    }
    Ok(c)
}

/// A value whose reference is held outside is live.
pub proof fn lemma_handle_live(r: Record, v: Value)
    requires
        r.ok(),
        handle(v).subset_of(r.ext),
    ensures
        live(r, v),
{
    lemma_handle_one(v);
    lemma_owned_live(r, seq![v]);
    assert(live(r, seq![v][0]));
}

/// The references after `done` of `vs` were used to make `made`.
spec fn consumed(first: Record, now: Record, vs: Seq<Value>, done: int, made: Seq<Value>) -> bool {
    now.ext == first.ext.sub(handles(vs)).add(handles(vs.skip(done))).add(handles(made))
}

proof fn lemma_consumed_step(vs: Seq<Value>, from: int, to: int)
    requires
        0 <= from <= to <= vs.len(),
    ensures
        handles(vs.skip(from)) == handles(vs.subrange(from, to)).add(handles(vs.skip(to))),
{
    assert(vs.skip(from) =~= vs.subrange(from, to) + vs.skip(to));
    lemma_handles_add(vs.subrange(from, to), vs.skip(to));
}

/// The owned `vs`, a whole number of leaves' worth, as leaves.
fn leaves(heap: &mut Heap, vs: &[Value]) -> (r: Result<Vec<Value>, Full>)
    requires
        old(heap).wf(),
        all_ok(vs@),
        handles(vs@).subset_of(old(heap).record().ext),
        vs@.len() > 0,
    ensures
        r is Err ==> final(heap).full(),
        final(heap).wf(),
        sound(old(heap).record()) ==> sound(final(heap).record()),
        part_of(old(heap).record(), final(heap).record()),
        r matches Ok(out) ==> {
            &&& final(heap).record().ext == old(heap).record().ext.sub(handles(vs@)).add(
                handles(out@),
            )
            &&& nodes(final(heap).record(), out@, 0)
            &&& elems_all(final(heap).record(), out@, 0) == vs@
            &&& 1 <= out@.len() <= vs@.len() / 32 + 1
        },
{
    let ghost first = heap.record();
    let n: usize = vs.len();
    let mut out: Vec<Value> = Vec::new();
    let mut i: usize = 0;
    proof {
        lemma_no_handles();
        assert(vs@.skip(0) =~= vs@);
        assert(vs@.take(0) =~= Seq::empty());
        assert(first.ext =~= first.ext.sub(handles(vs@)).add(handles(vs@.skip(0))).add(
            handles(out@),
        ));
        assert(elems_all(first, Seq::<Value>::empty(), 0) =~= Seq::empty());
    }
    while i < n
        invariant
            n == vs@.len(),
            i <= n,
            heap.wf(),
            first == old(heap).record(),
            sound(first) ==> sound(heap.record()),
            part_of(first, heap.record()),
            all_ok(vs@),
            handles(vs@).subset_of(first.ext),
            nodes(heap.record(), out@, 0),
            elems_all(heap.record(), out@, 0) == vs@.take(i as int),
            consumed(first, heap.record(), vs@, i as int, out@),
            i < n ==> i == 32 * out@.len(),
            out@.len() <= n / 32 + 1,
            i > 0 ==> out@.len() > 0,
        decreases n - i,
    {
        let to: usize = if n - i < 32 {
            n
        } else {
            i + 32
        };
        let chunk = part(vs, i, to);
        let ghost now = heap.record();
        let ghost before = out@;
        proof {
            lemma_consumed_step(vs@, i as int, to as int);
            assert forall|j: int| 0 <= j < chunk@.len() implies (#[trigger] chunk@[j]).ok() by {
                assert(vs@[i + j].ok());
            }
            assert(handles(chunk@).subset_of(now.ext));
        }
        let v = leaf(heap, chunk.as_slice())?;
        out.push(v);
        proof {
            let next = heap.record();
            crate::vm::join::lemma_out(now, next, before, v, 0);
            assert(out@ =~= before + seq![v]);
            assert(vs@.take(to as int) =~= vs@.take(i as int) + chunk@);
            assert(next.ext =~= first.ext.sub(handles(vs@)).add(handles(vs@.skip(to as int))).add(
                handles(out@),
            ));
        }
        i = to;
    }
    proof {
        assert(vs@.skip(n as int) =~= Seq::empty());
        assert(vs@.take(n as int) =~= vs@);
        assert(heap.record().ext =~= first.ext.sub(handles(vs@)).add(handles(out@)));
    }
    Ok(out)
}

/// The owned nodes `vs`, one level up.
fn level(heap: &mut Heap, vs: &[Value], shift: usize, Ghost(h): Ghost<nat>) -> (r: Result<
    Vec<Value>,
    Full,
>)
    requires
        old(heap).wf(),
        shift == 5 * (h + 1),
        nodes(old(heap).record(), vs@, h),
        handles(vs@).subset_of(old(heap).record().ext),
        vs@.len() > 1,
        elems_all(old(heap).record(), vs@, h).len() <= usize::MAX,
    ensures
        r is Err ==> final(heap).full(),
        final(heap).wf(),
        sound(old(heap).record()) ==> sound(final(heap).record()),
        part_of(old(heap).record(), final(heap).record()),
        r matches Ok(out) ==> {
            &&& final(heap).record().ext == old(heap).record().ext.sub(handles(vs@)).add(
                handles(out@),
            )
            &&& nodes(final(heap).record(), out@, h + 1)
            &&& elems_all(final(heap).record(), out@, h + 1) == elems_all(
                old(heap).record(),
                vs@,
                h,
            )
            &&& 1 <= out@.len() < vs@.len()
        },
{
    let ghost first = heap.record();
    let n: usize = vs.len();
    let mut out: Vec<Value> = Vec::new();
    let mut i: usize = 0;
    proof {
        lemma_no_handles();
        assert(vs@.skip(0) =~= vs@);
        assert(vs@.take(0) =~= Seq::empty());
        assert(first.ext =~= first.ext.sub(handles(vs@)).add(handles(vs@.skip(0))).add(
            handles(out@),
        ));
        assert(elems_all(first, Seq::<Value>::empty(), h + 1) =~= Seq::empty());
        assert(elems_all(first, Seq::<Value>::empty(), h) =~= Seq::empty());
    }
    while i < n
        invariant
            n == vs@.len(),
            n > 1,
            i <= n,
            shift == 5 * (h + 1),
            heap.wf(),
            first == old(heap).record(),
            sound(first) ==> sound(heap.record()),
            part_of(first, heap.record()),
            nodes(first, vs@, h),
            handles(vs@).subset_of(first.ext),
            elems_all(first, vs@, h).len() <= usize::MAX,
            nodes(heap.record(), out@, h + 1),
            elems_all(heap.record(), out@, h + 1) == elems_all(first, vs@.take(i as int), h),
            consumed(first, heap.record(), vs@, i as int, out@),
            i == 0 ==> out@.len() == 0,
            i > 0 ==> 1 <= out@.len() < i,
        decreases n - i,
    {
        let to: usize = if n - i < 32 {
            n
        } else {
            i + 32
        };
        let chunk = part(vs, i, to);
        let ghost now = heap.record();
        let ghost before = out@;
        proof {
            lemma_consumed_step(vs@, i as int, to as int);
            assert forall|j: int| 0 <= j < chunk@.len() implies node(first, #[trigger] chunk@[j], h) by {
                assert(node(first, vs@[i + j], h));
            }
            lemma_keep_all(first, now, chunk@, h);
            assert(handles(chunk@).subset_of(now.ext));
            assert(vs@.take(to as int) =~= vs@.take(i as int) + chunk@);
            lemma_elems_add(first, vs@.take(i as int), chunk@, h);
            lemma_prefix_len(first, vs@, to as int, h);
        }
        let v = branch(heap, shift, chunk.as_slice(), Ghost(h))?;
        out.push(v);
        proof {
            let next = heap.record();
            crate::vm::join::lemma_out(now, next, before, v, h + 1);
            assert(out@ =~= before + seq![v]);
            assert(next.ext =~= first.ext.sub(handles(vs@)).add(handles(vs@.skip(to as int))).add(
                handles(out@),
            ));
        }
        i = to;
    }
    proof {
        assert(vs@.skip(n as int) =~= Seq::empty());
        assert(vs@.take(n as int) =~= vs@);
        assert(heap.record().ext =~= first.ext.sub(handles(vs@)).add(handles(out@)));
    }
    Ok(out)
}

/// An array of `vs`, whose references pass to it. A whole number of full leaves
/// go in a tightly packed tree, and the rest, 1 to 32, in the tail.
#[verifier::rlimit(40)]
pub fn from_values(heap: &mut Heap, vs: &[Value]) -> (r: Result<Cell, Full>)
    requires
        old(heap).wf(),
        all_ok(vs@),
        handles(vs@).subset_of(old(heap).record().ext),
    ensures
        r is Err ==> final(heap).full(),
        final(heap).wf(),
        sound(old(heap).record()) ==> sound(final(heap).record()),
        part_of(old(heap).record(), final(heap).record()),
        r matches Ok(c) ==> {
            &&& array(final(heap).record(), c)
            &&& items(final(heap).record(), c) == vs@
            &&& final(heap).record().ext == old(heap).record().ext.sub(handles(vs@)).insert(c)
        },
{
    let ghost first = heap.record();
    let n: usize = vs.len();
    if n == 0 {
        proof {
            assert(vs@ =~= Seq::empty());
            lemma_no_handles();
            assert(first.ext.sub(handles(vs@)) =~= first.ext);
        }
        return empty(heap);
    }
    if n <= 32 {
        let v = leaf(heap, vs)?;
        let t = no_tree(n, v);
        proof {
            let now = heap.record();
            lemma_only_tail(now, t);
            assert(elems(now, t.head, 0) =~= Seq::empty());
        }
        let c = root_at(heap, t)?;
        proof {
            assert(heap.record().ext =~= first.ext.sub(handles(vs@)).insert(c));
        }
        return Ok(c);
    }
    let tail_len: usize = if n % 32 == 0 {
        32
    } else {
        n % 32
    };
    let cut: usize = n - tail_len;
    let body = part(vs, 0, cut);
    let back = part(vs, cut, n);
    proof {
        assert(vs@ =~= body@ + back@);
        lemma_handles_add(body@, back@);
        assert forall|j: int| 0 <= j < body@.len() implies (#[trigger] body@[j]).ok() by {
            assert(vs@[j].ok());
        }
        assert forall|j: int| 0 <= j < back@.len() implies (#[trigger] back@[j]).ok() by {
            assert(vs@[cut + j].ok());
        }
        assert forall|c: Cell| handles(body@).count(c) <= first.ext.count(c) by {
            assert(handles(vs@).count(c) <= first.ext.count(c));
        }
    }
    let mut row = leaves(heap, body.as_slice())?;
    let mut shift: usize = 0;
    let ghost mut h: nat = 0;
    while row.len() > 1
        invariant
            heap.wf(),
            first == old(heap).record(),
            sound(first) ==> sound(heap.record()),
            part_of(first, heap.record()),
            shift == 5 * h,
            shift + 5 * row@.len() <= 5 * (body@.len() / 32 + 1),
            row@.len() >= 1,
            nodes(heap.record(), row@, h),
            elems_all(heap.record(), row@, h) == body@,
            body@.len() <= usize::MAX,
            heap.record().ext == first.ext.sub(handles(body@)).add(handles(row@)),
        decreases row@.len(),
    {
        let ghost now = heap.record();
        proof {
            assert(handles(row@).subset_of(now.ext));
        }
        row = level(heap, row.as_slice(), shift + 5, Ghost(h))?;
        proof {
            assert(heap.record().ext =~= first.ext.sub(handles(body@)).add(handles(row@)));
            h = h + 1;
        }
        shift = shift + 5;
    }
    let t = row[0];
    let ghost mid = heap.record();
    proof {
        assert(row@ =~= seq![t]);
        assert(node(mid, row@[0], h));
        lemma_handle_one(t);
        lemma_elems_one(mid, t, h);
        assert forall|c: Cell| handles(back@).count(c) <= mid.ext.count(c) by {
            assert(handles(vs@).count(c) <= first.ext.count(c));
        }
        assert(shift / 5 == h);
    }
    let tail = leaf(heap, back.as_slice())?;
    let ghost last = heap.record();
    let next = Root { len: n, shift, offset: 0, head: Value::nil(), tree: t, tail };
    proof {
        lemma_keep(mid, last, t, h);
        assert(elems(last, next.head, 0) =~= Seq::empty());
        assert(elems(last, next.head, 0).skip(0) =~= Seq::empty());
        assert(root_items(last, next) =~= vs@);
        assert(last.ext =~= first.ext.sub(handles(vs@)).add(handle(t)).add(handle(tail)));
    }
    let c = root_at(heap, next)?;
    proof {
        assert(heap.record().ext =~= first.ext.sub(handles(vs@)).insert(c));
    }
    Ok(c)
}

} // verus!
