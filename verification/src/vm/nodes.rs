//! An array's nodes in the heap: leaves of elements, and branches over them
//! with the running totals of what they hold.

use crate::vm::cells::{all_ok, handles, value_words};
use crate::vm::heap::{Full, Heap};
use crate::vm::record::{
    Body, cells_in, keeps, Kind, lemma_cells_add, lemma_cells_at, lemma_ref_live, part_of, Record,
    total,
};
use crate::vm::sound::{lemma_sound_part, lemma_sound_release, sound};
use crate::vm::value::{canonical, Cell, Value};
use vstd::multiset::Multiset;
use vstd::prelude::*;

verus! {

/// How many children a branch has.
pub open spec fn child_count(b: Body) -> nat {
    ((b.data.len() - 1) / 2) as nat
}

/// A leaf's elements, or a branch's children.
pub open spec fn slots_of(b: Body) -> Seq<Value> {
    if b.kind is ArrayLeaf {
        Seq::new(b.data.len(), |i: int| Value { bits: b.data[i] })
    } else if b.kind is ArrayBranch {
        Seq::new(
            child_count(b),
            |i: int| Value { bits: b.data[1 + child_count(b) as int + i] },
        )
    } else {
        Seq::empty()
    }
}

/// The slots of the node a value names.
pub open spec fn slots(r: Record, v: Value) -> Seq<Value> {
    match v.spec_cell() {
        Some(c) => slots_of(r.cells[c]),
        None => Seq::empty(),
    }
}

/// The elements under a node at height `h`.
pub open spec fn elems(r: Record, v: Value, h: nat) -> Seq<Value>
    decreases h, 0nat,
{
    if v.spec_cell() is None {
        Seq::empty()
    } else if h == 0 {
        slots(r, v)
    } else {
        elems_all(r, slots(r, v), (h - 1) as nat)
    }
}

pub open spec fn elems_all(r: Record, vs: Seq<Value>, h: nat) -> Seq<Value>
    decreases h, vs.len() + 1,
{
    if vs.len() == 0 {
        Seq::empty()
    } else {
        elems_all(r, vs.drop_last(), h) + elems(r, vs.last(), h)
    }
}

/// A node at height `h`: a leaf of one to 32 elements at the bottom, else a
/// branch over one to 32 nodes one level down.
pub open spec fn node(r: Record, v: Value, h: nat) -> bool
    decreases h,
{
    &&& v.ok()
    &&& v.spec_cell() matches Some(c) && {
        let b = r.cells[c];
        &&& r.has(c)
        &&& if h == 0 {
            b.kind is ArrayLeaf && 1 <= b.data.len() <= 32
        } else {
            let n = child_count(b) as int;
            let kids = slots_of(b);
            &&& b.kind is ArrayBranch
            &&& b.data.len() == 1 + 2 * n
            &&& 1 <= n <= 32
            &&& b.data[0] == 5 * h
            &&& forall|i: int| 0 <= i < n ==> node(r, #[trigger] kids[i], (h - 1) as nat)
            &&& forall|i: int|
                0 <= i < n ==> #[trigger] b.data[1 + i] == elems_all(
                    r,
                    kids.take(i + 1),
                    (h - 1) as nat,
                ).len()
        }
    }
}

pub open spec fn nodes(r: Record, vs: Seq<Value>, h: nat) -> bool {
    forall|i: int| 0 <= i < vs.len() ==> node(r, #[trigger] vs[i], h)
}

/// A node stays what it is where its cells stay.
pub proof fn lemma_keep(a: Record, b: Record, v: Value, h: nat)
    requires
        part_of(a, b),
        node(a, v, h),
    ensures
        node(b, v, h),
        elems(b, v, h) == elems(a, v, h),
        slots(b, v) == slots(a, v),
    decreases h, 0nat,
{
    let c = v.spec_cell()->Some_0;
    assert(a.has(c));
    let body = a.cells[c];
    assert(b.cells[c] == body);
    if h > 0 {
        let kids = slots_of(body);
        let low = (h - 1) as nat;
        assert(nodes(a, kids, low));
        lemma_keep_all(a, b, kids, low);
        assert forall|i: int| 0 <= i < kids.len() implies #[trigger] body.data[1 + i] == elems_all(
            b,
            kids.take(i + 1),
            low,
        ).len() by {
            assert forall|j: int| 0 <= j < kids.take(i + 1).len() implies node(
                a,
                #[trigger] kids.take(i + 1)[j],
                low,
            ) by {
                assert(node(a, kids[j], low));
            }
            lemma_keep_all(a, b, kids.take(i + 1), low);
        }
    }
}

pub proof fn lemma_keep_all(a: Record, b: Record, vs: Seq<Value>, h: nat)
    requires
        part_of(a, b),
        nodes(a, vs, h),
    ensures
        nodes(b, vs, h),
        elems_all(b, vs, h) == elems_all(a, vs, h),
    decreases h, vs.len() + 1,
{
    if vs.len() > 0 {
        let init = vs.drop_last();
        assert forall|i: int| 0 <= i < init.len() implies node(a, #[trigger] init[i], h) by {
            assert(node(a, vs[i], h));
        }
        lemma_keep_all(a, b, init, h);
        assert(node(a, vs[vs.len() - 1], h));
        lemma_keep(a, b, vs.last(), h);
        assert forall|i: int| 0 <= i < vs.len() implies node(b, #[trigger] vs[i], h) by {
            if i < init.len() {
                assert(node(b, init[i], h));
            }
        }
    }
}

/// A node stays what it is where it is still there and cells are as they were.
pub proof fn lemma_keep_live(a: Record, b: Record, v: Value, h: nat)
    requires
        b.shaped(),
        keeps(a, b),
        node(a, v, h),
        v.spec_cell() matches Some(c) && b.has(c),
    ensures
        node(b, v, h),
        elems(b, v, h) == elems(a, v, h),
        slots(b, v) == slots(a, v),
    decreases h, 0nat,
{
    let c = v.spec_cell()->Some_0;
    assert(a.has(c) && b.has(c));
    let body = a.cells[c];
    assert(b.cells[c] == body);
    if h > 0 {
        let kids = slots_of(body);
        let low = (h - 1) as nat;
        assert forall|i: int| 0 <= i < kids.len() implies node(a, #[trigger] kids[i], low) && (
        kids[i].spec_cell() matches Some(d) && b.has(d)) by {
            assert(node(a, kids[i], low));
            lemma_child_ref(body, i);
            let d = kids[i].spec_cell()->Some_0;
            lemma_ref_live(b, c, d);
        }
        lemma_keep_live_all(a, b, kids, low);
        assert forall|i: int| 0 <= i < kids.len() implies #[trigger] body.data[1 + i] == elems_all(
            b,
            kids.take(i + 1),
            low,
        ).len() by {
            assert forall|j: int| 0 <= j < kids.take(i + 1).len() implies node(
                a,
                #[trigger] kids.take(i + 1)[j],
                low,
            ) && (kids.take(i + 1)[j].spec_cell() matches Some(d) && b.has(d)) by {
                assert(kids.take(i + 1)[j] == kids[j]);
            }
            lemma_keep_live_all(a, b, kids.take(i + 1), low);
        }
    }
}

pub proof fn lemma_keep_live_all(a: Record, b: Record, vs: Seq<Value>, h: nat)
    requires
        b.shaped(),
        keeps(a, b),
        forall|i: int|
            0 <= i < vs.len() ==> node(a, #[trigger] vs[i], h) && (vs[i].spec_cell() matches Some(c)
                && b.has(c)),
    ensures
        nodes(b, vs, h),
        elems_all(b, vs, h) == elems_all(a, vs, h),
    decreases h, vs.len() + 1,
{
    if vs.len() > 0 {
        let init = vs.drop_last();
        assert forall|i: int| 0 <= i < init.len() implies node(a, #[trigger] init[i], h) && (
        init[i].spec_cell() matches Some(c) && b.has(c)) by {
            assert(init[i] == vs[i]);
        }
        lemma_keep_live_all(a, b, init, h);
        assert(node(a, vs[vs.len() - 1], h));
        lemma_keep_live(a, b, vs.last(), h);
        assert forall|i: int| 0 <= i < vs.len() implies node(b, #[trigger] vs[i], h) by {
            if i < init.len() {
                assert(node(b, init[i], h));
            }
        }
    }
}

/// A branch or leaf refers to the cells its slots name.
pub proof fn lemma_child_ref(b: Body, i: int)
    requires
        b.kind is ArrayBranch && b.data.len() == 1 + 2 * child_count(b) && child_count(b) >= 1
            || b.kind is ArrayLeaf,
        0 <= i < slots_of(b).len(),
    ensures
        slots_of(b)[i].spec_cell() matches Some(d) ==> b.refs().contains(d),
        b.held().contains(slots_of(b)[i].bits),
        b.held() == value_words(slots_of(b)),
{
    assert(b.held() =~= value_words(slots_of(b)));
    assert(b.held()[i] == slots_of(b)[i].bits);
    if slots_of(b)[i].spec_cell() is Some {
        lemma_cells_at(b.held(), i);
    }
}

pub proof fn lemma_elems_add(r: Record, a: Seq<Value>, b: Seq<Value>, h: nat)
    ensures
        elems_all(r, a + b, h) == elems_all(r, a, h) + elems_all(r, b, h),
    decreases b.len(),
{
    if b.len() == 0 {
        assert(a + b =~= a);
        assert(elems_all(r, a, h) + elems_all(r, b, h) =~= elems_all(r, a, h));
    } else {
        lemma_elems_add(r, a, b.drop_last(), h);
        assert((a + b).drop_last() =~= a + b.drop_last());
        assert((a + b).last() == b.last());
        assert(elems_all(r, a + b, h) =~= elems_all(r, a, h) + elems_all(r, b, h));
    }
}

pub proof fn lemma_elems_one(r: Record, v: Value, h: nat)
    ensures
        elems_all(r, seq![v], h) == elems(r, v, h),
{
    assert(seq![v].drop_last() =~= Seq::empty());
    assert(elems_all(r, Seq::<Value>::empty(), h) =~= Seq::empty());
    assert(seq![v].last() == v);
    assert(elems_all(r, seq![v], h) =~= elems(r, v, h));
}

/// A node has elements, and at most 32 slots.
pub proof fn lemma_node(r: Record, v: Value, h: nat)
    requires
        node(r, v, h),
    ensures
        elems(r, v, h).len() >= 1,
        1 <= slots(r, v).len() <= 32,
        h > 0 ==> nodes(r, slots(r, v), (h - 1) as nat),
        h > 0 ==> elems(r, v, h) == elems_all(r, slots(r, v), (h - 1) as nat),
        h == 0 ==> elems(r, v, h) == slots(r, v),
        r.has(v.spec_cell()->Some_0),
    decreases h, 0nat,
{
    if h > 0 {
        let kids = slots(r, v);
        lemma_nodes(r, kids, (h - 1) as nat);
    }
}

pub proof fn lemma_nodes(r: Record, vs: Seq<Value>, h: nat)
    requires
        nodes(r, vs, h),
    ensures
        elems_all(r, vs, h).len() >= vs.len(),
    decreases h, vs.len() + 1,
{
    if vs.len() > 0 {
        let init = vs.drop_last();
        assert forall|i: int| 0 <= i < init.len() implies node(r, #[trigger] init[i], h) by {
            assert(node(r, vs[i], h));
        }
        lemma_nodes(r, init, h);
        assert(node(r, vs[vs.len() - 1], h));
        lemma_node(r, vs.last(), h);
    }
}

/// Elements of a live leaf are values of live cells.
pub proof fn lemma_items_live(r: Record, v: Value)
    requires
        r.shaped(),
        node(r, v, 0),
    ensures
        all_ok(slots(r, v)),
        all_live(r, slots(r, v)),
{
    let c = v.spec_cell()->Some_0;
    let b = r.cells[c];
    assert(r.has(c));
    let vs = slots_of(b);
    assert forall|i: int| 0 <= i < vs.len() implies (#[trigger] vs[i]).ok() && live(r, vs[i]) by {
        lemma_child_ref(b, i);
        assert(canonical(b.held()[i]));
        if vs[i].spec_cell() is Some {
            lemma_ref_live(r, c, vs[i].spec_cell()->Some_0);
        }
    }
}

/// A value's cell, if it has one, is there.
pub open spec fn live(r: Record, v: Value) -> bool {
    v.spec_cell() matches Some(c) ==> r.has(c)
}

pub open spec fn all_live(r: Record, vs: Seq<Value>) -> bool {
    forall|i: int| 0 <= i < vs.len() ==> live(r, #[trigger] vs[i])
}

/// Nodes are live values.
pub proof fn lemma_nodes_live(r: Record, vs: Seq<Value>, h: nat)
    requires
        nodes(r, vs, h),
    ensures
        all_ok(vs),
        all_live(r, vs),
{
    assert forall|i: int| 0 <= i < vs.len() implies (#[trigger] vs[i]).ok() && live(r, vs[i]) by {
        assert(node(r, vs[i], h));
    }
}

/// The elements under nodes of a live array are values of live cells.
pub proof fn lemma_elems_live(r: Record, v: Value, h: nat)
    requires
        r.shaped(),
        node(r, v, h),
    ensures
        all_ok(elems(r, v, h)),
        all_live(r, elems(r, v, h)),
    decreases h, 0nat,
{
    if h == 0 {
        lemma_items_live(r, v);
    } else {
        lemma_node(r, v, h);
        lemma_elems_all_live(r, slots(r, v), (h - 1) as nat);
    }
}

pub proof fn lemma_elems_all_live(r: Record, vs: Seq<Value>, h: nat)
    requires
        r.shaped(),
        nodes(r, vs, h),
    ensures
        all_ok(elems_all(r, vs, h)),
        all_live(r, elems_all(r, vs, h)),
    decreases h, vs.len() + 1,
{
    if vs.len() > 0 {
        let init = vs.drop_last();
        assert forall|i: int| 0 <= i < init.len() implies node(r, #[trigger] init[i], h) by {
            assert(node(r, vs[i], h));
        }
        lemma_elems_all_live(r, init, h);
        assert(node(r, vs[vs.len() - 1], h));
        lemma_elems_live(r, vs.last(), h);
        let a = elems_all(r, init, h);
        let b = elems(r, vs.last(), h);
        assert forall|i: int| 0 <= i < (a + b).len() implies (#[trigger] (a + b)[i]).ok() && live(
            r,
            (a + b)[i],
        ) by {
            if i < a.len() {
                assert(a[i].ok() && live(r, a[i]));
            } else {
                assert(b[i - a.len()].ok() && live(r, b[i - a.len()]));
            }
        }
    }
}

/// What was there stays there while the outside still refers to what it did:
/// every root of `a` is in `b`, and cells in both are as they were.
pub proof fn lemma_still_live(a: Record, b: Record)
    requires
        a.ok(),
        b.ok(),
        keeps(a, b),
        forall|c: Cell| #[trigger] a.ext.count(c) > 0 ==> b.has(c),
    ensures
        part_of(a, b),
{
    assert forall|c: Cell| #[trigger] a.has(c) implies b.has(c) && a.cells[c] == b.cells[c] by {
        lemma_still_there(a, b, c, (a.clock - a.rank[c]) as nat);
    }
}

proof fn lemma_still_there(a: Record, b: Record, c: Cell, n: nat)
    requires
        a.ok(),
        b.ok(),
        keeps(a, b),
        forall|c: Cell| #[trigger] a.ext.count(c) > 0 ==> b.has(c),
        a.has(c),
        n == a.clock - a.rank[c],
    ensures
        b.has(c),
    decreases n,
{
    assert(a.counts[c] == a.references(c));
    if a.ext.count(c) == 0 {
        let i = lemma_some_referrer(a.order, a.cells, c);
        let d = a.order[i];
        assert(a.order.contains(d));
        assert(a.has(d));
        lemma_ref_live(a, d, c);
        lemma_still_there(a, b, d, (a.clock - a.rank[d]) as nat);
        assert(b.cells[d] == a.cells[d]);
        lemma_ref_live(b, d, c);
    }
}

/// A cell that is referred to has a listed cell that refers to it.
proof fn lemma_some_referrer(order: Seq<Cell>, cells: Map<Cell, Body>, c: Cell) -> (i: int)
    requires
        total(order, cells).count(c) > 0,
    ensures
        0 <= i < order.len(),
        cells[order[i]].refs().contains(c),
    decreases order.len(),
{
    let last = order.len() - 1;
    let refs = cells[order.last()].refs();
    refs.to_multiset_ensures();
    if refs.to_multiset().count(c) > 0 {
        assert(refs.contains(c));
        last
    } else {
        let i = lemma_some_referrer(order.drop_last(), cells, c);
        assert(order.drop_last()[i] == order[i]);
        i
    }
}

/// The reference that a value holds.
pub open spec fn handle(v: Value) -> Multiset<Cell> {
    match v.spec_cell() {
        Some(c) => Multiset::singleton(c),
        None => Multiset::empty(),
    }
}

pub proof fn lemma_handles_add(a: Seq<Value>, b: Seq<Value>)
    ensures
        handles(a + b) == handles(a).add(handles(b)),
{
    assert(value_words(a + b) =~= value_words(a) + value_words(b));
    lemma_cells_add(value_words(a), value_words(b));
    let x = cells_in(value_words(a));
    let y = cells_in(value_words(b));
    lemma_multiset_add(x, y);
}

pub proof fn lemma_multiset_add(a: Seq<Cell>, b: Seq<Cell>)
    ensures
        (a + b).to_multiset() == a.to_multiset().add(b.to_multiset()),
    decreases b.len(),
{
    if b.len() == 0 {
        assert(a + b =~= a);
        b.to_multiset_ensures();
        assert(b.to_multiset() =~= Multiset::empty());
        assert(a.to_multiset().add(b.to_multiset()) =~= a.to_multiset());
    } else {
        lemma_multiset_add(a, b.drop_last());
        assert(a + b =~= (a + b.drop_last()).push(b.last()));
        assert(b =~= b.drop_last().push(b.last()));
        (a + b.drop_last()).to_multiset_ensures();
        b.drop_last().to_multiset_ensures();
        assert((a + b).to_multiset() =~= a.to_multiset().add(b.to_multiset()));
    }
}

pub proof fn lemma_handle_one(v: Value)
    ensures
        handles(seq![v]) == handle(v),
{
    let ws = value_words(seq![v]);
    assert(ws =~= seq![v.bits]);
    assert(ws.drop_last() =~= Seq::empty());
    assert(cells_in(Seq::<u64>::empty()) =~= Seq::empty());
    assert(Value { bits: ws.last() } == v);
    match v.spec_cell() {
        Some(c) => {
            assert(cells_in(ws) =~= seq![c]);
            Seq::<Cell>::empty().to_multiset_ensures();
            assert(seq![c] =~= Seq::<Cell>::empty().push(c));
            assert(Seq::<Cell>::empty().to_multiset() =~= Multiset::empty());
            assert(seq![c].to_multiset() =~= Multiset::singleton(c));
        },
        None => {
            assert(cells_in(ws) =~= Seq::empty());
            Seq::<Cell>::empty().to_multiset_ensures();
            assert(Seq::<Cell>::empty().to_multiset() =~= Multiset::empty());
        },
    }
}

pub proof fn lemma_no_handles()
    ensures
        handles(Seq::<Value>::empty()) == Multiset::<Cell>::empty(),
{
    assert(value_words(Seq::<Value>::empty()) =~= Seq::empty());
    assert(cells_in(Seq::<u64>::empty()) =~= Seq::empty());
    Seq::<Cell>::empty().to_multiset_ensures();
    assert(Seq::<Cell>::empty().to_multiset() =~= Multiset::empty());
}

/// Only references were added.
pub open spec fn owning(a: Record, b: Record, more: Multiset<Cell>) -> bool {
    &&& part_of(a, b)
    &&& part_of(b, a)
    &&& b.cells == a.cells
    &&& b.order == a.order
    &&& b.rank == a.rank
    &&& b.clock == a.clock
    &&& b.ext == a.ext.add(more)
}

/// Add a reference to a value's cell, if it has one. A cell with as many
/// references as can be counted is a full heap.
pub(crate) fn own(heap: &mut Heap, v: Value) -> (r: Result<(), Full>)
    requires
        old(heap).wf(),
        live(old(heap).record(), v),
    ensures
        r is Err ==> final(heap).full(),
        final(heap).wf(),
        sound(old(heap).record()) ==> sound(final(heap).record()),
        r is Ok ==> owning(old(heap).record(), final(heap).record(), handle(v)),
        r is Err ==> final(heap).record() == old(heap).record(),
{
    match v.as_cell() {
        Some(c) => {
            if heap.count(c) >= u32::MAX as u64 {
                return Err(Full);
            }
            heap.share(c);
            proof {
                assert(heap.record().ext =~= old(heap).record().ext.add(handle(v)));
                if sound(old(heap).record()) {
                    lemma_sound_part(old(heap).record(), heap.record());
                }
            }
        },
        None => {
            proof {
                assert(old(heap).record().ext =~= old(heap).record().ext.add(handle(v)));
            }
        },
    }
    Ok(())
}

/// Add a reference for each of the values.
pub(crate) fn own_all(heap: &mut Heap, vs: &[Value]) -> (r: Result<(), Full>)
    requires
        old(heap).wf(),
        all_live(old(heap).record(), vs@),
    ensures
        r is Err ==> final(heap).full(),
        final(heap).wf(),
        sound(old(heap).record()) ==> sound(final(heap).record()),
        r is Ok ==> owning(old(heap).record(), final(heap).record(), handles(vs@)),
        r is Err ==> part_of(old(heap).record(), final(heap).record()),
{
    let ghost first = heap.record();
    let mut i: usize = 0;
    proof {
        lemma_no_handles();
        assert(vs@.take(0) =~= Seq::empty());
        assert(first.ext.add(Multiset::empty()) =~= first.ext);
    }
    while i < vs.len()
        invariant
            i <= vs@.len(),
            heap.wf(),
            sound(old(heap).record()) ==> sound(heap.record()),
            first == old(heap).record(),
            all_live(first, vs@),
            owning(first, heap.record(), handles(vs@.take(i as int))),
        decreases vs@.len() - i,
    {
        proof {
            assert(live(first, vs@[i as int]));
            assert(vs@.take(i + 1) =~= vs@.take(i as int) + seq![vs@[i as int]]);
            lemma_handles_add(vs@.take(i as int), seq![vs@[i as int]]);
            lemma_handle_one(vs@[i as int]);
        }
        own(heap, vs[i])?;
        proof {
            assert(heap.record().ext =~= first.ext.add(handles(vs@.take(i + 1))));
        }
        i += 1;
    }
    proof {
        assert(vs@.take(i as int) =~= vs@);
    }
    Ok(())
}

/// Give up a value's reference, if it holds one.
pub(crate) fn give_up(heap: &mut Heap, v: Value)
    requires
        old(heap).wf(),
        handle(v).subset_of(old(heap).record().ext),
    ensures
        final(heap).wf(),
        sound(old(heap).record()) ==> sound(final(heap).record()),
        final(heap).record().ext == old(heap).record().ext.sub(handle(v)),
        part_of(final(heap).record(), old(heap).record()),
        keeps(old(heap).record(), final(heap).record()),
{
    match v.as_cell() {
        Some(c) => {
            proof {
                assert(handle(v).count(c) == 1);
                assert(heap.record().ext.count(c) > 0);
            }
            heap.release(c);
            proof {
                assert(heap.record().ext =~= old(heap).record().ext.sub(handle(v)));
                heap.lemma_record_ok();
                if sound(old(heap).record()) {
                    lemma_sound_release(old(heap).record(), heap.record());
                }
            }
        },
        None => {
            proof {
                assert(old(heap).record().ext.sub(handle(v)) =~= old(heap).record().ext);
            }
        },
    }
}

/// A new node whose cell took over references.
pub open spec fn built(a: Record, b: Record, used: Multiset<Cell>, v: Value) -> bool {
    &&& part_of(a, b)
    &&& v.ok()
    &&& v.spec_cell() is Some
    &&& b.ext == a.ext.sub(used).add(handle(v))
}

/// The words of values.
fn words_of(first: Vec<u64>, vs: &[Value]) -> (r: Vec<u64>)
    ensures
        r@ == first@ + value_words(vs@),
{
    let ghost base = first@;
    let ghost ws = value_words(vs@);
    let mut out = first;
    let mut i: usize = 0;
    proof {
        assert(out@ =~= base + ws.take(0));
    }
    while i < vs.len()
        invariant
            i <= vs@.len(),
            ws == value_words(vs@),
            out@ == base + ws.take(i as int),
        decreases vs@.len() - i,
    {
        out.push(vs[i].bits);
        proof {
            assert(ws.take(i + 1) =~= ws.take(i as int).push(ws[i as int]));
            assert(out@ =~= base + ws.take(i + 1));
        }
        i += 1;
    }
    proof {
        assert(ws.take(i as int) =~= ws);
    }
    out
}

/// A leaf of `items`, whose references pass to it.
pub(crate) fn leaf(heap: &mut Heap, items: &[Value]) -> (r: Result<Value, Full>)
    requires
        old(heap).wf(),
        1 <= items@.len() <= 32,
        all_ok(items@),
        handles(items@).subset_of(old(heap).record().ext),
    ensures
        r is Err ==> final(heap).full(),
        final(heap).wf(),
        sound(old(heap).record()) ==> sound(final(heap).record()),
        match r {
            Ok(v) => {
                &&& built(old(heap).record(), final(heap).record(), handles(items@), v)
                &&& node(final(heap).record(), v, 0)
                &&& elems(final(heap).record(), v, 0) == items@
            },
            Err(_) => final(heap).record() == old(heap).record(),
        },
{
    let ghost first = heap.record();
    let data = words_of(Vec::new(), items);
    let ghost b = Body { kind: Kind::ArrayLeaf, data: data@ };
    proof {
        assert(data@ =~= value_words(items@));
        assert(b.held() =~= value_words(items@));
        assert forall|i: int| 0 <= i < b.held().len() implies canonical(#[trigger] b.held()[i]) by {
            assert(items@[i].ok());
        }
        assert(slots_of(b) =~= items@);
    }
    let c = heap.make(Kind::ArrayLeaf, data.as_slice())?;
    let v = Value::cell(c);
    proof {
        assert(heap.record().cells[c] == b);
        assert(heap.record().ext =~= first.ext.sub(handles(items@)).add(handle(v)));
        assert forall|d: Cell| #[trigger] first.has(d) implies heap.record().has(d)
            && first.cells[d] == heap.record().cells[d] by {}
        if sound(first) {
            lemma_sound_part(first, heap.record());
        }
    }
    Ok(v)
}

/// The slots of a node.
pub(crate) fn node_slots(heap: &Heap, v: Value, Ghost(h): Ghost<nat>) -> (r: Vec<Value>)
    requires
        heap.wf(),
        node(heap.record(), v, h),
    ensures
        r@ == slots(heap.record(), v),
        1 <= r@.len() <= 32,
{
    let ghost rec = heap.record();
    proof {
        lemma_node(rec, v, h);
    }
    match v.as_cell() {
        Some(c) => {
            let ghost b = rec.cells[c];
            let n = heap.len(c);
            let from: usize = if heap.kind(c) == Kind::ArrayLeaf {
                0
            } else {
                1 + (n - 1) / 2
            };
            let mut out: Vec<Value> = Vec::new();
            let mut i: usize = from;
            while i < n
                invariant
                    from <= i <= n,
                    heap.wf(),
                    rec == heap.record(),
                    rec.has(c),
                    b == rec.cells[c],
                    n == b.data.len(),
                    b.kind is ArrayLeaf && from == 0 || b.kind is ArrayBranch && from == 1
                        + child_count(b) && n == 1 + 2 * child_count(b),
                    out@ == slots_of(b).take(i - from),
                decreases n - i,
            {
                out.push(Value::from_bits(heap.get(c, i)));
                proof {
                    let k = i - from;
                    assert(slots_of(b).take(k + 1) =~= slots_of(b).take(k).push(slots_of(b)[k]));
                }
                i += 1;
            }
            proof {
                assert(slots_of(b).take(n - from) =~= slots_of(b));
            }
            out
        },
        None => vstd::pervasive::unreached(),
    }
}

/// Elements under a node, or none for `Nil`.
pub(crate) fn node_len(heap: &Heap, v: Value, Ghost(h): Ghost<nat>) -> (r: usize)
    requires
        heap.wf(),
        v.spec_view() is Nil || node(heap.record(), v, h),
        elems(heap.record(), v, h).len() <= usize::MAX,
    ensures
        r == elems(heap.record(), v, h).len(),
{
    let ghost rec = heap.record();
    match v.as_cell() {
        None => 0,
        Some(c) => {
            proof {
                lemma_node(rec, v, h);
            }
            let n = heap.len(c);
            if heap.kind(c) == Kind::ArrayLeaf {
                n
            } else {
                let k: usize = (n - 1) / 2;
                proof {
                    let kids = slots_of(rec.cells[c]);
                    assert(kids.take(k as int) =~= kids);
                    assert(rec.cells[c].data[1 + (k - 1)] == elems_all(
                        rec,
                        kids.take(k as int),
                        (h - 1) as nat,
                    ).len());
                }
                heap.get(c, k) as usize
            }
        },
    }
}

/// A branch over `children`, whose references pass to it.
pub(crate) fn branch(
    heap: &mut Heap,
    shift: usize,
    children: &[Value],
    Ghost(h): Ghost<nat>,
) -> (r: Result<Value, Full>)
    requires
        old(heap).wf(),
        shift == 5 * (h + 1),
        1 <= children@.len() <= 32,
        nodes(old(heap).record(), children@, h),
        handles(children@).subset_of(old(heap).record().ext),
        elems_all(old(heap).record(), children@, h).len() <= usize::MAX,
    ensures
        r is Err ==> final(heap).full(),
        final(heap).wf(),
        sound(old(heap).record()) ==> sound(final(heap).record()),
        match r {
            Ok(v) => {
                &&& built(old(heap).record(), final(heap).record(), handles(children@), v)
                &&& node(final(heap).record(), v, h + 1)
                &&& elems(final(heap).record(), v, h + 1) == elems_all(
                    old(heap).record(),
                    children@,
                    h,
                )
                &&& slots(final(heap).record(), v) == children@
            },
            Err(_) => final(heap).record() == old(heap).record(),
        },
{
    let ghost first = heap.record();
    let n: usize = children.len();
    let mut data: Vec<u64> = Vec::new();
    data.push(shift as u64);
    let mut total: usize = 0;
    let mut i: usize = 0;
    proof {
        assert(children@.take(0) =~= Seq::empty());
    }
    while i < n
        invariant
            i <= n,
            n == children@.len(),
            heap.wf(),
            heap.record() == first,
            nodes(first, children@, h),
            elems_all(first, children@, h).len() <= usize::MAX,
            data@.len() == 1 + i,
            data@[0] == shift,
            total == elems_all(first, children@.take(i as int), h).len(),
            forall|j: int|
                0 <= j < i ==> #[trigger] data@[1 + j] == elems_all(
                    first,
                    children@.take(j + 1),
                    h,
                ).len(),
        decreases n - i,
    {
        proof {
            assert(node(first, children@[i as int], h));
            assert(children@.take(i + 1).drop_last() =~= children@.take(i as int));
            assert(children@.take(i + 1).last() == children@[i as int]);
            assert(children@ =~= children@.take(i + 1) + children@.skip(i + 1));
            lemma_elems_add(first, children@.take(i + 1), children@.skip(i + 1), h);
        }
        total = total + node_len(heap, children[i], Ghost(h));
        let ghost before = data@;
        data.push(total as u64);
        proof {
            assert forall|j: int| 0 <= j < i + 1 implies #[trigger] data@[1 + j] == elems_all(
                first,
                children@.take(j + 1),
                h,
            ).len() by {
                if j < i {
                    assert(data@[1 + j] == before[1 + j]);
                }
            }
        }
        i += 1;
    }
    let ghost sizes = data@;
    let data = words_of(data, children);
    let ghost b = Body { kind: Kind::ArrayBranch, data: data@ };
    proof {
        lemma_nodes_live(first, children@, h);
        assert(b.data.len() == 1 + 2 * n);
        assert(child_count(b) == n);
        assert(slots_of(b) =~= children@);
        assert(b.held() =~= value_words(children@));
        assert forall|j: int| 0 <= j < b.held().len() implies canonical(#[trigger] b.held()[j]) by {
            assert(children@[j].ok());
        }
    }
    let c = heap.make(Kind::ArrayBranch, data.as_slice())?;
    let v = Value::cell(c);
    proof {
        let now = heap.record();
        assert(now.cells[c] == b);
        assert(now.ext =~= first.ext.sub(handles(children@)).add(handle(v)));
        assert forall|d: Cell| #[trigger] first.has(d) implies now.has(d) && first.cells[d]
            == now.cells[d] by {}
        lemma_keep_all(first, now, children@, h);
        assert forall|j: int| 0 <= j < n implies #[trigger] b.data[1 + j] == elems_all(
            now,
            slots_of(b).take(j + 1),
            h,
        ).len() by {
            assert(sizes[1 + j] == b.data[1 + j]);
            let part = children@.take(j + 1);
            assert forall|k: int| 0 <= k < part.len() implies node(first, #[trigger] part[k], h) by {
                assert(node(first, children@[k], h));
            }
            lemma_keep_all(first, now, part, h);
        }
        assert forall|j: int| 0 <= j < n implies node(now, #[trigger] slots_of(b)[j], h) by {
            assert(node(now, children@[j], h));
        }
        if sound(first) {
            lemma_sound_part(first, now);
        }
    }
    Ok(v)
}

/// Which child of a branch holds an element, and how many elements the children
/// before that one hold.
pub struct Slot {
    pub child: usize,
    pub before: usize,
}

/// The slot of element `idx` in a branch. The scan starts at the radix guess.
pub(crate) fn size_slot(heap: &Heap, v: Value, idx: usize, Ghost(h): Ghost<nat>) -> (r: Slot)
    requires
        heap.wf(),
        h > 0,
        node(heap.record(), v, h),
        idx < elems(heap.record(), v, h).len(),
        elems(heap.record(), v, h).len() <= usize::MAX,
    ensures
        ({
            let rec = heap.record();
            let kids = slots(rec, v);
            let low = (h - 1) as nat;
            &&& r.child < kids.len()
            &&& r.before == elems_all(rec, kids.take(r.child as int), low).len()
            &&& r.before <= idx
            &&& idx - r.before < elems(rec, kids[r.child as int], low).len()
        }),
{
    let ghost rec = heap.record();
    let ghost kids = slots(rec, v);
    let ghost low = (h - 1) as nat;
    proof {
        lemma_node(rec, v, h);
    }
    let c = match v.as_cell() {
        Some(c) => c,
        None => vstd::pervasive::unreached(),
    };
    let ghost b = rec.cells[c];
    let n: usize = (heap.len(c) - 1) / 2;
    let shift = heap.get(c, 0);
    let guess: usize = if shift < 32 {
        idx >> (shift as usize)
    } else {
        0
    };
    let mut k: usize = if guess < n && (guess == 0 || heap.get(c, guess) as usize <= idx) {
        guess
    } else {
        0
    };
    proof {
        if k > 0 {
            assert(b.data[1 + (k - 1)] == elems_all(rec, kids.take(k as int), low).len());
            lemma_prefix_len(rec, kids, k as int, low);
        }
        assert(kids.take(0) =~= Seq::empty());
    }
    while (heap.get(c, 1 + k) as usize) <= idx
        invariant
            k < n,
            n == kids.len(),
            heap.wf(),
            rec == heap.record(),
            rec.has(c),
            b == rec.cells[c],
            b.kind is ArrayBranch,
            kids == slots_of(b),
            b.data.len() == 1 + 2 * n,
            nodes(rec, kids, low),
            forall|i: int|
                0 <= i < n ==> #[trigger] b.data[1 + i] == elems_all(rec, kids.take(i + 1), low).len(),
            elems_all(rec, kids, low).len() <= usize::MAX,
            idx < elems_all(rec, kids, low).len(),
            elems_all(rec, kids.take(k as int), low).len() <= idx,
        decreases n - k,
    {
        proof {
            assert(b.data[1 + k] == elems_all(rec, kids.take(k + 1), low).len());
            lemma_prefix_len(rec, kids, k + 1, low);
            if k + 1 == n {
                assert(kids.take(n as int) =~= kids);
            }
        }
        k += 1;
    }
    proof {
        assert(b.data[1 + k] == elems_all(rec, kids.take(k + 1), low).len());
        lemma_prefix_len(rec, kids, k + 1, low);
        lemma_prefix_len(rec, kids, k as int, low);
        assert(kids.take(k + 1).drop_last() =~= kids.take(k as int));
        assert(kids.take(k + 1).last() == kids[k as int]);
        if k > 0 {
            assert(b.data[1 + (k - 1)] == elems_all(rec, kids.take(k as int), low).len());
        }
    }
    let before: usize = if k > 0 {
        heap.get(c, k) as usize
    } else {
        0
    };
    Slot { child: k, before }
}

/// A prefix of the children holds no more than all of them.
pub proof fn lemma_prefix_len(r: Record, vs: Seq<Value>, k: int, h: nat)
    requires
        0 <= k <= vs.len(),
    ensures
        elems_all(r, vs, h) == elems_all(r, vs.take(k), h) + elems_all(r, vs.skip(k), h),
        elems_all(r, vs.take(k), h).len() <= elems_all(r, vs, h).len(),
{
    assert(vs =~= vs.take(k) + vs.skip(k));
    lemma_elems_add(r, vs.take(k), vs.skip(k), h);
}

} // verus!
