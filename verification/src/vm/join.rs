//! Joining two trees: they are merged down the left one's right edge and the
//! right one's left edge, and each level is packed again when it would be too
//! loose.

use crate::vm::cells::{all_ok, handles};
use crate::vm::heap::{Full, Heap};
use crate::vm::nodes::{
    all_live, branch, built, elems, elems_all, give_up, handle, leaf, lemma_elems_add,
    lemma_elems_one, lemma_handle_one, lemma_handles_add, lemma_items_live, lemma_keep,
    lemma_keep_all, lemma_keep_live_all, lemma_no_handles, lemma_node, lemma_nodes_live,
    lemma_still_live, live, node, node_slots, nodes, own, own_all, owning, slots,
};
use crate::vm::record::{keeps, part_of, Record};
use crate::vm::rrb::{
    countable, lemma_total_add, lemma_total_high, optimal_nodes, plan, total, well_packed,
};
use crate::vm::tree::{joined, lemma_part_live, part};
use crate::vm::sound::sound;
use crate::vm::value::{Cell, Value};
use vstd::multiset::Multiset;
use vstd::prelude::*;

verus! {

/// The elements under the slots of nodes at height `h`.
pub open spec fn content(r: Record, items: Seq<Value>, h: nat) -> Seq<Value> {
    if h == 0 {
        items
    } else {
        elems_all(r, items, (h - 1) as nat)
    }
}

/// Slots that nodes at height `h` may have.
pub open spec fn contents(r: Record, items: Seq<Value>, h: nat) -> bool {
    if h == 0 {
        all_ok(items) && all_live(r, items)
    } else {
        nodes(r, items, (h - 1) as nat)
    }
}

proof fn lemma_content_add(r: Record, a: Seq<Value>, b: Seq<Value>, h: nat)
    ensures
        content(r, a + b, h) == content(r, a, h) + content(r, b, h),
{
    if h > 0 {
        lemma_elems_add(r, a, b, (h - 1) as nat);
    }
}

proof fn lemma_slots(r: Record, v: Value, h: nat)
    requires
        r.shaped(),
        node(r, v, h),
    ensures
        elems(r, v, h) == content(r, slots(r, v), h),
        contents(r, slots(r, v), h),
        1 <= slots(r, v).len() <= 32,
{
    lemma_node(r, v, h);
    if h == 0 {
        lemma_items_live(r, v);
    }
}

proof fn lemma_contents_part(r: Record, items: Seq<Value>, h: nat, from: int, to: int)
    requires
        contents(r, items, h),
        0 <= from <= to <= items.len(),
    ensures
        contents(r, items.subrange(from, to), h),
{
    let part = items.subrange(from, to);
    if h == 0 {
        lemma_part_live(r, items, from, to);
    } else {
        assert forall|i: int| 0 <= i < part.len() implies node(r, #[trigger] part[i], (h - 1) as nat) by {
            assert(node(r, items[from + i], (h - 1) as nat));
        }
    }
}

proof fn lemma_contents_add(r: Record, a: Seq<Value>, b: Seq<Value>, h: nat)
    requires
        contents(r, a, h),
        contents(r, b, h),
    ensures
        contents(r, a + b, h),
{
    let all = a + b;
    if h == 0 {
        assert forall|i: int| 0 <= i < all.len() implies (#[trigger] all[i]).ok() && live(r, all[i]) by {
            if i < a.len() {
                assert(a[i].ok() && live(r, a[i]));
            } else {
                assert(b[i - a.len()].ok() && live(r, b[i - a.len()]));
            }
        }
    } else {
        assert forall|i: int| 0 <= i < all.len() implies node(r, #[trigger] all[i], (h - 1) as nat) by {
            if i < a.len() {
                assert(node(r, a[i], (h - 1) as nat));
            } else {
                assert(node(r, b[i - a.len()], (h - 1) as nat));
            }
        }
    }
}

proof fn lemma_contents_keep(a: Record, b: Record, items: Seq<Value>, h: nat)
    requires
        part_of(a, b),
        contents(a, items, h),
    ensures
        contents(b, items, h),
        content(b, items, h) == content(a, items, h),
        all_live(a, items),
        all_live(b, items),
        all_ok(items),
{
    if h == 0 {
        assert forall|i: int| 0 <= i < items.len() implies live(b, #[trigger] items[i]) by {
            assert(live(a, items[i]));
        }
    } else {
        lemma_keep_all(a, b, items, (h - 1) as nat);
        lemma_nodes_live(a, items, (h - 1) as nat);
        lemma_nodes_live(b, items, (h - 1) as nat);
    }
}

/// How many slots nodes have together.
pub open spec fn slot_total(r: Record, vs: Seq<Value>) -> nat
    decreases vs.len(),
{
    if vs.len() == 0 {
        0
    } else {
        slots(r, vs[0]).len() + slot_total(r, vs.skip(1))
    }
}

/// The slots of nodes, in order.
pub open spec fn slots_all(r: Record, vs: Seq<Value>) -> Seq<Value>
    decreases vs.len(),
{
    if vs.len() == 0 {
        Seq::empty()
    } else {
        slots_all(r, vs.drop_last()) + slots(r, vs.last())
    }
}

proof fn lemma_slots_all_one(r: Record, v: Value)
    ensures
        slots_all(r, seq![v]) == slots(r, v),
{
    assert(seq![v].drop_last() =~= Seq::empty());
    assert(slots_all(r, Seq::<Value>::empty()) =~= Seq::empty());
    assert(slots_all(r, seq![v]) =~= slots(r, v));
}

/// One more node has its slots more, and the others keep theirs.
proof fn lemma_slots_out(a: Record, b: Record, out: Seq<Value>, v: Value, h: nat)
    requires
        part_of(a, b),
        nodes(a, out, h),
    ensures
        slot_total(b, out) == slot_total(a, out),
        slot_total(b, out + seq![v]) == slot_total(a, out) + slots(b, v).len(),
    decreases out.len(),
{
    let all = out + seq![v];
    if out.len() == 0 {
        assert(all.skip(1) =~= Seq::empty());
        assert(slot_total(b, all.skip(1)) == 0);
        assert(all[0] == v);
    } else {
        assert(node(a, out[0], h));
        lemma_keep(a, b, out[0], h);
        let more = out.skip(1);
        assert forall|i: int| 0 <= i < more.len() implies node(a, #[trigger] more[i], h) by {
            assert(node(a, out[i + 1], h));
        }
        lemma_slots_out(a, b, more, v, h);
        assert(all.skip(1) =~= more + seq![v]);
        assert(all[0] == out[0]);
    }
}

/// Nodes of a part have the same slots, and these theirs, in the whole.
proof fn lemma_slots_all_keep(a: Record, b: Record, vs: Seq<Value>, h: nat)
    requires
        a.shaped(),
        part_of(a, b),
        nodes(a, vs, h + 1),
    ensures
        slots_all(b, vs) == slots_all(a, vs),
        nodes(a, slots_all(a, vs), h),
        slot_total(b, slots_all(a, vs)) == slot_total(a, slots_all(a, vs)),
    decreases vs.len(),
{
    if vs.len() > 0 {
        let init = vs.drop_last();
        let v = vs.last();
        assert forall|i: int| 0 <= i < init.len() implies node(a, #[trigger] init[i], h + 1) by {
            assert(node(a, vs[i], h + 1));
        }
        lemma_slots_all_keep(a, b, init, h);
        assert(node(a, vs[vs.len() - 1], h + 1));
        lemma_keep(a, b, v, h + 1);
        lemma_slots(a, v, h + 1);
        let (xs, ys) = (slots_all(a, init), slots(a, v));
        assert forall|i: int| 0 <= i < (xs + ys).len() implies node(a, #[trigger] (xs + ys)[i], h) by {
            if i < xs.len() {
                assert(node(a, xs[i], h));
            } else {
                assert(node(a, ys[i - xs.len()], h));
            }
        }
    }
    let all = slots_all(a, vs);
    lemma_slots_out(a, b, all, all[0], h);
}

proof fn lemma_total_first(counts: Seq<usize>)
    requires
        counts.len() > 0,
    ensures
        total(counts) == counts[0] + total(counts.skip(1)),
{
    let one = seq![counts[0]];
    assert(counts =~= one + counts.skip(1));
    lemma_total_add(one, counts.skip(1));
    assert(one.drop_last() =~= Seq::empty());
    assert(total(one.drop_last()) == 0);
    assert(one.last() == counts[0]);
    assert(total(one) == counts[0]);
}

/// What is left of `old` from slot `off` of node `src` on.
spec fn rest(r: Record, old: Seq<Value>, src: int, off: int, h: nat) -> Seq<Value> {
    if src < old.len() {
        content(r, slots(r, old[src]).skip(off), h) + elems_all(r, old.skip(src + 1), h)
    } else {
        Seq::empty()
    }
}

/// How many slots are left.
spec fn left(r: Record, old: Seq<Value>, src: int, off: int) -> int {
    slot_total(r, old.skip(src)) - off
}

/// A place in `old`.
spec fn place(r: Record, old: Seq<Value>, src: int, off: int) -> bool {
    &&& 0 <= src <= old.len()
    &&& 0 <= off
    &&& src < old.len() ==> off < slots(r, old[src]).len()
    &&& src == old.len() ==> off == 0
}

/// At the end of a node, the next one begins.
proof fn lemma_next(r: Record, old: Seq<Value>, src: int, h: nat)
    requires
        r.shaped(),
        nodes(r, old, h),
        0 <= src < old.len(),
    ensures
        rest(r, old, src, slots(r, old[src]).len() as int, h) == rest(r, old, src + 1, 0, h),
        left(r, old, src, slots(r, old[src]).len() as int) == left(r, old, src + 1, 0),
        rest(r, old, src, 0, h) == elems(r, old[src], h) + rest(r, old, src + 1, 0, h),
        place(r, old, src + 1, 0),
        left(r, old, src, 0) == slots(r, old[src]).len() + left(r, old, src + 1, 0),
{
    assert(node(r, old[src], h));
    lemma_slots(r, old[src], h);
    let s = slots(r, old[src]);
    assert(s.skip(s.len() as int) =~= Seq::empty());
    assert(s.skip(0) =~= s);
    if h > 0 {
        assert(elems_all(r, Seq::<Value>::empty(), (h - 1) as nat) =~= Seq::empty());
    }
    assert(content(r, s.skip(s.len() as int), h) =~= Seq::empty());
    assert(old.skip(src).skip(1) =~= old.skip(src + 1));
    assert(old.skip(src)[0] == old[src]);
    if src + 1 < old.len() {
        let next = old[src + 1];
        assert(node(r, next, h));
        lemma_slots(r, next, h);
        assert(slots(r, next).skip(0) =~= slots(r, next));
        let tail = old.skip(src + 1);
        assert(tail =~= seq![next] + old.skip(src + 2));
        lemma_elems_add(r, seq![next], old.skip(src + 2), h);
        lemma_elems_one(r, next, h);
    } else {
        assert(old.skip(src + 1) =~= Seq::empty());
        assert(elems_all(r, Seq::<Value>::empty(), h) =~= Seq::empty());
    }
    assert(rest(r, old, src, s.len() as int, h) =~= rest(r, old, src + 1, 0, h));
    assert(rest(r, old, src, 0, h) =~= elems(r, old[src], h) + rest(r, old, src + 1, 0, h));
}

/// Slots taken from old nodes, and the place after them.
struct Poured {
    slots: Vec<Value>,
    src: usize,
    off: usize,
}

/// The next `want` slots of `old` from a place on, each with a reference.
#[verifier::rlimit(40)]
fn pour(
    heap: &mut Heap,
    old_nodes: &[Value],
    from: usize,
    at: usize,
    want: usize,
    Ghost(first): Ghost<Record>,
    Ghost(h): Ghost<nat>,
) -> (r: Result<Poured, Full>)
    requires
        old(heap).wf(),
        first.shaped(),
        part_of(first, old(heap).record()),
        nodes(first, old_nodes@, h),
        place(first, old_nodes@, from as int, at as int),
        want <= left(first, old_nodes@, from as int, at as int),
    ensures
        r is Err ==> final(heap).full(),
        final(heap).wf(),
        sound(old(heap).record()) ==> sound(final(heap).record()),
        part_of(old(heap).record(), final(heap).record()),
        r matches Ok(p) ==> {
            &&& owning(old(heap).record(), final(heap).record(), handles(p.slots@))
            &&& p.slots@.len() == want
            &&& contents(first, p.slots@, h)
            &&& place(first, old_nodes@, p.src as int, p.off as int)
            &&& left(first, old_nodes@, p.src as int, p.off as int) == left(
                first,
                old_nodes@,
                from as int,
                at as int,
            ) - want
            &&& content(first, p.slots@, h) + rest(
                first,
                old_nodes@,
                p.src as int,
                p.off as int,
                h,
            ) == rest(first, old_nodes@, from as int, at as int, h)
        },
{
    let ghost start = heap.record();
    let ghost all = rest(first, old_nodes@, from as int, at as int, h);
    let mut buf: Vec<Value> = Vec::new();
    let mut src: usize = from;
    let mut off: usize = at;
    proof {
        lemma_no_handles();
        assert(start.ext.add(Multiset::empty()) =~= start.ext);
        if h > 0 {
            assert(elems_all(first, Seq::<Value>::empty(), (h - 1) as nat) =~= Seq::empty());
        }
        assert(content(first, Seq::<Value>::empty(), h) =~= Seq::empty());
        assert(Seq::<Value>::empty() + all =~= all);
    }
    while buf.len() < want
        invariant
            heap.wf(),
            sound(old(heap).record()) ==> sound(heap.record()),
            start == old(heap).record(),
            first.shaped(),
            part_of(first, start),
            nodes(first, old_nodes@, h),
            place(first, old_nodes@, src as int, off as int),
            buf@.len() <= want,
            left(first, old_nodes@, src as int, off as int) == left(
                first,
                old_nodes@,
                from as int,
                at as int,
            ) - buf@.len(),
            want <= left(first, old_nodes@, from as int, at as int),
            contents(first, buf@, h),
            content(first, buf@, h) + rest(first, old_nodes@, src as int, off as int, h) == all,
            owning(start, heap.record(), handles(buf@)),
        decreases want - buf@.len(),
    {
        let ghost now = heap.record();
        proof {
            if src == old_nodes@.len() {
                assert(old_nodes@.skip(src as int) =~= Seq::empty());
            }
            assert(src < old_nodes@.len());
            assert(node(first, old_nodes@[src as int], h));
            lemma_keep(first, now, old_nodes@[src as int], h);
            lemma_slots(first, old_nodes@[src as int], h);
        }
        let items = node_slots(heap, old_nodes[src], Ghost(h));
        let count: usize = items.len();
        let room: usize = want - buf.len();
        let take: usize = if room < count - off {
            room
        } else {
            count - off
        };
        let more = part(items.as_slice(), off, off + take);
        proof {
            lemma_contents_part(first, items@, h, off as int, off + take);
            lemma_contents_keep(first, now, more@, h);
            lemma_contents_add(first, buf@, more@, h);
            lemma_content_add(first, buf@, more@, h);
            lemma_handles_add(buf@, more@);
            let tail = items@.skip(off as int);
            assert(tail =~= more@ + items@.skip(off + take));
            lemma_content_add(first, more@, items@.skip(off + take), h);
        }
        own_all(heap, more.as_slice())?;
        buf = joined(buf.as_slice(), more.as_slice());
        proof {
            assert(heap.record().ext =~= start.ext.add(handles(buf@)));
            assert(content(first, buf@, h) + rest(
                first,
                old_nodes@,
                src as int,
                off + take,
                h,
            ) =~= all);
        }
        off = off + take;
        if off == count {
            proof {
                lemma_next(first, old_nodes@, src as int, h);
            }
            src = src + 1;
            off = 0;
        }
    }
    Ok(Poured { slots: buf, src, off })
}

/// A node of the slots that were poured for it.
fn poured_node(
    heap: &mut Heap,
    shift: usize,
    items: &[Value],
    Ghost(h): Ghost<nat>,
) -> (r: Result<Value, Full>)
    requires
        old(heap).wf(),
        shift == 5 * h,
        1 <= items@.len() <= 32,
        contents(old(heap).record(), items@, h),
        content(old(heap).record(), items@, h).len() <= usize::MAX,
        handles(items@).subset_of(old(heap).record().ext),
    ensures
        r is Err ==> final(heap).full(),
        final(heap).wf(),
        sound(old(heap).record()) ==> sound(final(heap).record()),
        part_of(old(heap).record(), final(heap).record()),
        r matches Ok(v) ==> {
            &&& built(old(heap).record(), final(heap).record(), handles(items@), v)
            &&& node(final(heap).record(), v, h)
            &&& elems(final(heap).record(), v, h) == content(old(heap).record(), items@, h)
            &&& slots(final(heap).record(), v) == items@
        },
{
    if shift == 0 {
        leaf(heap, items)
    } else {
        branch(heap, shift, items, Ghost((h - 1) as nat))
    }
}

/// The nodes `old_nodes`, one level down, built again to the slot counts in
/// `counts`, their slots streamed in order. A node whose count already
/// matches, and that starts where a node starts, is kept as it is.
fn repack(
    heap: &mut Heap,
    old_nodes: &[Value],
    counts: &[usize],
    shift: usize,
    Ghost(h): Ghost<nat>,
) -> (r: Result<Vec<Value>, Full>)
    requires
        old(heap).wf(),
        shift == 5 * h,
        nodes(old(heap).record(), old_nodes@, h),
        old_nodes@.len() > 0,
        countable(counts@),
        total(counts@) == slot_total(old(heap).record(), old_nodes@),
        elems_all(old(heap).record(), old_nodes@, h).len() <= usize::MAX,
    ensures
        r is Err ==> final(heap).full(),
        final(heap).wf(),
        sound(old(heap).record()) ==> sound(final(heap).record()),
        part_of(old(heap).record(), final(heap).record()),
        r matches Ok(out) ==> {
            &&& final(heap).record().ext == old(heap).record().ext.add(handles(out@))
            &&& out@.len() == counts@.len()
            &&& nodes(final(heap).record(), out@, h)
            &&& slot_total(final(heap).record(), out@) == total(counts@)
            &&& elems_all(final(heap).record(), out@, h) == elems_all(
                old(heap).record(),
                old_nodes@,
                h,
            )
        },
{
    let ghost first = heap.record();
    let ghost all = elems_all(first, old_nodes@, h);
    let mut out: Vec<Value> = Vec::new();
    let mut src: usize = 0;
    let mut off: usize = 0;
    let mut p: usize = 0;
    proof {
        heap.lemma_record_ok();
        lemma_no_handles();
        assert(first.ext.add(Multiset::empty()) =~= first.ext);
        assert(counts@.skip(0) =~= counts@);
        assert(old_nodes@.skip(0) =~= old_nodes@);
        assert(node(first, old_nodes@[0], h));
        lemma_slots(first, old_nodes@[0], h);
        assert(old_nodes@ =~= seq![old_nodes@[0]] + old_nodes@.skip(1));
        lemma_elems_add(first, seq![old_nodes@[0]], old_nodes@.skip(1), h);
        lemma_elems_one(first, old_nodes@[0], h);
        assert(slots(first, old_nodes@[0]).skip(0) =~= slots(first, old_nodes@[0]));
        assert(elems_all(first, Seq::<Value>::empty(), h) =~= Seq::empty());
        assert(Seq::<Value>::empty() + rest(first, old_nodes@, 0, 0, h) =~= all);
    }
    while p < counts.len()
        invariant
            heap.wf(),
            sound(old(heap).record()) ==> sound(heap.record()),
            first == old(heap).record(),
            first.shaped(),
            shift == 5 * h,
            part_of(first, heap.record()),
            nodes(first, old_nodes@, h),
            countable(counts@),
            p <= counts@.len(),
            out@.len() == p,
            place(first, old_nodes@, src as int, off as int),
            left(first, old_nodes@, src as int, off as int) == total(counts@.skip(p as int)),
            all == elems_all(first, old_nodes@, h),
            all.len() <= usize::MAX,
            nodes(heap.record(), out@, h),
            slot_total(heap.record(), out@) + total(counts@.skip(p as int)) == total(counts@),
            heap.record().ext == first.ext.add(handles(out@)),
            elems_all(heap.record(), out@, h) + rest(first, old_nodes@, src as int, off as int, h)
                == all,
        decreases counts@.len() - p,
    {
        let want = counts[p];
        let ghost now = heap.record();
        proof {
            lemma_total_first(counts@.skip(p as int));
            assert(counts@.skip(p as int).skip(1) =~= counts@.skip(p + 1));
            assert(1 <= counts@[p as int] <= 32);
            if src == old_nodes@.len() {
                assert(old_nodes@.skip(src as int) =~= Seq::empty());
            }
            assert(src < old_nodes@.len());
            assert(node(first, old_nodes@[src as int], h));
            lemma_keep(first, now, old_nodes@[src as int], h);
            lemma_slots(first, old_nodes@[src as int], h);
        }
        let ghost before = out@;
        let ghost rest0 = rest(first, old_nodes@, src as int, off as int, h);
        if off == 0 && node_slots(heap, old_nodes[src], Ghost(h)).len() == want {
            let v = old_nodes[src];
            own(heap, v)?;
            out.push(v);
            proof {
                let next = heap.record();
                lemma_keep(first, next, v, h);
                lemma_next(first, old_nodes@, src as int, h);
                lemma_out(now, next, before, v, h);
                lemma_slots_out(now, next, before, v, h);
                assert(out@ =~= before + seq![v]);
                assert(next.ext =~= first.ext.add(handles(out@)));
                assert(elems_all(next, out@, h) + rest(first, old_nodes@, src + 1, 0, h) =~= all);
            }
            src = src + 1;
        } else {
            let poured = pour(heap, old_nodes, src, off, want, Ghost(first), Ghost(h))?;
            let ghost mid = heap.record();
            proof {
                lemma_contents_keep(first, mid, poured.slots@, h);
                assert(handles(poured.slots@).subset_of(mid.ext));
                assert(all.len() == elems_all(now, before, h).len() + rest0.len());
            }
            let v = poured_node(heap, shift, poured.slots.as_slice(), Ghost(h))?;
            out.push(v);
            proof {
                let next = heap.record();
                lemma_out(now, next, before, v, h);
                lemma_slots_out(now, next, before, v, h);
                assert(out@ =~= before + seq![v]);
                assert(next.ext =~= first.ext.add(handles(out@)));
                assert(elems_all(next, out@, h) + rest(
                    first,
                    old_nodes@,
                    poured.src as int,
                    poured.off as int,
                    h,
                ) =~= all);
            }
            src = poured.src;
            off = poured.off;
        }
        p += 1;
    }
    proof {
        assert(counts@.skip(p as int) =~= Seq::empty());
        if src < old_nodes@.len() {
            assert(node(first, old_nodes@[src as int], h));
            assert(old_nodes@.skip(src as int)[0] == old_nodes@[src as int]);
        }
        assert(src == old_nodes@.len());
        assert(elems_all(heap.record(), out@, h) =~= all);
    }
    Ok(out)
}

/// One more node at the end.
pub proof fn lemma_out(a: Record, b: Record, out: Seq<Value>, v: Value, h: nat)
    requires
        part_of(a, b),
        nodes(a, out, h),
        node(b, v, h),
    ensures
        nodes(b, out + seq![v], h),
        elems_all(b, out + seq![v], h) == elems_all(a, out, h) + elems(b, v, h),
        handles(out + seq![v]) == handles(out).add(handle(v)),
{
    lemma_keep_all(a, b, out, h);
    lemma_elems_add(b, out, seq![v], h);
    lemma_elems_one(b, v, h);
    lemma_handles_add(out, seq![v]);
    lemma_handle_one(v);
    let all = out + seq![v];
    assert forall|i: int| 0 <= i < all.len() implies node(b, #[trigger] all[i], h) by {
        if i < out.len() {
            assert(node(b, out[i], h));
        }
    }
}

/// The slot counts of nodes.
fn slot_counts(heap: &Heap, vs: &[Value], Ghost(h): Ghost<nat>) -> (r: Vec<usize>)
    requires
        heap.wf(),
        nodes(heap.record(), vs@, h),
    ensures
        r@.len() == vs@.len(),
        countable(r@),
        total(r@) == slot_total(heap.record(), vs@),
{
    let ghost rec = heap.record();
    let mut out: Vec<usize> = Vec::new();
    let mut i: usize = 0;
    proof {
        assert(vs@.skip(0) =~= vs@);
    }
    while i < vs.len()
        invariant
            i <= vs@.len(),
            heap.wf(),
            rec == heap.record(),
            nodes(rec, vs@, h),
            out@.len() == i,
            countable(out@),
            total(out@) + slot_total(rec, vs@.skip(i as int)) == slot_total(rec, vs@),
        decreases vs@.len() - i,
    {
        proof {
            assert(node(rec, vs@[i as int], h));
            assert(vs@.skip(i as int).skip(1) =~= vs@.skip(i + 1));
            assert(vs@.skip(i as int)[0] == vs@[i as int]);
        }
        let ghost before = out@;
        let n: usize = node_slots(heap, vs[i], Ghost(h)).len();
        out.push(n);
        proof {
            assert(out@.drop_last() =~= before);
            assert forall|j: int| 0 <= j < out@.len() implies 1 <= #[trigger] out@[j] <= 32 by {
                if j < before.len() {
                    assert(out@[j] == before[j]);
                }
            }
        }
        i += 1;
    }
    proof {
        assert(vs@.skip(i as int) =~= Seq::empty());
    }
    out
}

/// The sum of a few counts.
fn sum(counts: &[usize]) -> (r: usize)
    requires
        countable(counts@),
        counts@.len() <= 64,
    ensures
        r == total(counts@),
        r <= 2048,
{
    let mut n: usize = 0;
    let mut i: usize = 0;
    proof {
        assert(counts@.take(0) =~= Seq::empty());
    }
    while i < counts.len()
        invariant
            i <= counts@.len(),
            countable(counts@),
            counts@.len() <= 64,
            n == total(counts@.take(i as int)),
            n <= 32 * i,
        decreases counts@.len() - i,
    {
        proof {
            assert(counts@.take(i + 1).drop_last() =~= counts@.take(i as int));
            assert(1 <= counts@[i as int] <= 32);
        }
        n = n + counts[i];
        i += 1;
    }
    proof {
        assert(counts@.take(i as int) =~= counts@);
    }
    n
}

/// The nodes `all`, one level below `shift`, grouped under one or two nodes at
/// `shift`. When the level holds too many nodes past the tightest packing, it
/// is packed again first.
fn rebalance(heap: &mut Heap, all: &[Value], shift: usize, Ghost(h): Ghost<nat>) -> (r: Result<
    Vec<Value>,
    Full,
>)
    requires
        old(heap).wf(),
        shift == 5 * (h + 1),
        1 <= all@.len() <= 64,
        nodes(old(heap).record(), all@, h),
        elems_all(old(heap).record(), all@, h).len() <= usize::MAX,
    ensures
        r is Err ==> final(heap).full(),
        final(heap).wf(),
        sound(old(heap).record()) ==> sound(final(heap).record()),
        part_of(old(heap).record(), final(heap).record()),
        r matches Ok(out) ==> {
            &&& final(heap).record().ext == old(heap).record().ext.add(handles(out@))
            &&& 1 <= out@.len() <= 2
            &&& nodes(final(heap).record(), out@, h + 1)
            &&& elems_all(final(heap).record(), out@, h + 1) == elems_all(
                old(heap).record(),
                all@,
                h,
            )
            &&& well_packed(
                slots_all(final(heap).record(), out@).len(),
                slot_total(final(heap).record(), slots_all(final(heap).record(), out@)),
            )
            &&& out@.len() == 2 <==> slots_all(final(heap).record(), out@).len() > 32
        },
{
    let ghost first = heap.record();
    let counts = slot_counts(heap, all, Ghost(h));
    proof {
        lemma_total_high(counts@);
    }
    let slots_in_all = sum(counts.as_slice());
    let optimal = optimal_nodes(slots_in_all);
    let packed: Vec<Value> = if all.len() > optimal + 2 {
        let goal = plan(counts, optimal);
        repack(heap, all, goal.as_slice(), shift - 5, Ghost(h))?
    } else {
        proof {
            lemma_nodes_live(first, all@, h);
        }
        own_all(heap, all)?;
        proof {
            lemma_keep_all(first, heap.record(), all@, h);
            lemma_slots_out(first, heap.record(), all@, all@[0], h);
            assert(all@.subrange(0, all@.len() as int) =~= all@);
        }
        part(all, 0, all.len())
    };
    let ghost mid = heap.record();
    proof {
        assert(slot_total(mid, packed@) == slots_in_all);
        assert(well_packed(packed@.len(), slot_total(mid, packed@)));
    }
    let n: usize = packed.len();
    let cut: usize = if n < 32 {
        n
    } else {
        32
    };
    let one = part(packed.as_slice(), 0, cut);
    let two = part(packed.as_slice(), cut, n);
    proof {
        assert(packed@ =~= one@ + two@);
        lemma_handles_add(one@, two@);
        lemma_elems_add(mid, one@, two@, h);
        assert forall|i: int| 0 <= i < one@.len() implies node(mid, #[trigger] one@[i], h) by {
            assert(node(mid, packed@[i], h));
        }
        assert forall|i: int| 0 <= i < two@.len() implies node(mid, #[trigger] two@[i], h) by {
            assert(node(mid, packed@[cut + i], h));
        }
        assert(handles(one@).subset_of(mid.ext));
    }
    let a = branch(heap, shift, one.as_slice(), Ghost(h))?;
    let mut out: Vec<Value> = Vec::new();
    out.push(a);
    let ghost next = heap.record();
    proof {
        lemma_handle_one(a);
        lemma_elems_one(next, a, h + 1);
        assert(out@ =~= seq![a]);
    }
    if two.len() > 0 {
        proof {
            lemma_keep_all(mid, next, two@, h);
            assert(handles(two@).subset_of(next.ext));
        }
        let b = branch(heap, shift, two.as_slice(), Ghost(h))?;
        out.push(b);
        proof {
            let last = heap.record();
            lemma_out(next, last, seq![a], b, h + 1);
            assert(out@ =~= seq![a] + seq![b]);
            assert(last.ext =~= first.ext.add(handles(out@)));
            lemma_keep(next, last, a, h + 1);
            lemma_slots_all_one(last, a);
            assert(out@.drop_last() =~= seq![a]);
            assert(slots_all(last, out@) =~= packed@);
            lemma_slots_out(mid, last, packed@, a, h);
        }
    } else {
        proof {
            assert(two@ =~= Seq::empty());
            lemma_no_handles();
            assert(elems_all(mid, two@, h) =~= Seq::empty());
            assert(next.ext =~= first.ext.add(handles(out@)));
            assert(elems_all(next, out@, h + 1) =~= elems_all(first, all@, h));
            lemma_slots_all_one(next, a);
            assert(one@ =~= packed@);
            lemma_slots_out(mid, next, packed@, a, h);
        }
    }
    Ok(out)
}

/// Give up every value's reference.
pub(crate) fn give_up_all(heap: &mut Heap, vs: &[Value])
    requires
        old(heap).wf(),
        handles(vs@).subset_of(old(heap).record().ext),
    ensures
        final(heap).wf(),
        sound(old(heap).record()) ==> sound(final(heap).record()),
        final(heap).record().ext == old(heap).record().ext.sub(handles(vs@)),
        part_of(final(heap).record(), old(heap).record()),
        keeps(old(heap).record(), final(heap).record()),
{
    let ghost first = heap.record();
    let mut i: usize = 0;
    proof {
        lemma_no_handles();
        assert(vs@.take(0) =~= Seq::empty());
        assert(first.ext.sub(Multiset::empty()) =~= first.ext);
    }
    while i < vs.len()
        invariant
            i <= vs@.len(),
            heap.wf(),
            sound(old(heap).record()) ==> sound(heap.record()),
            first == old(heap).record(),
            handles(vs@).subset_of(first.ext),
            heap.record().ext == first.ext.sub(handles(vs@.take(i as int))),
            part_of(heap.record(), first),
            keeps(first, heap.record()),
        decreases vs@.len() - i,
    {
        let ghost now = heap.record();
        proof {
            let done = vs@.take(i as int);
            let v = vs@[i as int];
            assert(vs@ =~= done + seq![v] + vs@.skip(i + 1));
            lemma_handles_add(done + seq![v], vs@.skip(i + 1));
            lemma_handles_add(done, seq![v]);
            lemma_handle_one(v);
            assert(vs@.take(i + 1) =~= done + seq![v]);
            assert forall|c: Cell| handle(v).count(c) <= now.ext.count(c) by {
                assert(handles(vs@).count(c) <= first.ext.count(c));
            }
        }
        give_up(heap, vs[i]);
        proof {
            assert(heap.record().ext =~= first.ext.sub(handles(vs@.take(i + 1))));
        }
        i += 1;
    }
    proof {
        assert(vs@.take(i as int) =~= vs@);
    }
}

/// `l` and `r` merged into one or two nodes at the taller one's height.
#[verifier::rlimit(60)]
pub(crate) fn merge(
    heap: &mut Heap,
    l: Value,
    lshift: usize,
    r: Value,
    rshift: usize,
    Ghost(lh): Ghost<nat>,
    Ghost(rh): Ghost<nat>,
) -> (res: Result<Vec<Value>, Full>)
    requires
        old(heap).wf(),
        lshift == 5 * lh,
        rshift == 5 * rh,
        node(old(heap).record(), l, lh),
        node(old(heap).record(), r, rh),
        elems(old(heap).record(), l, lh).len() + elems(old(heap).record(), r, rh).len()
            <= usize::MAX,
    ensures
        res is Err ==> final(heap).full(),
        final(heap).wf(),
        sound(old(heap).record()) ==> sound(final(heap).record()),
        part_of(old(heap).record(), final(heap).record()),
        res matches Ok(out) ==> {
            let h = if lh > rh {
                lh
            } else {
                rh
            };
            &&& final(heap).record().ext == old(heap).record().ext.add(handles(out@))
            &&& 1 <= out@.len() <= 2
            &&& nodes(final(heap).record(), out@, h)
            &&& elems_all(final(heap).record(), out@, h) == elems(old(heap).record(), l, lh)
                + elems(old(heap).record(), r, rh)
            &&& h > 0 ==> well_packed(
                slots_all(final(heap).record(), out@).len(),
                slot_total(final(heap).record(), slots_all(final(heap).record(), out@)),
            )
        },
    decreases lh + rh,
{
    let ghost first = heap.record();
    proof {
        heap.lemma_record_ok();
        lemma_slots(first, l, lh);
        lemma_slots(first, r, rh);
        lemma_node(first, l, lh);
        lemma_node(first, r, rh);
    }
    let lc = node_slots(heap, l, Ghost(lh));
    let rc = node_slots(heap, r, Ghost(rh));
    let ln: usize = lc.len();
    let rn: usize = rc.len();
    if lshift == 0 && rshift == 0 {
        return merge_leaves(heap, l, r);
    }
    // The edges that meet are merged a level down, and set between the rest.
    let ghost top = if lh > rh {
        lh
    } else {
        rh
    };
    let ghost low = (top - 1) as nat;
    let left_nodes: Vec<Value>;
    let right_nodes: Vec<Value>;
    let mid_nodes: Vec<Value>;
    let shift: usize;
    if lshift > rshift {
        let last = lc[ln - 1];
        left_nodes = part(lc.as_slice(), 0, ln - 1);
        right_nodes = Vec::new();
        shift = lshift;
        proof {
            lemma_split_last(first, lc@, low);
            assert(left_nodes@ =~= lc@.drop_last());
        }
        mid_nodes = merge(heap, last, lshift - 5, r, rshift, Ghost((lh - 1) as nat), Ghost(rh))?;
        proof {
            assert(elems_all(first, right_nodes@, low) =~= Seq::empty());
        }
    } else if rshift > lshift {
        let edge = rc[0];
        left_nodes = Vec::new();
        right_nodes = part(rc.as_slice(), 1, rn);
        shift = rshift;
        proof {
            lemma_split_first(first, rc@, low);
            assert(right_nodes@ =~= rc@.skip(1));
        }
        mid_nodes = merge(heap, l, lshift, edge, rshift - 5, Ghost(lh), Ghost((rh - 1) as nat))?;
        proof {
            assert(elems_all(first, left_nodes@, low) =~= Seq::empty());
        }
    } else {
        let last = lc[ln - 1];
        let edge = rc[0];
        left_nodes = part(lc.as_slice(), 0, ln - 1);
        right_nodes = part(rc.as_slice(), 1, rn);
        shift = lshift;
        proof {
            lemma_split_last(first, lc@, low);
            lemma_split_first(first, rc@, low);
            assert(left_nodes@ =~= lc@.drop_last());
            assert(right_nodes@ =~= rc@.skip(1));
        }
        mid_nodes = merge(
            heap,
            last,
            lshift - 5,
            edge,
            rshift - 5,
            Ghost((lh - 1) as nat),
            Ghost((rh - 1) as nat),
        )?;
    }
    let ghost whole = elems(first, l, lh) + elems(first, r, rh);
    proof {
        let second = heap.record();
        lemma_keep_all(first, second, left_nodes@, low);
        lemma_keep_all(first, second, right_nodes@, low);
        assert(elems_all(first, left_nodes@, low) + elems_all(second, mid_nodes@, low) + elems_all(
            first,
            right_nodes@,
            low,
        ) =~= whole);
    }
    close(
        heap,
        left_nodes.as_slice(),
        mid_nodes.as_slice(),
        right_nodes.as_slice(),
        shift,
        Ghost(first),
        Ghost(low),
    )
}

/// Two leaves merged: into one leaf where their elements fit in one.
fn merge_leaves(heap: &mut Heap, l: Value, r: Value) -> (res: Result<Vec<Value>, Full>)
    requires
        old(heap).wf(),
        node(old(heap).record(), l, 0),
        node(old(heap).record(), r, 0),
    ensures
        res is Err ==> final(heap).full(),
        final(heap).wf(),
        sound(old(heap).record()) ==> sound(final(heap).record()),
        part_of(old(heap).record(), final(heap).record()),
        res matches Ok(out) ==> {
            &&& final(heap).record().ext == old(heap).record().ext.add(handles(out@))
            &&& 1 <= out@.len() <= 2
            &&& nodes(final(heap).record(), out@, 0)
            &&& elems_all(final(heap).record(), out@, 0) == elems(old(heap).record(), l, 0) + elems(
                old(heap).record(),
                r,
                0,
            )
        },
{
    let ghost first = heap.record();
    proof {
        heap.lemma_record_ok();
        lemma_slots(first, l, 0);
        lemma_slots(first, r, 0);
    }
    let lc = node_slots(heap, l, Ghost(0nat));
    let rc = node_slots(heap, r, Ghost(0nat));
    if lc.len() + rc.len() <= 32 {
        let items = joined(lc.as_slice(), rc.as_slice());
        proof {
            lemma_contents_add(first, lc@, rc@, 0);
        }
        own_all(heap, items.as_slice())?;
        let ghost mid = heap.record();
        let v = leaf(heap, items.as_slice())?;
        let out: Vec<Value> = vec![v];
        proof {
            let now = heap.record();
            assert(out@ =~= seq![v]);
            lemma_handle_one(v);
            lemma_elems_one(now, v, 0);
            assert(now.ext =~= first.ext.add(handles(out@)));
        }
        return Ok(out);
    }
    let out: Vec<Value> = vec![l, r];
    proof {
        assert(out@ =~= seq![l] + seq![r]);
        lemma_nodes_pair(first, l, r);
    }
    own_all(heap, out.as_slice())?;
    proof {
        let now = heap.record();
        lemma_keep_all(first, now, out@, 0);
        lemma_elems_add(first, seq![l], seq![r], 0);
        lemma_elems_one(first, l, 0);
        lemma_elems_one(first, r, 0);
    }
    Ok(out)
}

/// The owned nodes `mid`, between `left_nodes` and `right_nodes`, grouped a
/// level up.
fn close(
    heap: &mut Heap,
    left_nodes: &[Value],
    mid: &[Value],
    right_nodes: &[Value],
    shift: usize,
    Ghost(first): Ghost<Record>,
    Ghost(low): Ghost<nat>,
) -> (res: Result<Vec<Value>, Full>)
    requires
        old(heap).wf(),
        first.ok(),
        part_of(first, old(heap).record()),
        old(heap).record().ext == first.ext.add(handles(mid@)),
        shift == 5 * (low + 1),
        left_nodes@.len() <= 31,
        1 <= mid@.len() <= 2,
        right_nodes@.len() <= 31,
        nodes(old(heap).record(), left_nodes@, low),
        nodes(old(heap).record(), mid@, low),
        nodes(old(heap).record(), right_nodes@, low),
        (elems_all(old(heap).record(), left_nodes@, low) + elems_all(
            old(heap).record(),
            mid@,
            low,
        ) + elems_all(old(heap).record(), right_nodes@, low)).len() <= usize::MAX,
    ensures
        res is Err ==> final(heap).full(),
        final(heap).wf(),
        sound(old(heap).record()) ==> sound(final(heap).record()),
        part_of(first, final(heap).record()),
        res matches Ok(out) ==> {
            &&& final(heap).record().ext == first.ext.add(handles(out@))
            &&& 1 <= out@.len() <= 2
            &&& nodes(final(heap).record(), out@, low + 1)
            &&& elems_all(final(heap).record(), out@, low + 1) == elems_all(
                old(heap).record(),
                left_nodes@,
                low,
            ) + elems_all(old(heap).record(), mid@, low) + elems_all(
                old(heap).record(),
                right_nodes@,
                low,
            )
            &&& well_packed(
                slots_all(final(heap).record(), out@).len(),
                slot_total(final(heap).record(), slots_all(final(heap).record(), out@)),
            )
        },
{
    let ghost second = heap.record();
    let start = joined(left_nodes, mid);
    let all = joined(start.as_slice(), right_nodes);
    proof {
        lemma_elems_add(second, left_nodes@, mid@, low);
        lemma_elems_add(second, left_nodes@ + mid@, right_nodes@, low);
        lemma_contents_add(second, left_nodes@, mid@, low + 1);
        lemma_contents_add(second, left_nodes@ + mid@, right_nodes@, low + 1);
    }
    let out = rebalance(heap, all.as_slice(), shift, Ghost(low))?;
    let ghost third = heap.record();
    proof {
        assert(handles(mid@).subset_of(third.ext));
    }
    give_up_all(heap, mid);
    proof {
        let now = heap.record();
        heap.lemma_record_ok();
        assert(now.ext =~= first.ext.add(handles(out@)));
        lemma_owned_live(now, out@);
        assert forall|i: int|
            0 <= i < out@.len() implies node(third, #[trigger] out@[i], low + 1) && (
        out@[i].spec_cell() matches Some(c) && now.has(c)) by {
            assert(live(now, out@[i]));
            lemma_node(third, out@[i], low + 1);
        }
        lemma_keep_live_all(third, now, out@, low + 1);
        lemma_slots_all_keep(now, third, out@, low);
        assert(part_of(first, third));
        lemma_still_live_after(first, third, now);
    }
    Ok(out)
}

/// Leaves are nodes, two at a time.
proof fn lemma_nodes_pair(r: Record, a: Value, b: Value)
    requires
        node(r, a, 0),
        node(r, b, 0),
    ensures
        nodes(r, seq![a] + seq![b], 0),
        all_live(r, seq![a] + seq![b]),
{
    let both = seq![a] + seq![b];
    assert forall|i: int| 0 <= i < both.len() implies node(r, #[trigger] both[i], 0) by {}
    lemma_nodes_live(r, both, 0);
}

proof fn lemma_split_last(r: Record, vs: Seq<Value>, h: nat)
    requires
        nodes(r, vs, h),
        vs.len() > 0,
    ensures
        node(r, vs.last(), h),
        nodes(r, vs.drop_last(), h),
        elems_all(r, vs, h) == elems_all(r, vs.drop_last(), h) + elems(r, vs.last(), h),
{
    assert(node(r, vs[vs.len() - 1], h));
    let init = vs.drop_last();
    assert forall|i: int| 0 <= i < init.len() implies node(r, #[trigger] init[i], h) by {
        assert(node(r, vs[i], h));
    }
}

proof fn lemma_split_first(r: Record, vs: Seq<Value>, h: nat)
    requires
        nodes(r, vs, h),
        vs.len() > 0,
    ensures
        node(r, vs[0], h),
        nodes(r, vs.skip(1), h),
        elems_all(r, vs, h) == elems(r, vs[0], h) + elems_all(r, vs.skip(1), h),
{
    assert(node(r, vs[0], h));
    let tail = vs.skip(1);
    assert forall|i: int| 0 <= i < tail.len() implies node(r, #[trigger] tail[i], h) by {
        assert(node(r, vs[i + 1], h));
    }
    assert(vs =~= seq![vs[0]] + tail);
    lemma_elems_add(r, seq![vs[0]], tail, h);
    lemma_elems_one(r, vs[0], h);
}

/// What is referred to from outside is live.
pub proof fn lemma_owned_live(r: Record, vs: Seq<Value>)
    requires
        r.ok(),
        handles(vs).subset_of(r.ext),
    ensures
        all_live(r, vs),
{
    assert forall|i: int| 0 <= i < vs.len() implies live(r, #[trigger] vs[i]) by {
        let v = vs[i];
        assert(vs =~= vs.take(i) + seq![v] + vs.skip(i + 1));
        lemma_handles_add(vs.take(i) + seq![v], vs.skip(i + 1));
        lemma_handles_add(vs.take(i), seq![v]);
        lemma_handle_one(v);
        match v.spec_cell() {
            Some(c) => {
                assert(handle(v).count(c) == 1);
                assert(handles(vs).count(c) <= r.ext.count(c));
                assert(r.ext.count(c) > 0);
                assert(r.has(c));
            },
            None => {},
        }
    }
}

/// Releasing what was added since leaves what was there before.
pub proof fn lemma_still_live_after(a: Record, b: Record, c: Record)
    requires
        a.ok(),
        c.ok(),
        part_of(a, b),
        keeps(b, c),
        a.ext.subset_of(c.ext),
    ensures
        part_of(a, c),
{
    assert forall|d: Cell| #[trigger] a.ext.count(d) > 0 implies c.has(d) by {
        assert(a.ext.count(d) <= c.ext.count(d));
        assert(c.ext.count(d) > 0);
    }
    assert forall|d: Cell| #[trigger] a.has(d) && c.has(d) implies a.cells[d] == c.cells[d] by {
        assert(b.has(d));
    }
    lemma_still_live(a, c);
}

} // verus!
