//! Operations on the trees of arrays. A node they are given is borrowed unless
//! its documentation says owned; a node they return is owned.

use crate::vm::cells::{all_ok, handles};
use crate::vm::heap::{Full, Heap};
use crate::vm::nodes::{
    all_live, branch, built, elems, elems_all, give_up, handle, leaf, lemma_elems_add,
    lemma_elems_one, lemma_handle_one, lemma_handles_add, lemma_items_live, lemma_keep,
    lemma_keep_all, lemma_keep_live, lemma_node, lemma_nodes_live, lemma_prefix_len, live, node,
    node_len, node_slots, nodes, own, own_all, size_slot,
};
use crate::vm::record::{keeps, Kind, part_of, Record};
use crate::vm::sound::sound;
use crate::vm::value::Value;
use vstd::multiset::Multiset;
use vstd::prelude::*;

verus! {

/// Which end of an array.
#[derive(Clone, Copy, PartialEq, Eq, Structural, Debug)]
pub enum End {
    Front,
    Back,
}

/// `new` set beside `rest`, at one of its ends.
pub open spec fn beside(end: End, new: Seq<Value>, rest: Seq<Value>) -> Seq<Value> {
    match end {
        End::Front => new + rest,
        End::Back => rest + new,
    }
}

pub(crate) fn part(vs: &[Value], from: usize, to: usize) -> (r: Vec<Value>)
    requires
        from <= to <= vs@.len(),
    ensures
        r@ == vs@.subrange(from as int, to as int),
{
    let mut out: Vec<Value> = Vec::new();
    let mut i: usize = from;
    while i < to
        invariant
            from <= i <= to,
            to <= vs@.len(),
            out@ == vs@.subrange(from as int, i as int),
        decreases to - i,
    {
        out.push(vs[i]);
        proof {
            assert(vs@.subrange(from as int, i + 1) =~= vs@.subrange(from as int, i as int).push(
                vs@[i as int],
            ));
        }
        i += 1;
    }
    out
}

pub(crate) fn joined(a: &[Value], b: &[Value]) -> (r: Vec<Value>)
    ensures
        r@ == a@ + b@,
{
    let mut out = part(a, 0, a.len());
    proof {
        assert(a@.subrange(0, a@.len() as int) =~= a@);
        assert(out@ =~= a@ + b@.take(0));
    }
    let mut i: usize = 0;
    while i < b.len()
        invariant
            i <= b@.len(),
            out@ == a@ + b@.take(i as int),
        decreases b@.len() - i,
    {
        out.push(b[i]);
        proof {
            assert(b@.take(i + 1) =~= b@.take(i as int).push(b@[i as int]));
            assert(out@ =~= a@ + b@.take(i + 1));
        }
        i += 1;
    }
    proof {
        assert(b@.take(i as int) =~= b@);
    }
    out
}

fn set_beside(end: End, new: Value, rest: &[Value]) -> (r: Vec<Value>)
    ensures
        r@ == beside(end, seq![new], rest@),
{
    let one: Vec<Value> = vec![new];
    proof {
        assert(one@ =~= seq![new]);
    }
    match end {
        End::Front => joined(one.as_slice(), rest),
        End::Back => joined(rest, one.as_slice()),
    }
}

proof fn lemma_beside(r: Record, end: End, new: Value, rest: Seq<Value>, h: nat)
    ensures
        handles(beside(end, seq![new], rest)) == handles(rest).add(handle(new)),
        elems_all(r, beside(end, seq![new], rest), h) == beside(
            end,
            elems(r, new, h),
            elems_all(r, rest, h),
        ),
{
    lemma_handle_one(new);
    lemma_elems_one(r, new, h);
    match end {
        End::Front => {
            lemma_handles_add(seq![new], rest);
            lemma_elems_add(r, seq![new], rest, h);
        },
        End::Back => {
            lemma_handles_add(rest, seq![new]);
            lemma_elems_add(r, rest, seq![new], h);
        },
    }
    assert(handles(beside(end, seq![new], rest)) =~= handles(rest).add(handle(new)));
}

/// A leaf of the owned `x` beside `rest`.
pub(crate) fn leaf_with(heap: &mut Heap, x: Value, rest: &[Value], end: End) -> (r: Result<Value, Full>)
    requires
        old(heap).wf(),
        x.ok(),
        handle(x).subset_of(old(heap).record().ext),
        rest@.len() < 32,
        all_ok(rest@),
        all_live(old(heap).record(), rest@),
    ensures
        r is Err ==> final(heap).full(),
        final(heap).wf(),
        sound(old(heap).record()) ==> sound(final(heap).record()),
        part_of(old(heap).record(), final(heap).record()),
        r matches Ok(v) ==> {
            &&& built(old(heap).record(), final(heap).record(), handle(x), v)
            &&& node(final(heap).record(), v, 0)
            &&& elems(final(heap).record(), v, 0) == beside(end, seq![x], rest@)
        },
{
    let ghost first = heap.record();
    own_all(heap, rest)?;
    let ghost mid = heap.record();
    let all = set_beside(end, x, rest);
    proof {
        lemma_beside(mid, end, x, rest@, 0);
        assert forall|i: int| 0 <= i < all@.len() implies (#[trigger] all@[i]).ok() by {
            match end {
                End::Front => {
                    if i > 0 {
                        assert(rest@[i - 1].ok());
                    }
                },
                End::Back => {
                    if i < rest@.len() {
                        assert(rest@[i].ok());
                    }
                },
            }
        }
    }
    let v = leaf(heap, all.as_slice())?;
    proof {
        assert(heap.record().ext =~= first.ext.sub(handle(x)).add(handle(v)));
    }
    Ok(v)
}

/// A branch of the owned `sub` beside `rest`.
pub(crate) fn branch_with(
    heap: &mut Heap,
    shift: usize,
    sub: Value,
    rest: &[Value],
    end: End,
    Ghost(h): Ghost<nat>,
) -> (r: Result<Value, Full>)
    requires
        old(heap).wf(),
        shift == 5 * (h + 1),
        node(old(heap).record(), sub, h),
        handle(sub).subset_of(old(heap).record().ext),
        rest@.len() < 32,
        nodes(old(heap).record(), rest@, h),
        elems(old(heap).record(), sub, h).len() + elems_all(old(heap).record(), rest@, h).len()
            <= usize::MAX,
    ensures
        r is Err ==> final(heap).full(),
        final(heap).wf(),
        sound(old(heap).record()) ==> sound(final(heap).record()),
        part_of(old(heap).record(), final(heap).record()),
        r matches Ok(v) ==> {
            &&& built(old(heap).record(), final(heap).record(), handle(sub), v)
            &&& node(final(heap).record(), v, h + 1)
            &&& elems(final(heap).record(), v, h + 1) == beside(
                end,
                elems(old(heap).record(), sub, h),
                elems_all(old(heap).record(), rest@, h),
            )
        },
{
    let ghost first = heap.record();
    proof {
        lemma_nodes_live(first, rest@, h);
    }
    own_all(heap, rest)?;
    let ghost mid = heap.record();
    let all = set_beside(end, sub, rest);
    proof {
        lemma_beside(mid, end, sub, rest@, h);
        lemma_keep(first, mid, sub, h);
        lemma_keep_all(first, mid, rest@, h);
        assert forall|i: int| 0 <= i < all@.len() implies node(mid, #[trigger] all@[i], h) by {
            match end {
                End::Front => {
                    if i > 0 {
                        assert(node(mid, rest@[i - 1], h));
                    }
                },
                End::Back => {
                    if i < rest@.len() {
                        assert(node(mid, rest@[i], h));
                    }
                },
            }
        }
    }
    let v = branch(heap, shift, all.as_slice(), Ghost(h))?;
    proof {
        assert(heap.record().ext =~= first.ext.sub(handle(sub)).add(handle(v)));
    }
    Ok(v)
}

/// A chain of one-child branches that lifts the owned `n` from the bottom to
/// height `shift`.
pub(crate) fn spine(heap: &mut Heap, n: Value, shift: usize, Ghost(h): Ghost<nat>) -> (r: Result<
    Value,
    Full,
>)
    requires
        old(heap).wf(),
        shift == 5 * h,
        shift + 5 <= usize::MAX,
        node(old(heap).record(), n, 0),
        handle(n).subset_of(old(heap).record().ext),
    ensures
        r is Err ==> final(heap).full(),
        final(heap).wf(),
        sound(old(heap).record()) ==> sound(final(heap).record()),
        part_of(old(heap).record(), final(heap).record()),
        r matches Ok(v) ==> {
            &&& built(old(heap).record(), final(heap).record(), handle(n), v)
            &&& node(final(heap).record(), v, h)
            &&& elems(final(heap).record(), v, h) == elems(old(heap).record(), n, 0)
        },
{
    let ghost first = heap.record();
    let mut v = n;
    let mut s: usize = 5;
    let ghost mut k: nat = 0;
    let none: Vec<Value> = Vec::new();
    proof {
        assert(first.ext =~= first.ext.sub(handle(n)).add(handle(n)));
        assert(elems_all(first, Seq::<Value>::empty(), 0) =~= Seq::empty());
        lemma_node(first, n, 0);
    }
    while s <= shift
        invariant
            heap.wf(),
            sound(old(heap).record()) ==> sound(heap.record()),
            first == old(heap).record(),
            shift == 5 * h,
            shift + 5 <= usize::MAX,
            s == 5 * (k + 1),
            k <= h,
            none@ == Seq::<Value>::empty(),
            built(first, heap.record(), handle(n), v),
            handle(n).subset_of(first.ext),
            node(heap.record(), v, k),
            elems(heap.record(), v, k) == elems(first, n, 0),
            elems(first, n, 0).len() <= 32,
        decreases shift + 5 - s,
    {
        let ghost before = heap.record();
        proof {
            assert(elems_all(before, none@, k) =~= Seq::empty());
            assert(handle(v).subset_of(before.ext));
        }
        v = branch_with(heap, s, v, none.as_slice(), End::Back, Ghost(k))?;
        proof {
            assert(elems(heap.record(), v, k + 1) =~= elems(first, n, 0));
            assert(heap.record().ext =~= first.ext.sub(handle(n)).add(handle(v)));
            k = k + 1;
        }
        s = s + 5;
    }
    Ok(v)
}

/// `n` with `l` hung under its edge at `end` without growing taller, or `None`
/// when every level on that edge is full.
pub(crate) fn try_push(
    heap: &mut Heap,
    n: Value,
    shift: usize,
    l: Value,
    end: End,
    Ghost(h): Ghost<nat>,
) -> (r: Result<Option<Value>, Full>)
    requires
        old(heap).wf(),
        shift == 5 * h,
        shift + 5 <= usize::MAX,
        node(old(heap).record(), n, h),
        node(old(heap).record(), l, 0),
        elems(old(heap).record(), n, h).len() + elems(old(heap).record(), l, 0).len() <= usize::MAX,
    ensures
        r is Err ==> final(heap).full(),
        final(heap).wf(),
        sound(old(heap).record()) ==> sound(final(heap).record()),
        part_of(old(heap).record(), final(heap).record()),
        r matches Ok(None) ==> final(heap).record() == old(heap).record(),
        r matches Ok(Some(v)) ==> {
            &&& built(old(heap).record(), final(heap).record(), Multiset::empty(), v)
            &&& node(final(heap).record(), v, h)
            &&& elems(final(heap).record(), v, h) == beside(
                end,
                elems(old(heap).record(), l, 0),
                elems(old(heap).record(), n, h),
            )
        },
    decreases h,
{
    if shift == 0 {
        return Ok(None);
    }
    let ghost first = heap.record();
    let ghost low = (h - 1) as nat;
    let kids = node_slots(heap, n, Ghost(h));
    proof {
        lemma_node(first, n, h);
    }
    let count: usize = kids.len();
    let (edge, from, to): (usize, usize, usize) = match end {
        End::Front => (0, 1, count),
        End::Back => (count - 1, 0, count - 1),
    };
    let edge_child = kids[edge];
    let rest = part(kids.as_slice(), from, to);
    proof {
        assert(node(first, kids@[edge as int], low));
        assert(kids@ =~= beside(end, seq![edge_child], rest@));
        lemma_beside(first, end, edge_child, rest@, low);
        assert forall|i: int| 0 <= i < rest@.len() implies node(first, #[trigger] rest@[i], low) by {
            assert(node(first, kids@[from + i], low));
        }
    }
    let pushed = try_push(heap, edge_child, shift - 5, l, end, Ghost(low))?;
    match pushed {
        Some(sub) => {
            let ghost mid = heap.record();
            proof {
                lemma_keep_all(first, mid, rest@, low);
                assert(handle(sub).subset_of(mid.ext));
            }
            let v = branch_with(heap, shift, sub, rest.as_slice(), end, Ghost(low))?;
            proof {
                assert(heap.record().ext =~= first.ext.sub(Multiset::empty()).add(handle(v)));
                assert(elems(heap.record(), v, h) =~= beside(
                    end,
                    elems(first, l, 0),
                    elems(first, n, h),
                ));
            }
            return Ok(Some(v));
        },
        None => {},
    }
    if count < 32 {
        own(heap, l)?;
        let ghost mid = heap.record();
        proof {
            lemma_keep(first, mid, l, 0);
            assert(handle(l).subset_of(mid.ext));
        }
        let s = spine(heap, l, shift - 5, Ghost(low))?;
        let ghost next = heap.record();
        proof {
            lemma_keep_all(first, next, kids@, low);
            assert(handle(s).subset_of(next.ext));
        }
        let v = branch_with(heap, shift, s, kids.as_slice(), end, Ghost(low))?;
        proof {
            assert(heap.record().ext =~= first.ext.sub(Multiset::empty()).add(handle(v)));
        }
        return Ok(Some(v));
    }
    Ok(None)
}

/// A tree and its height, 5 for each level above a leaf. `Nil` is no tree.
pub open spec fn tree(r: Record, v: Value, shift: usize) -> bool {
    &&& shift % 5 == 0
    &&& v.ok()
    &&& if v.spec_cell() is None {
        v.spec_view() is Nil && shift == 0
    } else {
        node(r, v, (shift / 5) as nat)
    }
}

/// A tree's elements.
pub open spec fn tree_elems(r: Record, v: Value, shift: usize) -> Seq<Value> {
    elems(r, v, (shift / 5) as nat)
}

pub proof fn lemma_tree_keep(a: Record, b: Record, v: Value, shift: usize)
    requires
        part_of(a, b),
        tree(a, v, shift),
    ensures
        tree(b, v, shift),
        tree_elems(b, v, shift) == tree_elems(a, v, shift),
        live(a, v),
        live(b, v),
{
    if v.spec_cell() is Some {
        lemma_keep(a, b, v, (shift / 5) as nat);
        lemma_node(a, v, (shift / 5) as nat);
        lemma_node(b, v, (shift / 5) as nat);
    } else {
        assert(tree_elems(b, v, shift) =~= tree_elems(a, v, shift));
    }
}

/// `t` with the leaf `l` hung under its edge at `end`, and its height: one
/// level taller when that edge is full.
pub(crate) fn tree_push_leaf(heap: &mut Heap, t: Value, shift: usize, l: Value, end: End) -> (r: Result<
    (Value, usize),
    Full,
>)
    requires
        old(heap).wf(),
        tree(old(heap).record(), t, shift),
        node(old(heap).record(), l, 0),
        tree_elems(old(heap).record(), t, shift).len() + elems(old(heap).record(), l, 0).len()
            <= usize::MAX,
    ensures
        r is Err ==> final(heap).full() || shift > usize::MAX - 10,
        final(heap).wf(),
        sound(old(heap).record()) ==> sound(final(heap).record()),
        part_of(old(heap).record(), final(heap).record()),
        r matches Ok((v, s)) ==> {
            &&& built(old(heap).record(), final(heap).record(), Multiset::empty(), v)
            &&& s <= shift + 5
            &&& tree(final(heap).record(), v, s)
            &&& tree_elems(final(heap).record(), v, s) == beside(
                end,
                elems(old(heap).record(), l, 0),
                tree_elems(old(heap).record(), t, shift),
            )
        },
{
    let ghost first = heap.record();
    let ghost h = (shift / 5) as nat;
    if t.as_cell().is_none() {
        own(heap, l)?;
        proof {
            lemma_keep(first, heap.record(), l, 0);
            assert(heap.record().ext =~= first.ext.sub(Multiset::empty()).add(handle(l)));
            assert(tree_elems(first, t, shift) =~= Seq::empty());
            assert(beside(end, elems(first, l, 0), Seq::empty()) =~= elems(first, l, 0));
        }
        return Ok((l, 0));
    }
    if shift > usize::MAX - 10 {
        return Err(Full);
    }
    let pushed = try_push(heap, t, shift, l, end, Ghost(h))?;
    match pushed {
        Some(v) => {
            return Ok((v, shift));
        },
        None => {},
    }
    own(heap, l)?;
    let ghost mid = heap.record();
    proof {
        lemma_keep(first, mid, l, 0);
        lemma_keep(first, mid, t, h);
        assert(handle(l).subset_of(mid.ext));
    }
    let s = spine(heap, l, shift, Ghost(h))?;
    let ghost next = heap.record();
    let rest: Vec<Value> = vec![t];
    proof {
        assert(rest@ =~= seq![t]);
        lemma_keep(mid, next, t, h);
        lemma_elems_one(next, t, h);
        assert(handle(s).subset_of(next.ext));
    }
    let v = branch_with(heap, shift + 5, s, rest.as_slice(), end, Ghost(h))?;
    proof {
        assert(heap.record().ext =~= first.ext.sub(Multiset::empty()).add(handle(v)));
        assert((shift + 5) / 5 == h + 1);
        assert((shift + 5) % 5 == 0);
    }
    Ok((v, shift + 5))
}

/// The owned `n` without the one-child levels at its top.
pub(crate) fn collapse(heap: &mut Heap, n: Value, shift: usize) -> (r: Result<(Value, usize), Full>)
    requires
        old(heap).wf(),
        tree(old(heap).record(), n, shift),
        n.spec_cell() is Some,
        handle(n).subset_of(old(heap).record().ext),
    ensures
        r is Err ==> final(heap).full(),
        final(heap).wf(),
        sound(old(heap).record()) ==> sound(final(heap).record()),
        keeps(old(heap).record(), final(heap).record()),
        old(heap).record().ext.sub(handle(n)).subset_of(final(heap).record().ext),
        r matches Ok((v, s)) ==> {
            &&& v.spec_cell() is Some
            &&& tree(final(heap).record(), v, s)
            &&& tree_elems(final(heap).record(), v, s) == tree_elems(old(heap).record(), n, shift)
            &&& final(heap).record().ext == old(heap).record().ext.sub(handle(n)).add(handle(v))
        },
{
    let ghost first = heap.record();
    let mut v = n;
    let mut s = shift;
    proof {
        assert(first.ext =~= first.ext.sub(handle(n)).add(handle(n)));
    }
    while s > 0
        invariant
            heap.wf(),
            sound(old(heap).record()) ==> sound(heap.record()),
            first == old(heap).record(),
            v.spec_cell() is Some,
            tree(heap.record(), v, s),
            tree_elems(heap.record(), v, s) == tree_elems(first, n, shift),
            heap.record().ext == first.ext.sub(handle(n)).add(handle(v)),
            keeps(first, heap.record()),
            part_of(heap.record(), first),
        decreases s,
    {
        let ghost before = heap.record();
        let ghost h = (s / 5) as nat;
        proof {
            lemma_node(before, v, h);
        }
        let kids = node_slots(heap, v, Ghost(h));
        if kids.len() != 1 {
            return Ok((v, s));
        }
        let only = kids[0];
        proof {
            assert(node(before, kids@[0], (h - 1) as nat));
            assert(kids@ =~= seq![only]);
            lemma_elems_one(before, only, (h - 1) as nat);
        }
        own(heap, only)?;
        let ghost mid = heap.record();
        proof {
            lemma_keep(before, mid, only, (h - 1) as nat);
            assert(handle(v).subset_of(mid.ext));
        }
        give_up(heap, v);
        proof {
            let now = heap.record();
            heap.lemma_record_ok();
            assert(now.ext =~= first.ext.sub(handle(n)).add(handle(only)));
            let c = only.spec_cell()->Some_0;
            assert(now.ext.count(c) > 0);
            assert(now.has(c));
            lemma_keep_live_wf(mid, now, only, (h - 1) as nat);
            assert((s - 5) / 5 == h - 1);
            assert((s - 5) % 5 == 0);
        }
        v = only;
        s = s - 5;
    }
    Ok((v, s))
}

/// A node that was there and still is, across a release.
proof fn lemma_keep_live_wf(a: Record, b: Record, v: Value, h: nat)
    requires
        b.ok(),
        keeps(a, b),
        part_of(b, a),
        node(a, v, h),
        v.spec_cell() matches Some(c) && b.has(c),
    ensures
        node(b, v, h),
        elems(b, v, h) == elems(a, v, h),
{
    lemma_keep_live(a, b, v, h);
}

/// The tree's leftmost leaf, borrowed.
pub(crate) fn first_leaf(heap: &Heap, n: Value, Ghost(h): Ghost<nat>) -> (r: Value)
    requires
        heap.wf(),
        node(heap.record(), n, h),
    ensures
        node(heap.record(), r, 0),
        elems(heap.record(), r, 0).is_prefix_of(elems(heap.record(), n, h)),
    decreases h,
{
    let ghost rec = heap.record();
    match n.as_cell() {
        Some(c) => {
            proof {
                lemma_node(rec, n, h);
            }
            if heap.kind(c) == Kind::ArrayLeaf {
                proof {
                    assert(h == 0);
                }
                n
            } else {
                let kids = node_slots(heap, n, Ghost(h));
                let ghost low = (h - 1) as nat;
                let kid = kids[0];
                proof {
                    assert(node(rec, kids@[0], low));
                    lemma_prefix_len(rec, kids@, 1, low);
                    assert(kids@.take(1) =~= seq![kid]);
                    lemma_elems_one(rec, kid, low);
                }
                first_leaf(heap, kid, Ghost(low))
            }
        },
        None => vstd::pervasive::unreached(),
    }
}

/// The first `m` elements of a node, `m` from 1 to its length.
pub(crate) fn tree_take(heap: &mut Heap, n: Value, m: usize, Ghost(h): Ghost<nat>) -> (r: Result<
    Value,
    Full,
>)
    requires
        old(heap).wf(),
        node(old(heap).record(), n, h),
        1 <= m <= elems(old(heap).record(), n, h).len() <= usize::MAX,
        5 * h <= usize::MAX,
    ensures
        r is Err ==> final(heap).full(),
        final(heap).wf(),
        sound(old(heap).record()) ==> sound(final(heap).record()),
        part_of(old(heap).record(), final(heap).record()),
        r matches Ok(v) ==> {
            &&& built(old(heap).record(), final(heap).record(), Multiset::empty(), v)
            &&& node(final(heap).record(), v, h)
            &&& elems(final(heap).record(), v, h) == elems(old(heap).record(), n, h).take(m as int)
        },
    decreases h,
{
    let ghost first = heap.record();
    proof {
        heap.lemma_record_ok();
        lemma_node(first, n, h);
    }
    let len = node_len(heap, n, Ghost(h));
    if m >= len {
        own(heap, n)?;
        proof {
            lemma_keep(first, heap.record(), n, h);
            assert(heap.record().ext =~= first.ext.sub(Multiset::empty()).add(handle(n)));
            assert(elems(first, n, h).take(m as int) =~= elems(first, n, h));
        }
        return Ok(n);
    }
    let kids = node_slots(heap, n, Ghost(h));
    let c = match n.as_cell() {
        Some(c) => c,
        None => vstd::pervasive::unreached(),
    };
    if heap.kind(c) == Kind::ArrayLeaf {
        let kept = part(kids.as_slice(), 0, m);
        proof {
            assert(h == 0);
            lemma_items_live(first, n);
            lemma_part_live(first, kids@, 0, m as int);
        }
        own_all(heap, kept.as_slice())?;
        let ghost mid = heap.record();
        let v = leaf(heap, kept.as_slice())?;
        proof {
            assert(heap.record().ext =~= first.ext.sub(Multiset::empty()).add(handle(v)));
            assert(kept@ =~= elems(first, n, h).take(m as int));
        }
        return Ok(v);
    }
    let ghost low = (h - 1) as nat;
    let shift = heap.get(c, 0) as usize;
    let slot = size_slot(heap, n, m - 1, Ghost(h));
    let child = kids[slot.child];
    proof {
        assert(node(first, kids@[slot.child as int], low));
        lemma_prefix_len(first, kids@, slot.child as int, low);
        lemma_prefix_len(first, kids@, slot.child + 1, low);
        assert(kids@.take(slot.child + 1).drop_last() =~= kids@.take(slot.child as int));
        assert(kids@.take(slot.child + 1).last() == child);
    }
    let cut = tree_take(heap, child, m - slot.before, Ghost(low))?;
    let ghost mid = heap.record();
    let rest = part(kids.as_slice(), 0, slot.child);
    proof {
        lemma_keep_all(first, mid, kids@, low);
        assert(rest@ =~= kids@.take(slot.child as int));
        assert forall|i: int| 0 <= i < rest@.len() implies node(first, #[trigger] rest@[i], low) by {
            assert(node(first, kids@[i], low));
        }
        lemma_keep_all(first, mid, rest@, low);
        assert(handle(cut).subset_of(mid.ext));
    }
    let v = branch_with(heap, shift, cut, rest.as_slice(), End::Back, Ghost(low))?;
    proof {
        assert(heap.record().ext =~= first.ext.sub(Multiset::empty()).add(handle(v)));
        let all = elems(first, n, h);
        let before = elems_all(first, rest@, low);
        assert(before + elems(first, child, low).take(m - slot.before) =~= all.take(m as int));
    }
    Ok(v)
}

/// A node without its first `m` elements, `m` below its length.
pub(crate) fn tree_drop(heap: &mut Heap, n: Value, m: usize, Ghost(h): Ghost<nat>) -> (r: Result<
    Value,
    Full,
>)
    requires
        old(heap).wf(),
        node(old(heap).record(), n, h),
        m < elems(old(heap).record(), n, h).len() <= usize::MAX,
        5 * h <= usize::MAX,
    ensures
        r is Err ==> final(heap).full(),
        final(heap).wf(),
        sound(old(heap).record()) ==> sound(final(heap).record()),
        part_of(old(heap).record(), final(heap).record()),
        r matches Ok(v) ==> {
            &&& built(old(heap).record(), final(heap).record(), Multiset::empty(), v)
            &&& node(final(heap).record(), v, h)
            &&& elems(final(heap).record(), v, h) == elems(old(heap).record(), n, h).skip(m as int)
        },
    decreases h,
{
    let ghost first = heap.record();
    proof {
        heap.lemma_record_ok();
        lemma_node(first, n, h);
    }
    if m == 0 {
        own(heap, n)?;
        proof {
            lemma_keep(first, heap.record(), n, h);
            assert(heap.record().ext =~= first.ext.sub(Multiset::empty()).add(handle(n)));
            assert(elems(first, n, h).skip(0) =~= elems(first, n, h));
        }
        return Ok(n);
    }
    let kids = node_slots(heap, n, Ghost(h));
    let count: usize = kids.len();
    let c = match n.as_cell() {
        Some(c) => c,
        None => vstd::pervasive::unreached(),
    };
    if heap.kind(c) == Kind::ArrayLeaf {
        let kept = part(kids.as_slice(), m, count);
        proof {
            assert(h == 0);
            lemma_items_live(first, n);
            lemma_part_live(first, kids@, m as int, count as int);
        }
        own_all(heap, kept.as_slice())?;
        let ghost mid = heap.record();
        let v = leaf(heap, kept.as_slice())?;
        proof {
            assert(heap.record().ext =~= first.ext.sub(Multiset::empty()).add(handle(v)));
            assert(kept@ =~= elems(first, n, h).skip(m as int));
        }
        return Ok(v);
    }
    let ghost low = (h - 1) as nat;
    let shift = heap.get(c, 0) as usize;
    let slot = size_slot(heap, n, m, Ghost(h));
    let child = kids[slot.child];
    let ghost k = slot.child as int;
    proof {
        assert(node(first, kids@[k], low));
        lemma_prefix_len(first, kids@, k, low);
        lemma_prefix_len(first, kids@, k + 1, low);
        assert(kids@.take(k + 1).drop_last() =~= kids@.take(k));
        assert(kids@.take(k + 1).last() == child);
    }
    let cut = tree_drop(heap, child, m - slot.before, Ghost(low))?;
    let ghost mid = heap.record();
    let rest = part(kids.as_slice(), slot.child + 1, count);
    proof {
        assert(rest@ =~= kids@.skip(k + 1));
        assert forall|i: int| 0 <= i < rest@.len() implies node(first, #[trigger] rest@[i], low) by {
            assert(node(first, kids@[k + 1 + i], low));
        }
        lemma_keep_all(first, mid, rest@, low);
        assert(handle(cut).subset_of(mid.ext));
    }
    let v = branch_with(heap, shift, cut, rest.as_slice(), End::Front, Ghost(low))?;
    proof {
        assert(heap.record().ext =~= first.ext.sub(Multiset::empty()).add(handle(v)));
        let all = elems(first, n, h);
        assert(elems(first, child, low).skip(m - slot.before) + elems_all(first, rest@, low)
            =~= all.skip(m as int));
    }
    Ok(v)
}

/// A run of live values is live.
pub proof fn lemma_part_live(r: Record, vs: Seq<Value>, from: int, to: int)
    requires
        0 <= from <= to <= vs.len(),
        all_ok(vs),
        all_live(r, vs),
    ensures
        all_ok(vs.subrange(from, to)),
        all_live(r, vs.subrange(from, to)),
{
    let part = vs.subrange(from, to);
    assert forall|i: int| 0 <= i < part.len() implies (#[trigger] part[i]).ok() && live(r, part[i]) by {
        assert(vs[from + i].ok() && live(r, vs[from + i]));
    }
}

} // verus!
