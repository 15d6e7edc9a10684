//! Joining two vector trees.

use crate::vm::bytecode::object::{all_fit, Arena, fits, Value};
use crate::vm::bytecode::sound::{elems, elems_all, lemma_elems_add, lemma_elems_one, node, nodes};
use crate::vm::bytecode::tree::{
    all_usable, branch_from, copy, leaf_elems, leaf_from, lemma_slots, node_slots, slots, slots_all,
    usable,
};
use crate::vm::rrb::{
    B, BITS, countable, E_MAX, lemma_total_add, lemma_total_high, optimal_nodes, plan, total,
    well_packed,
};
use vstd::prelude::*;

verus! {

/// Elements under nodes, by their slots.
proof fn lemma_slots_all(imm: bool, vs: Seq<Value>, h: nat)
    requires
        all_usable(imm, vs, h),
    ensures
        h == 0 ==> elems_all(vs) == slots_all(vs),
        h > 0 ==> elems_all(vs) == elems_all(slots_all(vs)) && nodes(
            slots_all(vs),
            (h - 1) as nat,
        ),
        all_fit(imm, slots_all(vs)),
    decreases vs.len(),
{
    if vs.len() == 0 {
        assert(elems_all(vs) =~= Seq::empty());
        assert(elems_all(Seq::<Value>::empty()) =~= Seq::empty());
    } else {
        let init = vs.drop_last();
        assert forall|i: int| 0 <= i < init.len() implies node(#[trigger] init[i], h) && fits(
            imm,
            init[i],
        ) by {
            assert(node(vs[i], h) && fits(imm, vs[i]));
        }
        lemma_slots_all(imm, init, h);
        assert(node(vs[vs.len() - 1], h) && fits(imm, vs[vs.len() - 1]));
        lemma_slots(imm, vs.last(), h);
        let a = slots_all(init);
        let b = slots(vs.last());
        lemma_elems_add(a, b);
        assert forall|i: int| 0 <= i < (a + b).len() implies fits(imm, #[trigger] (a + b)[i]) && (h
            > 0 ==> node((a + b)[i], (h - 1) as nat)) by {
            if i < a.len() {
                assert(fits(imm, a[i]));
                if h > 0 {
                    assert(node(a[i], (h - 1) as nat));
                }
            } else {
                assert(fits(imm, b[i - a.len()]));
                if h > 0 {
                    assert(node(b[i - a.len()], (h - 1) as nat));
                }
            }
        }
    }
}

proof fn lemma_slots_add(a: Seq<Value>, b: Seq<Value>)
    ensures
        slots_all(a + b) == slots_all(a) + slots_all(b),
    decreases b.len(),
{
    if b.len() == 0 {
        assert(a + b =~= a);
        assert(slots_all(b) =~= Seq::empty());
        assert(slots_all(a) + slots_all(b) =~= slots_all(a));
    } else {
        lemma_slots_add(a, b.drop_last());
        assert((a + b).drop_last() =~= a + b.drop_last());
        assert((a + b).last() == b.last());
        assert(slots_all(a + b) =~= slots_all(a) + slots_all(b));
    }
}

proof fn lemma_slots_one(v: Value)
    ensures
        slots_all(seq![v]) == slots(v),
{
    assert(seq![v].drop_last() =~= Seq::empty());
    assert(slots_all(Seq::<Value>::empty()) =~= Seq::empty());
    assert(slots_all(seq![v]) =~= slots(v));
}

/// Counts are those of the nodes' slots.
spec fn counted(vs: Seq<Value>) -> Seq<usize> {
    Seq::new(vs.len(), |i: int| slots(vs[i]).len() as usize)
}

proof fn lemma_counted(vs: Seq<Value>, h: nat)
    requires
        nodes(vs, h),
    ensures
        countable(counted(vs)),
        total(counted(vs)) == slots_all(vs).len(),
    decreases vs.len(),
{
    assert forall|i: int| 0 <= i < vs.len() implies 1 <= #[trigger] counted(vs)[i] <= 32 by {
        assert(node(vs[i], h));
        lemma_slots(false, vs[i], h);
    }
    if vs.len() > 0 {
        let init = vs.drop_last();
        assert forall|i: int| 0 <= i < init.len() implies node(#[trigger] init[i], h) by {
            assert(node(vs[i], h));
        }
        lemma_counted(init, h);
        assert(counted(vs).drop_last() =~= counted(init));
        assert(node(vs[vs.len() - 1], h));
        lemma_slots(false, vs.last(), h);
    }
}

/// Merge two trees, giving one or two nodes as tall as the taller.
pub(crate) fn concat_sub<A: Arena>(
    a: &mut A,
    l: &Value,
    lshift: usize,
    r: &Value,
    rshift: usize,
    Ghost(hl): Ghost<nat>,
    Ghost(hr): Ghost<nat>,
) -> (out: Vec<Value>)
    requires
        usable(old(a).immortal(), *l, hl),
        usable(old(a).immortal(), *r, hr),
        lshift == 5 * hl,
        rshift == 5 * hr,
        elems(*l).len() + elems(*r).len() <= usize::MAX,
    ensures
        final(a).immortal() == old(a).immortal(),
        all_usable(
            old(a).immortal(),
            out@,
            if hl > hr {
                hl
            } else {
                hr
            },
        ),
        1 <= out@.len() <= 2,
        elems_all(out@) == elems(*l) + elems(*r),
        hl > 0 || hr > 0 ==> well_packed(
            slots_all(out@).len(),
            slots_all(slots_all(out@)).len(),
        ),
    decreases hl + hr,
{
    let ghost imm = a.immortal();
    proof {
        lemma_slots(imm, *l, hl);
        lemma_slots(imm, *r, hr);
    }
    let ghost ls = slots(*l);
    let ghost rs = slots(*r);
    let none: Vec<Value> = Vec::new();
    if lshift > rshift {
        let lc = node_slots(l, Ghost(hl));
        let n: usize = lc.len();
        let ghost low = (hl - 1) as nat;
        proof {
            lemma_last(imm, ls, low);
        }
        let mid = concat_sub(a, &lc[n - 1], lshift - BITS, r, rshift, Ghost(low), Ghost(hr));
        let left = copy(lc, 0, n - 1);
        let ghost m0 = mid@;
        proof {
            assert(left@ =~= ls.drop_last());
            assert(elems_all(none@) =~= Seq::empty());
            assert(elems_all(left@) + elems_all(m0) + elems_all(none@) =~= elems(*l) + elems(*r));
        }
        rebalance(a, left, mid, none, lshift, Ghost(low))
    } else if rshift > lshift {
        let rc = node_slots(r, Ghost(hr));
        let n: usize = rc.len();
        let ghost low = (hr - 1) as nat;
        proof {
            lemma_first(imm, rs, low);
        }
        let mid = concat_sub(a, l, lshift, &rc[0], rshift - BITS, Ghost(hl), Ghost(low));
        let right = copy(rc, 1, n);
        let ghost m0 = mid@;
        proof {
            assert(right@ =~= rs.skip(1));
            assert(elems_all(none@) =~= Seq::empty());
            assert(elems_all(none@) + elems_all(m0) + elems_all(right@) =~= elems(*l) + elems(*r));
        }
        rebalance(a, none, mid, right, rshift, Ghost(low))
    } else if lshift == 0 {
        let le = leaf_elems(l);
        let re = leaf_elems(r);
        let mut out: Vec<Value> = Vec::new();
        if le.len() + re.len() <= B {
            let mut buf = copy(le, 0, le.len());
            let mut more = copy(re, 0, re.len());
            buf.append(&mut more);
            proof {
                assert(buf@ =~= ls + rs);
                assert forall|i: int| 0 <= i < buf@.len() implies fits(imm, #[trigger] buf@[i]) by {
                    if i < ls.len() {
                        assert(fits(imm, ls[i]));
                    } else {
                        assert(fits(imm, rs[i - ls.len()]));
                    }
                }
            }
            let one = leaf_from(a, buf);
            let ghost o0 = one;
            out.push(one);
            proof {
                assert(out@ =~= seq![o0]);
                lemma_elems_one(o0);
            }
        } else {
            out.push(l.clone());
            out.push(r.clone());
            proof {
                assert(out@ =~= seq![*l] + seq![*r]);
                lemma_elems_add(seq![*l], seq![*r]);
                lemma_elems_one(*l);
                lemma_elems_one(*r);
            }
        }
        out
    } else {
        let lc = node_slots(l, Ghost(hl));
        let rc = node_slots(r, Ghost(hr));
        let n: usize = lc.len();
        let k: usize = rc.len();
        let ghost low = (hl - 1) as nat;
        proof {
            lemma_last(imm, ls, low);
            lemma_first(imm, rs, low);
        }
        let mid = concat_sub(
            a,
            &lc[n - 1],
            lshift - BITS,
            &rc[0],
            rshift - BITS,
            Ghost(low),
            Ghost(low),
        );
        let left = copy(lc, 0, n - 1);
        let right = copy(rc, 1, k);
        let ghost m0 = mid@;
        proof {
            assert(left@ =~= ls.drop_last());
            assert(right@ =~= rs.skip(1));
            assert(elems_all(left@) + elems_all(m0) + elems_all(right@) =~= elems(*l) + elems(
                *r,
            ));
        }
        rebalance(a, left, mid, right, lshift, Ghost(low))
    }
}

proof fn lemma_last(imm: bool, vs: Seq<Value>, h: nat)
    requires
        all_usable(imm, vs, h),
        vs.len() >= 1,
    ensures
        usable(imm, vs[vs.len() - 1], h),
        all_usable(imm, vs.drop_last(), h),
        elems_all(vs) == elems_all(vs.drop_last()) + elems(vs[vs.len() - 1]),
{
    assert(node(vs[vs.len() - 1], h) && fits(imm, vs[vs.len() - 1]));
    assert forall|i: int| 0 <= i < vs.drop_last().len() implies node(
        #[trigger] vs.drop_last()[i],
        h,
    ) && fits(imm, vs.drop_last()[i]) by {
        assert(node(vs[i], h) && fits(imm, vs[i]));
    }
}

proof fn lemma_first(imm: bool, vs: Seq<Value>, h: nat)
    requires
        all_usable(imm, vs, h),
        vs.len() >= 1,
    ensures
        usable(imm, vs[0], h),
        all_usable(imm, vs.skip(1), h),
        elems_all(vs) == elems(vs[0]) + elems_all(vs.skip(1)),
{
    assert(node(vs[0], h) && fits(imm, vs[0]));
    assert forall|i: int| 0 <= i < vs.skip(1).len() implies node(#[trigger] vs.skip(1)[i], h)
        && fits(imm, vs.skip(1)[i]) by {
        assert(node(vs[i + 1], h) && fits(imm, vs[i + 1]));
    }
    assert(vs =~= seq![vs[0]] + vs.skip(1));
    lemma_elems_add(seq![vs[0]], vs.skip(1));
    lemma_elems_one(vs[0]);
}

/// How many slots each node has.
fn slot_counts(all: &Vec<Value>, Ghost(h): Ghost<nat>) -> (r: Vec<usize>)
    requires
        nodes(all@, h),
    ensures
        r@ == counted(all@),
{
    let mut out: Vec<usize> = Vec::new();
    let mut i: usize = 0;
    while i < all.len()
        invariant
            i <= all@.len(),
            nodes(all@, h),
            out@.len() == i,
            forall|k: int| 0 <= k < i ==> #[trigger] out@[k] == counted(all@)[k],
        decreases all@.len() - i,
    {
        proof {
            assert(node(all@[i as int], h));
        }
        let n: usize = node_slots(&all[i], Ghost(h)).len();
        out.push(n);
        i += 1;
    }
    proof {
        assert(out@ =~= counted(all@));
    }
    out
}

fn sum(counts: &Vec<usize>) -> (r: usize)
    requires
        countable(counts@),
        counts@.len() <= 64,
    ensures
        r == total(counts@),
        r <= 2048,
{
    let mut s: usize = 0;
    let mut i: usize = 0;
    proof {
        assert(counts@.take(0) =~= Seq::empty());
    }
    while i < counts.len()
        invariant
            i <= counts@.len() <= 64,
            countable(counts@),
            s == total(counts@.take(i as int)),
            s <= 32 * i,
        decreases counts@.len() - i,
    {
        proof {
            assert(counts@.take(i + 1).drop_last() =~= counts@.take(i as int));
            assert(counts@.take(i + 1).last() == counts@[i as int]);
        }
        s = s + counts[i];
        i += 1;
    }
    proof {
        assert(counts@.take(i as int) =~= counts@);
    }
    s
}

/// Regroup up to 64 nodes, left siblings then the merged middle then right
/// siblings, into one or two nodes a level up, moving slots between them first
/// when their packing is more than [`E_MAX`] nodes worse than the tightest.
fn rebalance<A: Arena>(
    a: &mut A,
    left: Vec<Value>,
    mid: Vec<Value>,
    right: Vec<Value>,
    shift: usize,
    Ghost(h): Ghost<nat>,
) -> (out: Vec<Value>)
    requires
        all_usable(old(a).immortal(), left@, h),
        all_usable(old(a).immortal(), mid@, h),
        all_usable(old(a).immortal(), right@, h),
        left@.len() <= 31,
        1 <= mid@.len() <= 2,
        right@.len() <= 31,
        shift == 5 * (h + 1),
        (elems_all(left@) + elems_all(mid@) + elems_all(right@)).len() <= usize::MAX,
    ensures
        final(a).immortal() == old(a).immortal(),
        all_usable(old(a).immortal(), out@, h + 1),
        1 <= out@.len() <= 2,
        elems_all(out@) == elems_all(left@) + elems_all(mid@) + elems_all(right@),
        slots_all(slots_all(out@)) == slots_all(left@ + mid@ + right@),
        well_packed(slots_all(out@).len(), slots_all(slots_all(out@)).len()),
        out@.len() == 2 <==> slots_all(out@).len() > 32,
{
    let ghost imm = a.immortal();
    let ghost (l0, m0, r0) = (left@, mid@, right@);
    let ghost target = elems_all(l0) + elems_all(m0) + elems_all(r0);
    let mut all = left;
    let mut mid = mid;
    let mut right = right;
    all.append(&mut mid);
    all.append(&mut right);
    proof {
        assert(all@ =~= l0 + m0 + r0);
        lemma_elems_add(l0 + m0, r0);
        lemma_elems_add(l0, m0);
        assert forall|i: int| 0 <= i < all@.len() implies node(#[trigger] all@[i], h) && fits(
            imm,
            all@[i],
        ) by {
            if i < l0.len() {
                assert(node(l0[i], h) && fits(imm, l0[i]));
            } else if i < l0.len() + m0.len() {
                assert(node(m0[i - l0.len()], h) && fits(imm, m0[i - l0.len()]));
            } else {
                assert(node(r0[i - l0.len() - m0.len()], h) && fits(
                    imm,
                    r0[i - l0.len() - m0.len()],
                ));
            }
        }
        lemma_counted(all@, h);
    }
    let counts = slot_counts(&all, Ghost(h));
    let n = sum(&counts);
    proof {
        lemma_total_high(counts@);
    }
    let optimal = optimal_nodes(n);
    if all.len() > optimal + E_MAX {
        let p = plan(counts, optimal);
        all = execute_plan(a, &all, &p, shift - BITS, Ghost(h));
    }
    proof {
        assert(slots_all(all@) == slots_all(l0 + m0 + r0));
        assert(well_packed(all@.len(), slots_all(all@).len()));
    }
    group(a, all, shift, Ghost(h))
}

/// Up to 64 nodes under one or two a level up.
fn group<A: Arena>(a: &mut A, all: Vec<Value>, shift: usize, Ghost(h): Ghost<nat>) -> (out: Vec<
    Value,
>)
    requires
        all_usable(old(a).immortal(), all@, h),
        1 <= all@.len() <= 64,
        shift == 5 * (h + 1),
        elems_all(all@).len() <= usize::MAX,
    ensures
        final(a).immortal() == old(a).immortal(),
        all_usable(old(a).immortal(), out@, h + 1),
        1 <= out@.len() <= 2,
        elems_all(out@) == elems_all(all@),
        slots_all(out@) == all@,
        out@.len() == 2 <==> all@.len() > 32,
{
    let ghost imm = a.immortal();
    let mut out: Vec<Value> = Vec::new();
    let count: usize = all.len();
    if count <= B {
        let one = branch_from(a, shift, all, Ghost(h));
        let ghost o0 = one;
        out.push(one);
        proof {
            assert(out@ =~= seq![o0]);
            lemma_elems_one(o0);
            lemma_slots_one(o0);
        }
    } else {
        let ghost a0 = all@;
        let first = copy(&all, 0, B);
        let second = copy(&all, B, count);
        let ghost (f0, s0) = (first@, second@);
        proof {
            assert(a0 =~= f0 + s0);
            lemma_elems_add(f0, s0);
            assert forall|i: int| 0 <= i < f0.len() implies node(#[trigger] f0[i], h) && fits(
                imm,
                f0[i],
            ) by {
                assert(node(a0[i], h) && fits(imm, a0[i]));
            }
            assert forall|i: int| 0 <= i < s0.len() implies node(#[trigger] s0[i], h) && fits(
                imm,
                s0[i],
            ) by {
                assert(node(a0[i + 32], h) && fits(imm, a0[i + 32]));
            }
        }
        let x = branch_from(a, shift, first, Ghost(h));
        let y = branch_from(a, shift, second, Ghost(h));
        let ghost (x0, y0) = (x, y);
        out.push(x);
        out.push(y);
        proof {
            assert(out@ =~= seq![x0] + seq![y0]);
            lemma_elems_add(seq![x0], seq![y0]);
            lemma_elems_one(x0);
            lemma_elems_one(y0);
            lemma_slots_add(seq![x0], seq![y0]);
            lemma_slots_one(x0);
            lemma_slots_one(y0);
        }
    }
    out
}

/// Rebuild a run of sibling nodes to the slot counts in `plan`, streaming their
/// slots in order. A node whose count already matches is kept as it is.
fn execute_plan<A: Arena>(
    a: &mut A,
    old_nodes: &Vec<Value>,
    plan: &Vec<usize>,
    child_shift: usize,
    Ghost(h): Ghost<nat>,
) -> (out: Vec<Value>)
    requires
        all_usable(old(a).immortal(), old_nodes@, h),
        child_shift == 5 * h,
        countable(plan@),
        1 <= plan@.len() <= 64,
        total(plan@) == slots_all(old_nodes@).len(),
        elems_all(old_nodes@).len() <= usize::MAX,
    ensures
        final(a).immortal() == old(a).immortal(),
        all_usable(old(a).immortal(), out@, h),
        out@.len() == plan@.len(),
        slots_all(out@) == slots_all(old_nodes@),
        elems_all(out@) == elems_all(old_nodes@),
{
    let ghost imm = a.immortal();
    let ghost olds = old_nodes@;
    let ghost stream = slots_all(olds);
    let mut out: Vec<Value> = Vec::new();
    let mut src: usize = 0;
    let mut off: usize = 0;
    let mut p: usize = 0;
    let ghost mut pos: int = 0;
    proof {
        lemma_slots_all(imm, olds, h);
        assert(olds.take(0) =~= Seq::empty());
        assert(plan@.take(0) =~= Seq::empty());
        assert(stream.take(0) =~= Seq::empty());
        assert(slots_all(out@) =~= Seq::empty());
    }
    while p < plan.len()
        invariant
            p <= plan@.len() <= 64,
            olds == old_nodes@,
            stream == slots_all(olds),
            a.immortal() == imm,
            imm == old(a).immortal(),
            all_usable(imm, olds, h),
            all_fit(imm, stream),
            h > 0 ==> nodes(stream, (h - 1) as nat) && elems_all(olds) == elems_all(stream),
            h == 0 ==> elems_all(olds) == stream,
            child_shift == 5 * h,
            countable(plan@),
            total(plan@) == stream.len(),
            elems_all(olds).len() <= usize::MAX,
            pos == total(plan@.take(p as int)),
            at_pos(olds, src as int, off as int, pos),
            all_usable(imm, out@, h),
            out@.len() == p,
            slots_all(out@) == stream.take(pos),
        decreases plan@.len() - p,
    {
        let want: usize = plan[p];
        let ghost out0 = out@;
        let ghost pos0 = pos;
        proof {
            assert(plan@.take(p + 1).drop_last() =~= plan@.take(p as int));
            assert(plan@.take(p + 1).last() == plan@[p as int]);
            assert(1 <= plan@[p as int] <= 32);
            lemma_total_take(plan@, p + 1);
            lemma_src_in(olds, h, src as int, off as int, pos);
            assert(node(olds[src as int], h) && fits(imm, olds[src as int]));
        }
        let here: usize = node_slots(&old_nodes[src], Ghost(h)).len();
        if off == 0 && here == want {
            let kept = old_nodes[src].clone();
            out.push(kept);
            proof {
                lemma_at_next(olds, src as int, pos);
                assert(out@.drop_last() =~= out0);
                assert(stream.take(pos + want) =~= stream.take(pos) + slots(olds[src as int]));
                pos = pos + want;
            }
            assert(old_nodes@.len() == old_nodes.len());
            src += 1;
        } else {
            let mut buf: Vec<Value> = Vec::new();
            proof {
                assert(buf@ =~= stream.subrange(pos0, pos));
            }
            while buf.len() < want
                invariant
                    olds == old_nodes@,
                    stream == slots_all(olds),
                    all_usable(imm, olds, h),
                    1 <= want <= 32,
                    pos0 + want <= stream.len(),
                    buf@.len() <= want,
                    pos == pos0 + buf@.len(),
                    0 <= pos0,
                    at_pos(olds, src as int, off as int, pos),
                    buf@ == stream.subrange(pos0, pos),
                decreases want - buf@.len(),
            {
                proof {
                    lemma_src_in(olds, h, src as int, off as int, pos);
                    assert(node(olds[src as int], h) && fits(imm, olds[src as int]));
                }
                let items = node_slots(&old_nodes[src], Ghost(h));
                let x = items[off].clone();
                proof {
                    lemma_at_slot(olds, src as int, off as int, pos);
                    assert(stream.subrange(pos0, pos + 1) =~= stream.subrange(pos0, pos).push(
                        stream[pos],
                    ));
                }
                buf.push(x);
                off += 1;
                if off == items.len() {
                    proof {
                        lemma_at_wrap(olds, src as int, off as int, pos + 1);
                    }
                    assert(old_nodes@.len() == old_nodes.len());
                    src += 1;
                    off = 0;
                }
                proof {
                    pos = pos + 1;
                }
            }
            proof {
                lemma_fit_sub(imm, stream, pos0, pos);
                if h > 0 {
                    lemma_node_sub(stream, (h - 1) as nat, pos0, pos);
                    lemma_elems_sub(stream, pos0, pos);
                }
            }
            let made = if child_shift == 0 {
                leaf_from(a, buf)
            } else {
                branch_from(a, child_shift, buf, Ghost((h - 1) as nat))
            };
            let ghost m0 = made;
            out.push(made);
            proof {
                assert(out@.drop_last() =~= out0);
                assert(slots(m0) == stream.subrange(pos0, pos));
                assert(stream.take(pos) =~= stream.take(pos0) + stream.subrange(pos0, pos));
            }
        }
        proof {
            assert forall|i: int| 0 <= i < out@.len() implies node(#[trigger] out@[i], h) && fits(
                imm,
                out@[i],
            ) by {
                if i < out0.len() {
                    assert(node(out0[i], h) && fits(imm, out0[i]));
                }
            }
        }
        p += 1;
    }
    proof {
        assert(plan@.take(p as int) =~= plan@);
        assert(stream.take(pos) =~= stream);
        lemma_slots_all(imm, out@, h);
    }
    out
}

/// Slot `off` of node `src` is slot `pos` of them all.
spec fn at_pos(olds: Seq<Value>, src: int, off: int, pos: int) -> bool {
    &&& 0 <= src <= olds.len()
    &&& 0 <= off
    &&& pos == slots_all(olds.take(src)).len() + off
    &&& src < olds.len() ==> off < slots(olds[src]).len()
    &&& src == olds.len() ==> off == 0
}

proof fn lemma_slots_take(olds: Seq<Value>, k: int)
    requires
        0 <= k < olds.len(),
    ensures
        slots_all(olds.take(k + 1)) == slots_all(olds.take(k)) + slots(olds[k]),
        slots_all(olds) == slots_all(olds.take(k + 1)) + slots_all(olds.skip(k + 1)),
{
    assert(olds.take(k + 1).drop_last() =~= olds.take(k));
    assert(olds.take(k + 1).last() == olds[k]);
    assert(olds =~= olds.take(k + 1) + olds.skip(k + 1));
    lemma_slots_add(olds.take(k + 1), olds.skip(k + 1));
}

proof fn lemma_src_in(olds: Seq<Value>, h: nat, src: int, off: int, pos: int)
    requires
        nodes(olds, h),
        at_pos(olds, src, off, pos),
        pos < slots_all(olds).len(),
    ensures
        src < olds.len(),
{
    if src == olds.len() {
        assert(olds.take(src) =~= olds);
    }
}

proof fn lemma_at_slot(olds: Seq<Value>, src: int, off: int, pos: int)
    requires
        at_pos(olds, src, off, pos),
        src < olds.len(),
    ensures
        pos < slots_all(olds).len(),
        slots_all(olds)[pos] == slots(olds[src])[off],
{
    lemma_slots_take(olds, src);
}

proof fn lemma_at_wrap(olds: Seq<Value>, src: int, off: int, pos: int)
    requires
        0 <= src < olds.len(),
        off == slots(olds[src]).len(),
        pos == slots_all(olds.take(src)).len() + off,
        forall|i: int| 0 <= i < olds.len() ==> slots(#[trigger] olds[i]).len() >= 1,
    ensures
        at_pos(olds, src + 1, 0, pos),
{
    lemma_slots_take(olds, src);
    if src + 1 < olds.len() {
        assert(slots(olds[src + 1]).len() >= 1);
    }
}

proof fn lemma_at_next(olds: Seq<Value>, src: int, pos: int)
    requires
        at_pos(olds, src, 0, pos),
        src < olds.len(),
        forall|i: int| 0 <= i < olds.len() ==> slots(#[trigger] olds[i]).len() >= 1,
    ensures
        at_pos(olds, src + 1, 0, pos + slots(olds[src]).len()),
        pos + slots(olds[src]).len() <= slots_all(olds).len(),
        slots_all(olds).subrange(pos, pos + slots(olds[src]).len()) == slots(olds[src]),
{
    lemma_at_wrap(olds, src, slots(olds[src]).len() as int, pos + slots(olds[src]).len());
    lemma_slots_take(olds, src);
    assert(slots_all(olds).subrange(pos, pos + slots(olds[src]).len()) =~= slots(olds[src]));
}

proof fn lemma_total_take(counts: Seq<usize>, k: int)
    requires
        0 <= k <= counts.len(),
    ensures
        total(counts.take(k)) <= total(counts),
{
    assert(counts =~= counts.take(k) + counts.skip(k));
    lemma_total_add(counts.take(k), counts.skip(k));
}

proof fn lemma_fit_sub(imm: bool, vs: Seq<Value>, i: int, j: int)
    requires
        all_fit(imm, vs),
        0 <= i <= j <= vs.len(),
    ensures
        all_fit(imm, vs.subrange(i, j)),
{
    assert forall|k: int| 0 <= k < j - i implies fits(imm, #[trigger] vs.subrange(i, j)[k]) by {
        assert(fits(imm, vs[i + k]));
    }
}

proof fn lemma_node_sub(vs: Seq<Value>, h: nat, i: int, j: int)
    requires
        nodes(vs, h),
        0 <= i <= j <= vs.len(),
    ensures
        nodes(vs.subrange(i, j), h),
{
    assert forall|k: int| 0 <= k < j - i implies node(#[trigger] vs.subrange(i, j)[k], h) by {
        assert(node(vs[i + k], h));
    }
}

proof fn lemma_elems_sub(vs: Seq<Value>, i: int, j: int)
    requires
        0 <= i <= j <= vs.len(),
    ensures
        elems_all(vs.subrange(i, j)).len() <= elems_all(vs).len(),
{
    let a = vs.take(i);
    let b = vs.subrange(i, j);
    let c = vs.skip(j);
    assert(vs =~= a + b + c);
    lemma_elems_add(a + b, c);
    lemma_elems_add(a, b);
}

} // verus!
