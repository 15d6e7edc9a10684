//! Relaxed radix-balanced packing: how the nodes of a level are regrouped when
//! two trees are joined.

use vstd::prelude::*;

verus! {

/// Children per branch, and elements per leaf.
pub const B: usize = 32;

/// Bits of an index each level takes.
pub const BITS: usize = 5;

/// How many more nodes than the tightest packing a level may keep, which
/// bounds the extra steps a lookup takes.
pub const E_MAX: usize = 2;

/// The fewest nodes that hold `slots` slots.
pub open spec fn tightest(slots: nat) -> nat {
    (slots + 31) / 32
}

/// A level has at most [`E_MAX`] more nodes than its slots need.
pub open spec fn well_packed(nodes: nat, slots: nat) -> bool {
    nodes <= tightest(slots) + E_MAX
}

pub open spec fn total(counts: Seq<usize>) -> nat
    decreases counts.len(),
{
    if counts.len() == 0 {
        0
    } else {
        total(counts.drop_last()) + counts.last() as nat
    }
}

/// Every node has a slot, and none more than fit.
pub open spec fn countable(counts: Seq<usize>) -> bool {
    forall|i: int| 0 <= i < counts.len() ==> 1 <= #[trigger] counts[i] <= 32
}

pub proof fn lemma_total_add(a: Seq<usize>, b: Seq<usize>)
    ensures
        total(a + b) == total(a) + total(b),
    decreases b.len(),
{
    if b.len() == 0 {
        assert(a + b =~= a);
    } else {
        lemma_total_add(a, b.drop_last());
        assert((a + b).drop_last() =~= a + b.drop_last());
        assert((a + b).last() == b.last());
    }
}

/// At least `low` in each of them.
proof fn lemma_total_low(counts: Seq<usize>, low: nat)
    requires
        forall|i: int| 0 <= i < counts.len() ==> low <= #[trigger] counts[i],
    ensures
        low * counts.len() <= total(counts),
    decreases counts.len(),
{
    if counts.len() > 0 {
        lemma_total_low(counts.drop_last(), low);
        assert(low * counts.len() == low * (counts.len() - 1) + low) by (nonlinear_arith)
            requires
                counts.len() > 0,
        ;
    }
}

pub proof fn lemma_total_high(counts: Seq<usize>)
    requires
        countable(counts),
    ensures
        total(counts) <= 32 * counts.len(),
        total(counts) >= counts.len(),
    decreases counts.len(),
{
    if counts.len() > 0 {
        let init = counts.drop_last();
        assert forall|i: int| 0 <= i < init.len() implies 1 <= #[trigger] init[i] <= 32 by {
            assert(init[i] == counts[i]);
        }
        lemma_total_high(init);
        assert(1 <= counts[counts.len() - 1] <= 32);
    }
}

/// The first node from `from` on under `B - E_MAX / 2` slots.
pub open spec fn first_sparse(counts: Seq<usize>, from: int) -> int
    decreases counts.len() - from,
{
    if 0 <= from < counts.len() && counts[from] >= 31 {
        first_sparse(counts, from + 1)
    } else {
        from
    }
}

/// The nodes `rest` with `spill` slots more, filled from the front.
pub open spec fn spilled(spill: usize, rest: Seq<usize>) -> Seq<usize>
    decreases rest.len(),
{
    if spill == 0 {
        rest
    } else if rest.len() == 0 {
        seq![spill]
    } else if spill + rest[0] < 32 {
        seq![(spill + rest[0]) as usize] + rest.skip(1)
    } else {
        seq![32usize] + spilled((spill + rest[0] - 32) as usize, rest.skip(1))
    }
}

/// The nodes after node `i` was poured into those after it.
pub open spec fn poured(counts: Seq<usize>, i: int) -> Seq<usize> {
    counts.take(i) + spilled(counts[i], counts.skip(i + 1))
}

/// The nodes after `n` times the first sparse one was poured out.
pub open spec fn planned(counts: Seq<usize>, n: nat) -> Seq<usize>
    decreases n,
{
    if n == 0 {
        counts
    } else {
        planned(poured(counts, first_sparse(counts, 0)), (n - 1) as nat)
    }
}

/// The slot counts to repack a level to: while it has more than [`E_MAX`] nodes
/// past `optimal`, the first node under `B - E_MAX / 2` slots is poured into
/// the ones after it, and one node fewer is left. Such a node always exists
/// while the loop runs, and what it holds always finds room: otherwise the
/// level would already be within [`E_MAX`] of `optimal`.
pub fn plan(counts: Vec<usize>, optimal: usize) -> (r: Vec<usize>)
    requires
        countable(counts@),
        1 <= counts@.len() <= 64,
        total(counts@) <= 32 * optimal,
        optimal >= 1,
        optimal <= 64,
    ensures
        countable(r@),
        total(r@) == total(counts@),
        1 <= r@.len() <= counts@.len(),
        r@.len() <= optimal + E_MAX,
        counts@.len() <= optimal + E_MAX ==> r@ == counts@,
        counts@.len() > optimal + E_MAX ==> r@ == planned(
            counts@,
            (counts@.len() - optimal - E_MAX) as nat,
        ),
{
    let mut plan = counts;
    let ghost sum = total(counts@);
    while plan.len() > optimal + E_MAX
        invariant
            countable(plan@),
            total(plan@) == sum,
            1 <= plan@.len() <= counts@.len() <= 64,
            counts@.len() <= optimal + E_MAX ==> plan@ == counts@,
            counts@.len() > optimal + E_MAX ==> {
                &&& plan@.len() >= optimal + E_MAX
                &&& planned(plan@, (plan@.len() - optimal - E_MAX) as nat) == planned(
                    counts@,
                    (counts@.len() - optimal - E_MAX) as nat,
                )
            },
            sum <= 32 * optimal,
            1 <= optimal <= 64,
        decreases plan@.len(),
    {
        let ghost before = plan@;
        let mut i: usize = 0;
        while i < plan.len() && plan[i] >= B - E_MAX / 2
            invariant
                i <= plan@.len() <= 64,
                plan@ == before,
                first_sparse(plan@, 0) == first_sparse(plan@, i as int),
                forall|k: int| 0 <= k < i ==> 31 <= #[trigger] plan@[k],
            decreases plan@.len() - i,
        {
            i += 1;
        }
        proof {
            if i == plan@.len() {
                lemma_total_low(plan@, 31);
            }
        }
        pour(&mut plan, i, optimal);
    }
    plan
}

/// Empty node `i` into the ones after it and drop the node that leaves.
fn pour(plan: &mut Vec<usize>, i: usize, optimal: usize)
    requires
        countable(old(plan)@),
        i < old(plan)@.len() <= 64,
        old(plan)@.len() > optimal + 2,
        total(old(plan)@) <= 32 * optimal,
        forall|k: int| 0 <= k < i ==> 31 <= #[trigger] old(plan)@[k],
    ensures
        countable(final(plan)@),
        total(final(plan)@) == total(old(plan)@),
        final(plan)@.len() == old(plan)@.len() - 1,
        final(plan)@ == poured(old(plan)@, i as int),
{
    let ghost before = plan@;
    let ghost n = plan@.len();
    let mut spill: usize = plan[i];
    let mut j: usize = i;
    proof {
        assert(before.take(i as int) + seq![before[i as int]] =~= before.take(i + 1));
        lemma_total_add(before.take(i as int), seq![before[i as int]]);
        assert(seq![before[i as int]].drop_last() =~= Seq::<usize>::empty());
        assert(total(Seq::<usize>::empty()) == 0);
        assert(total(seq![before[i as int]]) == before[i as int]);
        assert(plan@.take(i as int) == before.take(i as int));
    }
    while spill > 0 && j + 1 < plan.len()
        invariant
            i <= j < plan@.len() == n,
            n <= 64,
            before.len() == n,
            countable(before),
            spill <= 32,
            plan@.take(i as int) == before.take(i as int),
            forall|k: int| 0 <= k < plan@.len() ==> 1 <= #[trigger] plan@[k] <= 32,
            forall|k: int| j < k < n ==> plan@[k] == #[trigger] before[k],
            total(plan@.take(j as int)) + spill == total(before.take(j + 1)),
            spill > 0 ==> forall|k: int| i <= k < j ==> #[trigger] plan@[k] == 32,
            poured(before, i as int) == plan@.take(j as int) + spilled(spill, before.skip(j + 1)),
        decreases n - j,
    {
        let next: usize = plan[j + 1];
        let merged: usize = if spill + next < B {
            spill + next
        } else {
            B
        };
        let ghost s0 = spill;
        let ghost p0 = plan@;
        spill = spill + next - merged;
        plan.set(j, merged);
        proof {
            let p1 = plan@;
            assert(p1.take(j + 1) =~= p0.take(j as int).push(merged));
            assert(p1.take(j + 1).drop_last() =~= p0.take(j as int));
            assert(before.take(j + 2).drop_last() =~= before.take(j + 1));
            assert(before.take(j + 2).last() == before[j + 1]);
            assert(p1.take(i as int) =~= before.take(i as int));
            let rest = before.skip(j + 1);
            assert(rest[0] == next);
            assert(rest.skip(1) =~= before.skip(j + 2));
            assert(spilled(s0, rest) == seq![merged] + spilled(spill, rest.skip(1)));
            assert(p0.take(j as int) + (seq![merged] + spilled(spill, rest.skip(1))) =~= p1.take(
                j + 1,
            ) + spilled(spill, rest.skip(1)));
        }
        j += 1;
    }
    proof {
        if spill > 0 {
            // Every node from `i` on is full but for what is left over.
            assert(j + 1 == n);
            let p = plan@.take(j as int);
            assert forall|k: int| 0 <= k < p.len() implies 31 <= #[trigger] p[k] by {
                if k < i {
                    assert(plan@.take(i as int)[k] == before.take(i as int)[k]);
                    assert(before[k] >= 31);
                } else {
                    assert(plan@[k] == 32);
                }
            }
            lemma_total_low(p, 31);
            assert(before.take(j + 1) =~= before);
        }
        assert(spill == 0);
        let p = plan@;
        let rest = p.skip(j + 1);
        assert(p.remove(j as int) =~= p.take(j as int) + rest);
        lemma_total_add(p.take(j as int), rest);
        assert(before.skip(j + 1) =~= rest);
        assert(before =~= before.take(j + 1) + before.skip(j + 1));
        lemma_total_add(before.take(j + 1), before.skip(j + 1));
    }
    plan.remove(j);
    proof {
        assert forall|k: int| 0 <= k < plan@.len() implies 1 <= #[trigger] plan@[k] <= 32 by {}
    }
}

/// The tightest packing of `n` slots.
pub fn optimal_nodes(n: usize) -> (r: usize)
    requires
        1 <= n <= 2048,
    ensures
        r == tightest(n as nat),
        n <= 32 * r,
        1 <= r <= 64,
{
    (n + B - 1) / B
}

} // verus!
