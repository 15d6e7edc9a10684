//! Arms of a match that are there already: none of them is useful again.

use crate::types::exhaustiveness::{
    alternatives, alternatives_of, ctors_of, defaulted, heads, is_complete_in, lemma_useful_steps,
    or_depth, pattern_sig, row_heads, row_weight, rows_weight, specialized, useful, wilds, Pat,
    RcType,
};
use vstd::prelude::*;

verus! {

/// A pattern has as many arguments as its constructor takes, all the way down.
/// A constructor that the type does not have takes as many as it is given.
pub open spec fn aligned(p: Pat, t: RcType) -> bool
    decreases p,
{
    match p {
        Pat::Wildcard => true,
        Pat::Ctor { id, args } => {
            let c = pattern_sig(t, id, args@.len());
            &&& c.types.len() == args@.len()
            &&& forall|i: int| 0 <= i < args@.len() ==> aligned(#[trigger] args@[i], c.types[i])
        },
        Pat::Or { patterns } => forall|i: int|
            0 <= i < patterns@.len() ==> aligned(#[trigger] patterns@[i], t),
    }
}

/// A row has a pattern for each column, each with the arguments it takes.
pub open spec fn row_aligned(row: Seq<Pat>, ts: Seq<RcType>) -> bool {
    row.len() == ts.len() && forall|i: int|
        0 <= i < row.len() ==> aligned(#[trigger] row[i], ts[i])
}

/// Whatever `q` starts with, a row starts with it and goes on as `q` does.
spec fn there(rows: Seq<Seq<Pat>>, q: Seq<Pat>) -> bool {
    if q.len() == 0 {
        rows.len() > 0
    } else {
        forall|j: int|
            0 <= j < alternatives(q[0]).len() ==> heads(rows).contains(
                (#[trigger] alternatives(q[0])[j], q.drop_first()),
            )
    }
}

proof fn lemma_there(rows: Seq<Seq<Pat>>, q: Seq<Pat>)
    requires
        rows.contains(q),
    ensures
        there(rows, q),
    decreases rows.len(),
{
    if q.len() > 0 {
        assert forall|j: int| 0 <= j < alternatives(q[0]).len() implies heads(rows).contains(
            (#[trigger] alternatives(q[0])[j], q.drop_first()),
        ) by {
            let h = (alternatives(q[0])[j], q.drop_first());
            let before = heads(rows.drop_last());
            if rows.last() == q {
                assert(row_heads(q)[j] == h);
                assert(heads(rows)[before.len() + j] == h);
            } else {
                let i = choose|i: int| 0 <= i < rows.len() && rows[i] == q;
                assert(rows.drop_last()[i] == q);
                lemma_there(rows.drop_last(), q);
                let k = choose|k: int| 0 <= k < before.len() && before[k] == h;
                assert(heads(rows)[k] == h);
            }
        }
    }
}

proof fn lemma_specialized_has(hs: Seq<(Pat, Seq<Pat>)>, h: (Pat, Seq<Pat>), id: u32, n: nat)
    requires
        hs.contains(h),
    ensures
        h.0 is Wildcard ==> specialized(hs, id, n).contains(wilds(n) + h.1),
        h.0 matches Pat::Ctor { id: i, args } ==> i == id ==> specialized(hs, id, n).contains(
            args@ + h.1,
        ),
    decreases hs.len(),
{
    let all = specialized(hs, id, n);
    let before = specialized(hs.drop_last(), id, n);
    if hs.last() == h {
        assert(all.len() > 0 ==> all.contains(all[all.len() - 1]));
    } else {
        let i = choose|i: int| 0 <= i < hs.len() && hs[i] == h;
        assert(hs.drop_last()[i] == h);
        lemma_specialized_has(hs.drop_last(), h, id, n);
        assert forall|row: Seq<Pat>| before.contains(row) implies all.contains(row) by {
            let k = choose|k: int| 0 <= k < before.len() && before[k] == row;
            assert(all[k] == row);
        }
    }
}

proof fn lemma_defaulted_has(hs: Seq<(Pat, Seq<Pat>)>, h: (Pat, Seq<Pat>))
    requires
        hs.contains(h),
        h.0 is Wildcard,
    ensures
        defaulted(hs).contains(h.1),
    decreases hs.len(),
{
    let all = defaulted(hs);
    let before = defaulted(hs.drop_last());
    if hs.last() == h {
        assert(all[all.len() - 1] == h.1);
    } else {
        let i = choose|i: int| 0 <= i < hs.len() && hs[i] == h;
        assert(hs.drop_last()[i] == h);
        lemma_defaulted_has(hs.drop_last(), h);
        let k = choose|k: int| 0 <= k < before.len() && before[k] == h.1;
        assert(all[k] == h.1);
    }
}

/// Any alternative of a part is one of the whole.
proof fn lemma_part_alternatives(ps: Seq<Pat>, k: int, j: int) -> (i: int)
    requires
        0 <= k < ps.len(),
        0 <= j < alternatives(ps[k]).len(),
    ensures
        0 <= i < alternatives_of(ps).len(),
        alternatives_of(ps)[i] == alternatives(ps[k])[j],
    decreases ps.len(),
{
    let before = alternatives_of(ps.drop_last());
    if k == ps.len() - 1 {
        before.len() + j
    } else {
        assert(ps.drop_last()[k] == ps[k]);
        lemma_part_alternatives(ps.drop_last(), k, j)
    }
}

/// An arm that is among the rows is not useful, whatever rows stand before and
/// after it and whatever their patterns are.
pub proof fn law_repeated_arm_is_redundant(rows: Seq<Seq<Pat>>, q: Seq<Pat>, ts: Seq<RcType>)
    requires
        rows.contains(q),
        row_aligned(q, ts),
    ensures
        !useful(rows, q, ts),
{
    lemma_there(rows, q);
    lemma_redundant(rows, q, ts);
}

/// An arm that was found useful or not and then pushed is redundant from then
/// on.
pub proof fn law_pushed_arm_stays_redundant(
    rows: Seq<Seq<Pat>>,
    q: Seq<Pat>,
    more: Seq<Seq<Pat>>,
    ts: Seq<RcType>,
)
    requires
        row_aligned(q, ts),
    ensures
        !useful(rows.push(q) + more, q, ts),
{
    let all = rows.push(q) + more;
    assert(all[rows.len() as int] == q);
    law_repeated_arm_is_redundant(all, q, ts);
}

proof fn lemma_redundant(rows: Seq<Seq<Pat>>, q: Seq<Pat>, ts: Seq<RcType>)
    requires
        there(rows, q),
        row_aligned(q, ts),
    ensures
        !useful(rows, q, ts),
    decreases
            rows_weight(rows) + row_weight(q),
            q.len(),
            (if q.len() > 0 {
                or_depth(q[0])
            } else {
                0
            }),
{
    if q.len() > 0 {
        let rest = q.drop_first();
        let trest = ts.drop_first();
        let cs = ctors_of(ts[0]);
        lemma_useful_steps(rows, q, ts);
        assert(aligned(q[0], ts[0]));
        assert forall|i: int| 0 <= i < rest.len() implies aligned(#[trigger] rest[i], trest[i]) by {
            assert(aligned(q[i + 1], ts[i + 1]));
        }
        match q[0] {
            Pat::Wildcard => {
                let h = (alternatives(q[0])[0], rest);
                assert(heads(rows).contains(h));
                if is_complete_in(rows, ts[0]) {
                    assert forall|k: int| 0 <= k < cs.len() implies !useful(
                        specialized(heads(rows), (#[trigger] cs[k]).id, cs[k].types.len()),
                        wilds(cs[k].types.len()) + rest,
                        cs[k].types + trest,
                    ) by {
                        let n = cs[k].types.len();
                        let sub = specialized(heads(rows), cs[k].id, n);
                        lemma_specialized_has(heads(rows), h, cs[k].id, n);
                        lemma_there(sub, wilds(n) + rest);
                        assert(row_aligned(wilds(n) + rest, cs[k].types + trest));
                        lemma_redundant(sub, wilds(n) + rest, cs[k].types + trest);
                    }
                } else {
                    lemma_defaulted_has(heads(rows), h);
                    lemma_there(defaulted(heads(rows)), rest);
                    lemma_redundant(defaulted(heads(rows)), rest, trest);
                }
            },
            Pat::Ctor { id, args } => {
                let h = (alternatives(q[0])[0], rest);
                assert(heads(rows).contains(h));
                let c = pattern_sig(ts[0], id, args@.len());
                let sub = specialized(heads(rows), id, c.types.len());
                lemma_specialized_has(heads(rows), h, id, c.types.len());
                lemma_there(sub, args@ + rest);
                assert(row_aligned(args@ + rest, c.types + trest)) by {
                    let all = args@ + rest;
                    assert forall|i: int| 0 <= i < all.len() implies aligned(
                        #[trigger] all[i],
                        (c.types + trest)[i],
                    ) by {
                        if i < args@.len() {
                            assert(aligned(args@[i], c.types[i]));
                        } else {
                            assert(aligned(rest[i - args@.len()], trest[i - args@.len()]));
                        }
                    }
                }
                lemma_redundant(sub, args@ + rest, c.types + trest);
            },
            Pat::Or { patterns } => {
                assert forall|k: int| 0 <= k < patterns@.len() implies !useful(
                    rows,
                    seq![#[trigger] patterns@[k]] + rest,
                    ts,
                ) by {
                    let p = patterns@[k];
                    let one = seq![p] + rest;
                    assert(one.drop_first() =~= rest);
                    assert forall|j: int| 0 <= j < alternatives(one[0]).len() implies heads(
                        rows,
                    ).contains((#[trigger] alternatives(one[0])[j], one.drop_first())) by {
                        let i = lemma_part_alternatives(patterns@, k, j);
                        assert(alternatives(q[0])[i] == alternatives(p)[j]);
                    }
                    assert(row_aligned(one, ts)) by {
                        assert forall|i: int| 0 <= i < one.len() implies aligned(
                            #[trigger] one[i],
                            ts[i],
                        ) by {
                            if i > 0 {
                                assert(aligned(rest[i - 1], trest[i - 1]));
                            }
                        }
                    }
                    lemma_redundant(rows, one, ts);
                }
            },
        }
    }
}

} // verus!
