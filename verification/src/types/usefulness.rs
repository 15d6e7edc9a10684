//! What usefulness means: a useful pattern matches a value that no row does.
//!
//! Values are constructor trees. The matrix algorithm of
//! [`crate::types::exhaustiveness`] answers by taking constructors apart; the
//! laws here say that its answer is the right one for every well-typed matrix.

use crate::types::exhaustiveness::{
    alternatives, alternatives_of, ctors_of, ctors_wf, defaulted, find_sig, heads, is_complete_in,
    is_seen, lemma_find_sig, lemma_find_sig_is, lemma_step_weight, lemma_useful_steps, or_depth,
    pattern_sig, row_heads, row_weight, rows_weight, sig_of, specialized, type_wf, types_wf, useful,
    wild_views, wilds, first_missing, lemma_first_missing_is, lemma_witness_len, missing_head, witness, witness_from,
    CtorSig, Pat, PatView, RcType, TypeCtors, EMPTY_LIST_ID,
};
use vstd::prelude::*;

verus! {

/// A value: a constructor over values. Ids past every pattern's stand for the
/// constructors of a type that cannot be listed.
pub enum Val {
    Node { id: int, args: Seq<Val> },
}

impl Val {
    pub open spec fn id(self) -> int {
        match self {
            Val::Node { id, args } => id,
        }
    }

    pub open spec fn args(self) -> Seq<Val> {
        match self {
            Val::Node { id, args } => args,
        }
    }
}

/// Whether a pattern matches a value.
pub open spec fn matches_val(p: Pat, v: Val) -> bool
    decreases p,
{
    match p {
        Pat::Wildcard => true,
        Pat::Ctor { id, args } => v.id() == id && args@.len() == v.args().len() && forall|i: int|
            0 <= i < args@.len() ==> matches_val(#[trigger] args@[i], v.args()[i]),
        Pat::Or { patterns } => exists|i: int|
            0 <= i < patterns@.len() && matches_val(#[trigger] patterns@[i], v),
    }
}

/// [`matches_val`] for a pattern as the contracts speak of it.
pub open spec fn view_matches(p: PatView, v: Val) -> bool
    decreases p,
{
    match p {
        PatView::Wildcard => true,
        PatView::Ctor { id, args } => v.id() == id && args.len() == v.args().len() && forall|i: int|
            0 <= i < args.len() ==> view_matches(#[trigger] args[i], v.args()[i]),
        PatView::Or { patterns } => exists|i: int|
            0 <= i < patterns.len() && view_matches(#[trigger] patterns[i], v),
    }
}

/// Whether each pattern of a row matches the value in its column.
pub open spec fn row_matches(row: Seq<Pat>, vs: Seq<Val>) -> bool {
    row.len() == vs.len() && forall|i: int|
        0 <= i < row.len() ==> matches_val(#[trigger] row[i], vs[i])
}

pub open spec fn views_match(row: Seq<PatView>, vs: Seq<Val>) -> bool {
    row.len() == vs.len() && forall|i: int|
        0 <= i < row.len() ==> view_matches(#[trigger] row[i], vs[i])
}

/// Whether some row matches.
pub open spec fn any_matches(rows: Seq<Seq<Pat>>, vs: Seq<Val>) -> bool {
    exists|i: int| 0 <= i < rows.len() && row_matches(#[trigger] rows[i], vs)
}

/// Whether a value has the type.
pub open spec fn val_typed(v: Val, t: RcType) -> bool
    decreases v,
{
    t is Infinite || exists|k: int|
        0 <= k < ctors_of(t).len() && v.id() == (#[trigger] ctors_of(t)[k]).id && v.args().len()
            == ctors_of(t)[k].types.len() && forall|i: int|
            0 <= i < v.args().len() ==> val_typed(#[trigger] v.args()[i], ctors_of(t)[k].types[i])
}

pub open spec fn vals_typed(vs: Seq<Val>, ts: Seq<RcType>) -> bool {
    vs.len() == ts.len() && forall|i: int|
        0 <= i < vs.len() ==> val_typed(#[trigger] vs[i], ts[i])
}

/// Whether a pattern fits the type: its constructors are the type's own, with
/// as many arguments as they take; `arity` says how many a constructor of a
/// type that cannot be listed takes.
pub open spec fn pat_typed(p: Pat, t: RcType, arity: spec_fn(u32) -> nat) -> bool
    decreases p,
{
    match p {
        Pat::Wildcard => true,
        Pat::Ctor { id, args } => {
            let c = pattern_sig(t, id, args@.len());
            &&& t is Infinite ==> args@.len() == arity(id)
            &&& !(t is Infinite) ==> find_sig(ctors_of(t), id) is Some
            &&& c.types.len() == args@.len()
            &&& forall|i: int|
                0 <= i < args@.len() ==> pat_typed(#[trigger] args@[i], c.types[i], arity)
        },
        Pat::Or { patterns } => forall|i: int|
            0 <= i < patterns@.len() ==> pat_typed(#[trigger] patterns@[i], t, arity),
    }
}

pub open spec fn row_typed(row: Seq<Pat>, ts: Seq<RcType>, arity: spec_fn(u32) -> nat) -> bool {
    row.len() == ts.len() && forall|i: int|
        0 <= i < row.len() ==> pat_typed(#[trigger] row[i], ts[i], arity)
}

pub open spec fn rows_typed(
    rows: Seq<Seq<Pat>>,
    ts: Seq<RcType>,
    arity: spec_fn(u32) -> nat,
) -> bool {
    forall|i: int| 0 <= i < rows.len() ==> row_typed(#[trigger] rows[i], ts, arity)
}

/// No two constructors of a type have one id, all the way down.
pub open spec fn ids_distinct(t: RcType) -> bool
    decreases t,
{
    match t {
        RcType::Infinite => true,
        RcType::Array(a) => ids_distinct(a.element),
        RcType::Named(c) => ctors_distinct(*c),
        RcType::Tuple(c) => ctors_distinct(*c),
    }
}

pub open spec fn ctors_distinct(c: TypeCtors) -> bool
    decreases c,
{
    &&& forall|i: int, j: int|
        0 <= i < j < c.ctors@.len() ==> (#[trigger] c.ctors@[i]).id != (#[trigger] c.ctors@[j]).id
    &&& forall|i: int, j: int|
        0 <= i < c.ctors@.len() && 0 <= j < c.ctors@[i].types@.len() ==> ids_distinct(
            #[trigger] c.ctors@[i].types@[j],
        )
}

pub open spec fn types_distinct(ts: Seq<RcType>) -> bool {
    forall|i: int| 0 <= i < ts.len() ==> ids_distinct(#[trigger] ts[i])
}

/// A value that has the columns' types and `q` but no row matches.
pub open spec fn left_over(
    rows: Seq<Seq<Pat>>,
    q: Seq<Pat>,
    ts: Seq<RcType>,
    vs: Seq<Val>,
) -> bool {
    vals_typed(vs, ts) && row_matches(q, vs) && !any_matches(rows, vs)
}

// Every type has a value.

spec fn some_val(t: RcType) -> Val
    decreases t,
{
    match t {
        RcType::Infinite => Val::Node { id: 0, args: Seq::empty() },
        RcType::Array(a) => Val::Node { id: EMPTY_LIST_ID as int, args: Seq::empty() },
        RcType::Named(c) => if c.ctors@.len() > 0 {
            Val::Node { id: c.ctors@[0].id as int, args: some_vals(c.ctors@[0].types@) }
        } else {
            Val::Node { id: 0, args: Seq::empty() }
        },
        RcType::Tuple(c) => if c.ctors@.len() > 0 {
            Val::Node { id: c.ctors@[0].id as int, args: some_vals(c.ctors@[0].types@) }
        } else {
            Val::Node { id: 0, args: Seq::empty() }
        },
    }
}

spec fn some_vals(ts: Seq<RcType>) -> Seq<Val>
    decreases ts,
{
    if ts.len() == 0 {
        Seq::empty()
    } else {
        some_vals(ts.drop_last()).push(some_val(ts.last()))
    }
}

proof fn lemma_some_val(t: RcType)
    requires
        type_wf(t),
    ensures
        val_typed(some_val(t), t),
    decreases t,
{
    match t {
        RcType::Infinite => {},
        RcType::Array(a) => {
            assert(ctors_of(t)[0].types.len() == 0);
        },
        RcType::Named(c) => {
            assert(ctors_wf(*c));
            let ts = c.ctors@[0].types@;
            assert forall|i: int| 0 <= i < ts.len() implies type_wf(#[trigger] ts[i]) by {
                assert(type_wf(c.ctors@[0].types@[i]));
            }
            lemma_some_vals(ts);
            assert(ctors_of(t)[0] == sig_of(c.ctors@[0]));
            let v = some_val(t);
            assert(v.args() == some_vals(ts));
            assert(val_typed(v, t)) by {
                assert(v.id() == ctors_of(t)[0].id);
            }
        },
        RcType::Tuple(c) => {
            assert(ctors_wf(*c));
            let ts = c.ctors@[0].types@;
            assert forall|i: int| 0 <= i < ts.len() implies type_wf(#[trigger] ts[i]) by {
                assert(type_wf(c.ctors@[0].types@[i]));
            }
            lemma_some_vals(ts);
            assert(ctors_of(t)[0] == sig_of(c.ctors@[0]));
            let v = some_val(t);
            assert(v.args() == some_vals(ts));
            assert(val_typed(v, t)) by {
                assert(v.id() == ctors_of(t)[0].id);
            }
        },
    }
}

proof fn lemma_some_vals(ts: Seq<RcType>)
    requires
        types_wf(ts),
    ensures
        vals_typed(some_vals(ts), ts),
    decreases ts,
{
    if ts.len() > 0 {
        let init = ts.drop_last();
        lemma_some_vals(init);
        lemma_some_val(ts.last());
        let vs = some_vals(ts);
        assert forall|i: int| 0 <= i < vs.len() implies val_typed(#[trigger] vs[i], ts[i]) by {
            if i < init.len() {
                assert(vs[i] == some_vals(init)[i]);
                assert(ts[i] == init[i]);
            }
        }
    }
}

// Alternatives, heads and the two ways down.

proof fn lemma_alternatives_match(p: Pat, v: Val)
    ensures
        matches_val(p, v) <==> exists|j: int|
            0 <= j < alternatives(p).len() && matches_val(#[trigger] alternatives(p)[j], v),
    decreases p,
{
    match p {
        Pat::Or { patterns } => {
            lemma_alternatives_of_match(patterns@, v);
        },
        _ => {
            assert(alternatives(p)[0] == p);
        },
    }
}

proof fn lemma_alternatives_of_match(ps: Seq<Pat>, v: Val)
    ensures
        (exists|i: int| 0 <= i < ps.len() && matches_val(#[trigger] ps[i], v)) <==> exists|j: int|
            0 <= j < alternatives_of(ps).len() && matches_val(#[trigger] alternatives_of(ps)[j], v),
    decreases ps,
{
    if ps.len() > 0 {
        let init = ps.drop_last();
        let last = ps.last();
        lemma_alternatives_of_match(init, v);
        lemma_alternatives_match(last, v);
        let a = alternatives_of(init);
        let b = alternatives(last);
        let all = alternatives_of(ps);
        if exists|i: int| 0 <= i < ps.len() && matches_val(#[trigger] ps[i], v) {
            let i = choose|i: int| 0 <= i < ps.len() && matches_val(#[trigger] ps[i], v);
            if i < init.len() {
                assert(matches_val(init[i], v));
                let j = choose|j: int| 0 <= j < a.len() && matches_val(#[trigger] a[j], v);
                assert(all[j] == a[j]);
            } else {
                let j = choose|j: int| 0 <= j < b.len() && matches_val(#[trigger] b[j], v);
                assert(all[a.len() + j] == b[j]);
            }
        }
        if exists|j: int| 0 <= j < all.len() && matches_val(#[trigger] all[j], v) {
            let j = choose|j: int| 0 <= j < all.len() && matches_val(#[trigger] all[j], v);
            if j < a.len() {
                assert(a[j] == all[j]);
                let i = choose|i: int| 0 <= i < init.len() && matches_val(#[trigger] init[i], v);
                assert(matches_val(ps[i], v));
            } else {
                assert(b[j - a.len()] == all[j]);
                assert(matches_val(ps[ps.len() - 1], v));
            }
        }
    }
}

proof fn lemma_alternatives_typed(p: Pat, t: RcType, arity: spec_fn(u32) -> nat)
    requires
        pat_typed(p, t, arity),
    ensures
        forall|j: int|
            0 <= j < alternatives(p).len() ==> pat_typed(#[trigger] alternatives(p)[j], t, arity),
    decreases p,
{
    if let Pat::Or { patterns } = p {
        lemma_alternatives_of_typed(patterns@, t, arity);
        assert(alternatives(p) == alternatives_of(patterns@));
    } else {
        assert(alternatives(p) =~= seq![p]);
    }
}

proof fn lemma_alternatives_of_typed(ps: Seq<Pat>, t: RcType, arity: spec_fn(u32) -> nat)
    requires
        forall|i: int| 0 <= i < ps.len() ==> pat_typed(#[trigger] ps[i], t, arity),
    ensures
        forall|j: int|
            0 <= j < alternatives_of(ps).len() ==> pat_typed(
                #[trigger] alternatives_of(ps)[j],
                t,
                arity,
            ),
    decreases ps,
{
    if ps.len() > 0 {
        let a = alternatives_of(ps.drop_last());
        let b = alternatives(ps.last());
        lemma_alternatives_of_typed(ps.drop_last(), t, arity);
        lemma_alternatives_typed(ps.last(), t, arity);
        assert forall|j: int| 0 <= j < alternatives_of(ps).len() implies pat_typed(
            #[trigger] alternatives_of(ps)[j],
            t,
            arity,
        ) by {
            if j < a.len() {
                assert(alternatives_of(ps)[j] == a[j]);
            } else {
                assert(alternatives_of(ps)[j] == b[j - a.len()]);
            }
        }
    }
}

/// A head matches: its pattern the first value, its rest the others.
spec fn head_matches(h: (Pat, Seq<Pat>), vs: Seq<Val>) -> bool {
    matches_val(h.0, vs[0]) && row_matches(h.1, vs.drop_first())
}

spec fn any_head(hs: Seq<(Pat, Seq<Pat>)>, vs: Seq<Val>) -> bool {
    exists|j: int| 0 <= j < hs.len() && head_matches(#[trigger] hs[j], vs)
}

spec fn heads_typed(
    hs: Seq<(Pat, Seq<Pat>)>,
    ts: Seq<RcType>,
    arity: spec_fn(u32) -> nat,
) -> bool {
    forall|j: int|
        0 <= j < hs.len() ==> pat_typed((#[trigger] hs[j]).0, ts[0], arity) && row_typed(
            hs[j].1,
            ts.drop_first(),
            arity,
        )
}

proof fn lemma_row_heads(row: Seq<Pat>, vs: Seq<Val>)
    requires
        vs.len() > 0,
        row.len() == vs.len(),
    ensures
        row_matches(row, vs) <==> any_head(row_heads(row), vs),
{
    let hs = row_heads(row);
    let alts = alternatives(row[0]);
    lemma_alternatives_match(row[0], vs[0]);
    let rest = row.drop_first();
    let vrest = vs.drop_first();
    assert(row_matches(row, vs) <==> matches_val(row[0], vs[0]) && row_matches(rest, vrest)) by {
        if row_matches(row, vs) {
            assert(matches_val(row[0], vs[0]));
            assert forall|i: int| 0 <= i < rest.len() implies matches_val(
                #[trigger] rest[i],
                vrest[i],
            ) by {
                assert(matches_val(row[i + 1], vs[i + 1]));
            }
        }
        if matches_val(row[0], vs[0]) && row_matches(rest, vrest) {
            assert forall|i: int| 0 <= i < row.len() implies matches_val(
                #[trigger] row[i],
                vs[i],
            ) by {
                if i > 0 {
                    assert(matches_val(rest[i - 1], vrest[i - 1]));
                }
            }
        }
    }
    if row_matches(row, vs) {
        let j = choose|j: int| 0 <= j < alts.len() && matches_val(#[trigger] alts[j], vs[0]);
        assert(hs[j] == (alts[j], rest));
        assert(head_matches(hs[j], vs));
    }
    if any_head(hs, vs) {
        let j = choose|j: int| 0 <= j < hs.len() && head_matches(#[trigger] hs[j], vs);
        assert(hs[j] == (alts[j], rest));
        assert(matches_val(alts[j], vs[0]));
    }
}

proof fn lemma_heads_match(rows: Seq<Seq<Pat>>, vs: Seq<Val>)
    requires
        vs.len() > 0,
        forall|i: int| 0 <= i < rows.len() ==> (#[trigger] rows[i]).len() == vs.len(),
    ensures
        any_matches(rows, vs) <==> any_head(heads(rows), vs),
    decreases rows.len(),
{
    if rows.len() > 0 {
        let init = rows.drop_last();
        let last = rows.last();
        assert forall|i: int| 0 <= i < init.len() implies (#[trigger] init[i]).len()
            == vs.len() by {
            assert(init[i] == rows[i]);
        }
        lemma_heads_match(init, vs);
        lemma_row_heads(last, vs);
        let a = heads(init);
        let b = row_heads(last);
        let hs = heads(rows);
        if any_matches(rows, vs) {
            let i = choose|i: int| 0 <= i < rows.len() && row_matches(#[trigger] rows[i], vs);
            if i < init.len() {
                assert(row_matches(init[i], vs));
                let j = choose|j: int| 0 <= j < a.len() && head_matches(#[trigger] a[j], vs);
                assert(hs[j] == a[j]);
            } else {
                let j = choose|j: int| 0 <= j < b.len() && head_matches(#[trigger] b[j], vs);
                assert(hs[a.len() + j] == b[j]);
            }
        }
        if any_head(hs, vs) {
            let j = choose|j: int| 0 <= j < hs.len() && head_matches(#[trigger] hs[j], vs);
            if j < a.len() {
                assert(a[j] == hs[j]);
                let i = choose|i: int| 0 <= i < init.len() && row_matches(#[trigger] init[i], vs);
                assert(row_matches(rows[i], vs));
            } else {
                assert(b[j - a.len()] == hs[j]);
                assert(row_matches(rows[rows.len() - 1], vs));
            }
        }
    }
}

proof fn lemma_heads_typed(rows: Seq<Seq<Pat>>, ts: Seq<RcType>, arity: spec_fn(u32) -> nat)
    requires
        ts.len() > 0,
        rows_typed(rows, ts, arity),
    ensures
        heads_typed(heads(rows), ts, arity),
    decreases rows.len(),
{
    if rows.len() > 0 {
        let init = rows.drop_last();
        let row = rows.last();
        assert forall|i: int| 0 <= i < init.len() implies row_typed(
            #[trigger] init[i],
            ts,
            arity,
        ) by {
            assert(init[i] == rows[i]);
        }
        lemma_heads_typed(init, ts, arity);
        assert(row_typed(rows[rows.len() - 1], ts, arity));
        assert(pat_typed(row[0], ts[0], arity));
        lemma_alternatives_typed(row[0], ts[0], arity);
        let rest = row.drop_first();
        assert forall|i: int| 0 <= i < rest.len() implies pat_typed(
            #[trigger] rest[i],
            ts.drop_first()[i],
            arity,
        ) by {
            assert(pat_typed(row[i + 1], ts[i + 1], arity));
        }
        let a = heads(init);
        let b = row_heads(row);
        assert forall|j: int| 0 <= j < heads(rows).len() implies pat_typed(
            (#[trigger] heads(rows)[j]).0,
            ts[0],
            arity,
        ) && row_typed(heads(rows)[j].1, ts.drop_first(), arity) by {
            if j < a.len() {
                assert(heads(rows)[j] == a[j]);
            } else {
                assert(heads(rows)[j] == b[j - a.len()]);
                assert(b[j - a.len()] == (alternatives(row[0])[j - a.len()], rest));
            }
        }
    }
}

proof fn lemma_row_matches_append(a: Seq<Pat>, b: Seq<Pat>, va: Seq<Val>, vb: Seq<Val>)
    requires
        a.len() == va.len(),
    ensures
        row_matches(a + b, va + vb) <==> row_matches(a, va) && row_matches(b, vb),
{
    let r = a + b;
    let v = va + vb;
    if row_matches(r, v) {
        assert forall|i: int| 0 <= i < a.len() implies matches_val(#[trigger] a[i], va[i]) by {
            assert(matches_val(r[i], v[i]));
        }
        assert forall|i: int| 0 <= i < b.len() implies matches_val(#[trigger] b[i], vb[i]) by {
            assert(matches_val(r[a.len() + i], v[a.len() + i]));
        }
    }
}

proof fn lemma_row_typed_append(
    a: Seq<Pat>,
    b: Seq<Pat>,
    ta: Seq<RcType>,
    tb: Seq<RcType>,
    arity: spec_fn(u32) -> nat,
)
    requires
        row_typed(a, ta, arity),
        row_typed(b, tb, arity),
    ensures
        row_typed(a + b, ta + tb, arity),
{
}

/// A pattern of constructor `id` has `n` arguments.
spec fn takes(p: Pat, id: u32, n: nat) -> bool {
    match p {
        Pat::Ctor { id: i, args } => i == id ==> args@.len() == n,
        _ => true,
    }
}

/// Specialising keeps what matches a value with that head.
proof fn lemma_specialized_match(
    hs: Seq<(Pat, Seq<Pat>)>,
    id: u32,
    args: Seq<Val>,
    vrest: Seq<Val>,
)
    requires
        forall|j: int|
            0 <= j < hs.len() ==> !((#[trigger] hs[j]).0 is Or) && takes(hs[j].0, id, args.len()),
    ensures
        any_matches(specialized(hs, id, args.len()), args + vrest) <==> any_head(
            hs,
            seq![Val::Node { id: id as int, args }] + vrest,
        ),
    decreases hs.len(),
{
    let vs = seq![Val::Node { id: id as int, args }] + vrest;
    let n = args.len();
    let sp = specialized(hs, id, n);
    assert(vs.drop_first() =~= vrest);
    if hs.len() > 0 {
        let init = hs.drop_last();
        let h = hs.last();
        assert forall|j: int| 0 <= j < init.len() implies !((#[trigger] init[j]).0 is Or) && takes(
            init[j].0,
            id,
            args.len(),
        ) by {
            assert(init[j] == hs[j]);
        }
        lemma_specialized_match(init, id, args, vrest);
        let before = specialized(init, id, n);
        assert(hs[hs.len() - 1] == h);
        // The last head against the row it becomes, if any.
        let kept = h.0 is Wildcard || (h.0 matches Pat::Ctor { id: i, args: pa } && i == id);
        if h.0 is Wildcard {
            lemma_row_matches_append(wilds(n), h.1, args, vrest);
            assert(row_matches(wilds(n), args));
        }
        if let Pat::Ctor { id: i, args: pa } = h.0 {
            if i == id {
                lemma_row_matches_append(pa@, h.1, args, vrest);
                assert(row_matches(pa@, args) <==> matches_val(h.0, vs[0]));
            }
        }
        assert(kept ==> sp =~= before.push(sp.last()) && (row_matches(sp.last(), args + vrest)
            <==> head_matches(h, vs)));
        assert(!kept ==> !head_matches(h, vs));
        if any_matches(sp, args + vrest) {
            let i = choose|i: int| 0 <= i < sp.len() && row_matches(#[trigger] sp[i], args + vrest);
            if i < before.len() {
                assert(before[i] == sp[i]);
                assert(any_matches(before, args + vrest));
                let j = choose|j: int| 0 <= j < init.len() && head_matches(#[trigger] init[j], vs);
                assert(hs[j] == init[j]);
            } else {
                assert(head_matches(hs[hs.len() - 1], vs));
            }
        }
        if any_head(hs, vs) {
            let j = choose|j: int| 0 <= j < hs.len() && head_matches(#[trigger] hs[j], vs);
            if j < init.len() {
                assert(init[j] == hs[j]);
                assert(any_head(init, vs));
                let i = choose|i: int|
                    0 <= i < before.len() && row_matches(#[trigger] before[i], args + vrest);
                assert(sp[i] == before[i]);
            } else {
                assert(row_matches(sp[sp.len() - 1], args + vrest));
            }
        }
    }
}

proof fn lemma_specialized_typed(
    hs: Seq<(Pat, Seq<Pat>)>,
    id: u32,
    c: CtorSig,
    ts: Seq<RcType>,
    arity: spec_fn(u32) -> nat,
)
    requires
        ts.len() > 0,
        heads_typed(hs, ts, arity),
        forall|n: nat| n == c.types.len() ==> #[trigger] pattern_sig(ts[0], id, n) == c,
        forall|j: int|
            0 <= j < hs.len() ==> takes((#[trigger] hs[j]).0, id, c.types.len()),
    ensures
        rows_typed(specialized(hs, id, c.types.len()), c.types + ts.drop_first(), arity),
    decreases hs.len(),
{
    if hs.len() > 0 {
        let init = hs.drop_last();
        let h = hs.last();
        assert forall|j: int| 0 <= j < init.len() implies pat_typed(
            (#[trigger] init[j]).0,
            ts[0],
            arity,
        ) && row_typed(init[j].1, ts.drop_first(), arity) && takes(
            init[j].0,
            id,
            c.types.len(),
        ) by {
            assert(init[j] == hs[j]);
        }
        lemma_specialized_typed(init, id, c, ts, arity);
        assert(hs[hs.len() - 1] == h);
        let n = c.types.len();
        let sp = specialized(hs, id, n);
        let before = specialized(init, id, n);
        if h.0 is Wildcard {
            assert(row_typed(wilds(n), c.types, arity));
            lemma_row_typed_append(wilds(n), h.1, c.types, ts.drop_first(), arity);
        }
        if let Pat::Ctor { id: i, args: pa } = h.0 {
            if i == id {
                assert(pattern_sig(ts[0], id, pa@.len()) == c);
                assert(row_typed(pa@, c.types, arity));
                lemma_row_typed_append(pa@, h.1, c.types, ts.drop_first(), arity);
            }
        }
        assert forall|i: int| 0 <= i < sp.len() implies row_typed(
            #[trigger] sp[i],
            c.types + ts.drop_first(),
            arity,
        ) by {
            if i < before.len() {
                assert(sp[i] == before[i]);
            }
        }
    }
}

proof fn lemma_defaulted(
    hs: Seq<(Pat, Seq<Pat>)>,
    v: Val,
    vrest: Seq<Val>,
    ts: Seq<RcType>,
    arity: spec_fn(u32) -> nat,
)
    requires
        ts.len() > 0,
        heads_typed(hs, ts, arity),
    ensures
        rows_typed(defaulted(hs), ts.drop_first(), arity),
        any_matches(defaulted(hs), vrest) ==> any_head(hs, seq![v] + vrest),
        (forall|j: int|
            0 <= j < hs.len() ==> !((#[trigger] hs[j]).0 is Or) && (hs[j].0 matches Pat::Ctor {
                id: i,
                args: pa,
            } ==> i != v.id())) ==> (any_head(hs, seq![v] + vrest) ==> any_matches(
            defaulted(hs),
            vrest,
        )),
    decreases hs.len(),
{
    let vs = seq![v] + vrest;
    assert(vs.drop_first() =~= vrest);
    if hs.len() > 0 {
        let init = hs.drop_last();
        let h = hs.last();
        assert(hs[hs.len() - 1] == h);
        assert forall|j: int| 0 <= j < init.len() implies pat_typed(
            (#[trigger] init[j]).0,
            ts[0],
            arity,
        ) && row_typed(init[j].1, ts.drop_first(), arity) by {
            assert(init[j] == hs[j]);
        }
        lemma_defaulted(init, v, vrest, ts, arity);
        let before = defaulted(init);
        let d = defaulted(hs);
        assert forall|i: int| 0 <= i < d.len() implies row_typed(
            #[trigger] d[i],
            ts.drop_first(),
            arity,
        ) by {
            if i < before.len() {
                assert(d[i] == before[i]);
            }
        }
        if any_matches(d, vrest) {
            let i = choose|i: int| 0 <= i < d.len() && row_matches(#[trigger] d[i], vrest);
            if i < before.len() {
                assert(before[i] == d[i]);
                assert(any_matches(before, vrest));
                let j = choose|j: int| 0 <= j < init.len() && head_matches(#[trigger] init[j], vs);
                assert(hs[j] == init[j]);
            } else {
                assert(head_matches(hs[hs.len() - 1], vs));
            }
        }
        if (forall|j: int|
            0 <= j < hs.len() ==> !((#[trigger] hs[j]).0 is Or) && (hs[j].0 matches Pat::Ctor {
                id: i,
                args: pa,
            } ==> i != v.id())) && any_head(hs, vs) {
            let j = choose|j: int| 0 <= j < hs.len() && head_matches(#[trigger] hs[j], vs);
            assert forall|k: int| 0 <= k < init.len() implies !((#[trigger] init[k]).0 is Or) && (
            init[k].0 matches Pat::Ctor { id: i, args: pa } ==> i != v.id()) by {
                assert(init[k] == hs[k]);
            }
            if j < init.len() {
                assert(init[j] == hs[j]);
                assert(any_head(init, vs));
                let i = choose|i: int|
                    0 <= i < before.len() && row_matches(#[trigger] before[i], vrest);
                assert(d[i] == before[i]);
            } else {
                assert(row_matches(d[d.len() - 1], vrest));
            }
        }
    }
}

proof fn lemma_alternatives_no_or(p: Pat)
    ensures
        forall|j: int| 0 <= j < alternatives(p).len() ==> !(#[trigger] alternatives(p)[j] is Or),
    decreases p,
{
    if let Pat::Or { patterns } = p {
        lemma_alternatives_of_no_or(patterns@);
    }
}

proof fn lemma_alternatives_of_no_or(ps: Seq<Pat>)
    ensures
        forall|j: int|
            0 <= j < alternatives_of(ps).len() ==> !(#[trigger] alternatives_of(ps)[j] is Or),
    decreases ps,
{
    if ps.len() > 0 {
        lemma_alternatives_of_no_or(ps.drop_last());
        lemma_alternatives_no_or(ps.last());
    }
}

proof fn lemma_heads_no_or(rows: Seq<Seq<Pat>>)
    ensures
        forall|j: int| 0 <= j < heads(rows).len() ==> !((#[trigger] heads(rows)[j]).0 is Or),
    decreases rows.len(),
{
    if rows.len() > 0 {
        lemma_heads_no_or(rows.drop_last());
        let row = rows.last();
        if row.len() > 0 {
            lemma_alternatives_no_or(row[0]);
        }
        let a = heads(rows.drop_last());
        assert forall|j: int| 0 <= j < heads(rows).len() implies !((#[trigger] heads(rows)[j]).0
            is Or) by {
            if j < a.len() {
                assert(heads(rows)[j] == a[j]);
            } else {
                assert(heads(rows)[j] == row_heads(row)[j - a.len()]);
                assert(row_heads(row)[j - a.len()].0 == alternatives(row[0])[j - a.len()]);
            }
        }
    }
}

// One constructor of a type.

proof fn lemma_sig_unique(t: RcType, k: int)
    requires
        ids_distinct(t),
        0 <= k < ctors_of(t).len(),
    ensures
        find_sig(ctors_of(t), ctors_of(t)[k].id) == Some(ctors_of(t)[k]),
{
    let cs = ctors_of(t);
    assert forall|j: int| 0 <= j < k implies (#[trigger] cs[j]).id != cs[k].id by {
        match t {
            RcType::Infinite => {},
            RcType::Array(a) => {},
            RcType::Named(c) => {
                assert(ctors_distinct(*c));
                assert(cs[j] == sig_of(c.ctors@[j]));
                assert(cs[k] == sig_of(c.ctors@[k]));
            },
            RcType::Tuple(c) => {
                assert(ctors_distinct(*c));
                assert(cs[j] == sig_of(c.ctors@[j]));
                assert(cs[k] == sig_of(c.ctors@[k]));
            },
        }
    }
    lemma_find_sig(cs, cs[k].id, k);
}

proof fn lemma_sig_types(t: RcType, k: int)
    requires
        type_wf(t),
        ids_distinct(t),
        0 <= k < ctors_of(t).len(),
    ensures
        types_wf(ctors_of(t)[k].types),
        types_distinct(ctors_of(t)[k].types),
{
    let ts = ctors_of(t)[k].types;
    match t {
        RcType::Infinite => {},
        RcType::Array(a) => {},
        RcType::Named(c) => {
            assert(ctors_wf(*c) && ctors_distinct(*c));
            assert(ctors_of(t)[k] == sig_of(c.ctors@[k]));
            assert forall|i: int| 0 <= i < ts.len() implies type_wf(#[trigger] ts[i])
                && ids_distinct(ts[i]) by {
                assert(ts[i] == c.ctors@[k].types@[i]);
            }
        },
        RcType::Tuple(c) => {
            assert(ctors_wf(*c) && ctors_distinct(*c));
            assert(ctors_of(t)[k] == sig_of(c.ctors@[k]));
            assert forall|i: int| 0 <= i < ts.len() implies type_wf(#[trigger] ts[i])
                && ids_distinct(ts[i]) by {
                assert(ts[i] == c.ctors@[k].types@[i]);
            }
        },
    }
}

/// The signature a pattern's constructor has in a type it fits, and the value
/// made of it.
proof fn lemma_val_of_sig(t: RcType, id: u32, c: CtorSig, args: Seq<Val>)
    requires
        t is Infinite || find_sig(ctors_of(t), id) == Some(c),
        vals_typed(args, c.types),
    ensures
        val_typed(Val::Node { id: id as int, args }, t),
{
    let v = Val::Node { id: id as int, args };
    if !(t is Infinite) {
        lemma_find_sig_is(ctors_of(t), id);
        let k = choose|k: int| 0 <= k < ctors_of(t).len() && ctors_of(t)[k] == c;
        assert(v.id() == ctors_of(t)[k].id);
        assert(v.args() == args);
    }
}

proof fn lemma_vals_typed_append(a: Seq<Val>, b: Seq<Val>, ta: Seq<RcType>, tb: Seq<RcType>)
    requires
        a.len() == ta.len(),
    ensures
        vals_typed(a + b, ta + tb) <==> vals_typed(a, ta) && vals_typed(b, tb),
{
    let vs = a + b;
    let ts = ta + tb;
    if vals_typed(vs, ts) {
        assert forall|i: int| 0 <= i < a.len() implies val_typed(#[trigger] a[i], ta[i]) by {
            assert(val_typed(vs[i], ts[i]));
        }
        assert forall|i: int| 0 <= i < b.len() implies val_typed(#[trigger] b[i], tb[i]) by {
            assert(val_typed(vs[a.len() + i], ts[a.len() + i]));
        }
    }
}

/// The rows' heads of one constructor take as many arguments as it does.
proof fn lemma_heads_take(
    hs: Seq<(Pat, Seq<Pat>)>,
    ts: Seq<RcType>,
    id: u32,
    c: CtorSig,
    arity: spec_fn(u32) -> nat,
)
    requires
        ts.len() > 0,
        heads_typed(hs, ts, arity),
        if ts[0] is Infinite {
            c.types.len() == arity(id)
        } else {
            find_sig(ctors_of(ts[0]), id) == Some(c)
        },
    ensures
        forall|j: int| 0 <= j < hs.len() ==> takes((#[trigger] hs[j]).0, id, c.types.len()),
{
    assert forall|j: int| 0 <= j < hs.len() implies takes(
        (#[trigger] hs[j]).0,
        id,
        c.types.len(),
    ) by {
        assert(pat_typed(hs[j].0, ts[0], arity));
    }
}

/// One step down a constructor of the first column: the values left over there
/// are the values left over here with that head.
proof fn lemma_ctor_step(
    rows: Seq<Seq<Pat>>,
    qargs: Seq<Pat>,
    qrest: Seq<Pat>,
    ts: Seq<RcType>,
    id: u32,
    c: CtorSig,
    arity: spec_fn(u32) -> nat,
)
    requires
        ts.len() > 0,
        rows_typed(rows, ts, arity),
        qargs.len() == c.types.len(),
        if ts[0] is Infinite {
            c == pattern_sig(ts[0], id, c.types.len()) && c.types.len() == arity(id)
        } else {
            find_sig(ctors_of(ts[0]), id) == Some(c)
        },
    ensures
        rows_typed(
            specialized(heads(rows), id, c.types.len()),
            c.types + ts.drop_first(),
            arity,
        ),
        forall|args: Seq<Val>, vrest: Seq<Val>|
            args.len() == c.types.len() && vrest.len() == ts.len() - 1 ==> (#[trigger] left_over(
                specialized(heads(rows), id, c.types.len()),
                qargs + qrest,
                c.types + ts.drop_first(),
                args + vrest,
            ) <==> vals_typed(args, c.types) && row_matches(qargs, args) && vals_typed(
                vrest,
                ts.drop_first(),
            ) && row_matches(qrest, vrest) && !any_matches(
                rows,
                seq![Val::Node { id: id as int, args }] + vrest,
            )),
{
    let hs = heads(rows);
    let n = c.types.len();
    lemma_heads_typed(rows, ts, arity);
    lemma_heads_no_or(rows);
    lemma_heads_take(hs, ts, id, c, arity);
    assert forall|m: nat| m == c.types.len() implies #[trigger] pattern_sig(ts[0], id, m) == c by {
    }
    lemma_specialized_typed(hs, id, c, ts, arity);
    assert forall|args: Seq<Val>, vrest: Seq<Val>|
        args.len() == n && vrest.len() == ts.len() - 1 implies (#[trigger] left_over(
        specialized(hs, id, n),
        qargs + qrest,
        c.types + ts.drop_first(),
        args + vrest,
    ) <==> vals_typed(args, c.types) && row_matches(qargs, args) && vals_typed(
        vrest,
        ts.drop_first(),
    ) && row_matches(qrest, vrest) && !any_matches(
        rows,
        seq![Val::Node { id: id as int, args }] + vrest,
    )) by {
        let vs = seq![Val::Node { id: id as int, args }] + vrest;
        assert forall|i: int| 0 <= i < rows.len() implies (#[trigger] rows[i]).len()
            == vs.len() by {
            assert(row_typed(rows[i], ts, arity));
        }
        lemma_heads_match(rows, vs);
        lemma_specialized_match(hs, id, args, vrest);
        lemma_vals_typed_append(args, vrest, c.types, ts.drop_first());
        lemma_row_matches_append(qargs, qrest, args, vrest);
    }
}

proof fn lemma_front(v: Val, vrest: Seq<Val>, p: Pat, rest: Seq<Pat>, t: RcType, trest: Seq<RcType>)
    ensures
        vals_typed(seq![v] + vrest, seq![t] + trest) <==> val_typed(v, t) && vals_typed(
            vrest,
            trest,
        ),
        row_matches(seq![p] + rest, seq![v] + vrest) <==> matches_val(p, v) && row_matches(
            rest,
            vrest,
        ),
{
    lemma_vals_typed_append(seq![v], vrest, seq![t], trest);
    lemma_row_matches_append(seq![p], rest, seq![v], vrest);
    if val_typed(v, t) {
        assert forall|i: int| 0 <= i < 1 implies val_typed(#[trigger] seq![v][i], seq![t][i]) by {}
    }
    if vals_typed(seq![v], seq![t]) {
        assert(val_typed(seq![v][0], seq![t][0]));
    }
    if matches_val(p, v) {
        assert forall|i: int| 0 <= i < 1 implies matches_val(
            #[trigger] seq![p][i],
            seq![v][i],
        ) by {}
    }
    if row_matches(seq![p], seq![v]) {
        assert(matches_val(seq![p][0], seq![v][0]));
    }
}

/// The usefulness law: against a well-typed matrix, a well-typed row of
/// patterns is useful exactly when some well-typed values match it and no row
/// of the matrix.
pub proof fn law_useful(
    rows: Seq<Seq<Pat>>,
    q: Seq<Pat>,
    ts: Seq<RcType>,
    arity: spec_fn(u32) -> nat,
)
    requires
        types_wf(ts),
        types_distinct(ts),
        rows_typed(rows, ts, arity),
        row_typed(q, ts, arity),
    ensures
        useful(rows, q, ts) <==> exists|vs: Seq<Val>| left_over(rows, q, ts, vs),
    decreases
            rows_weight(rows) + row_weight(q),
            q.len(),
            (if q.len() > 0 {
                or_depth(q[0])
            } else {
                0
            }),
            1nat,
{
    if q.len() == 0 {
        let vs = Seq::<Val>::empty();
        if rows.len() == 0 {
            assert(left_over(rows, q, ts, vs));
        } else {
            assert forall|vs: Seq<Val>| !left_over(rows, q, ts, vs) by {
                assert(row_typed(rows[0], ts, arity));
                assert(vs.len() == 0 ==> row_matches(rows[0], vs));
            }
        }
    } else {
        let t = ts[0];
        let rest = q.drop_first();
        let trest = ts.drop_first();
        let cs = ctors_of(t);
        assert(q =~= seq![q[0]] + rest);
        assert(ts =~= seq![t] + trest);
        assert(type_wf(t) && ids_distinct(t));
        assert(types_wf(trest) && types_distinct(trest));
        assert(pat_typed(q[0], t, arity));
        assert(row_typed(rest, trest, arity)) by {
            assert forall|i: int| 0 <= i < rest.len() implies pat_typed(
                #[trigger] rest[i],
                trest[i],
                arity,
            ) by {
                assert(pat_typed(q[i + 1], ts[i + 1], arity));
            }
        }
        lemma_useful_steps(rows, q, ts);
        match q[0] {
            Pat::Wildcard => {
                if is_complete_in(rows, t) {
                    law_useful_complete(rows, q, ts, arity);
                } else {
                    law_useful_default(rows, q, ts, arity);
                }
            },
            Pat::Ctor { id, args } => {
                let c = pattern_sig(t, id, args@.len());
                let sub = specialized(heads(rows), id, c.types.len());
                let sts = c.types + trest;
                lemma_ctor_step(rows, args@, rest, ts, id, c, arity);
                lemma_pattern_sig_types(t, id, args@.len());
                lemma_row_typed_append(args@, rest, c.types, trest, arity);
                law_useful(sub, args@ + rest, sts, arity);
                if exists|vs: Seq<Val>| left_over(sub, args@ + rest, sts, vs) {
                    let vs = choose|vs: Seq<Val>| left_over(sub, args@ + rest, sts, vs);
                    let n = c.types.len() as int;
                    let (va, vrest) = (vs.take(n), vs.skip(n));
                    assert(vs =~= va + vrest);
                    let v = Val::Node { id: id as int, args: va };
                    assert(left_over(sub, args@ + rest, sts, va + vrest));
                    lemma_val_of_sig(t, id, c, va);
                    assert(matches_val(q[0], v));
                    lemma_front(v, vrest, q[0], rest, t, trest);
                    assert(left_over(rows, q, ts, seq![v] + vrest));
                }
                if exists|vs: Seq<Val>| left_over(rows, q, ts, vs) {
                    let vs = choose|vs: Seq<Val>| left_over(rows, q, ts, vs);
                    let v = vs[0];
                    let vrest = vs.drop_first();
                    assert(vs =~= seq![v] + vrest);
                    lemma_front(v, vrest, q[0], rest, t, trest);
                    let va = v.args();
                    assert(v == Val::Node { id: id as int, args: va });
                    assert(vals_typed(va, c.types)) by {
                        if t is Infinite {
                            assert forall|i: int| 0 <= i < va.len() implies val_typed(
                                #[trigger] va[i],
                                c.types[i],
                            ) by {
                                assert(c.types[i] is Infinite);
                            }
                        } else {
                            let k = choose|k: int|
                                0 <= k < cs.len() && v.id() == (#[trigger] cs[k]).id
                                    && v.args().len() == cs[k].types.len() && forall|i: int|
                                    0 <= i < v.args().len() ==> val_typed(
                                        #[trigger] v.args()[i],
                                        cs[k].types[i],
                                    );
                            lemma_sig_unique(t, k);
                            assert(cs[k] == c);
                        }
                    }
                    assert(row_matches(args@, va));
                    assert(left_over(sub, args@ + rest, sts, va + vrest));
                }
            },
            Pat::Or { patterns } => {
                assert forall|k: int| 0 <= k < patterns@.len() implies (useful(
                    rows,
                    seq![#[trigger] patterns@[k]] + rest,
                    ts,
                ) <==> exists|vs: Seq<Val>|
                    left_over(rows, seq![patterns@[k]] + rest, ts, vs)) by {
                    let qk = seq![patterns@[k]] + rest;
                    assert(pat_typed(patterns@[k], t, arity));
                    assert(row_typed(seq![patterns@[k]], seq![t], arity));
                    lemma_row_typed_append(seq![patterns@[k]], rest, seq![t], trest, arity);
                    law_useful(rows, qk, ts, arity);
                }
                if useful(rows, q, ts) {
                    let k = choose|k: int|
                        0 <= k < patterns@.len() && useful(
                            rows,
                            seq![#[trigger] patterns@[k]] + rest,
                            ts,
                        );
                    let qk = seq![patterns@[k]] + rest;
                    let vs = choose|vs: Seq<Val>| left_over(rows, qk, ts, vs);
                    let (v, vrest) = (vs[0], vs.drop_first());
                    assert(vs =~= seq![v] + vrest);
                    lemma_front(v, vrest, patterns@[k], rest, t, trest);
                    lemma_front(v, vrest, q[0], rest, t, trest);
                    assert(matches_val(q[0], v));
                    assert(left_over(rows, q, ts, vs));
                }
                if exists|vs: Seq<Val>| left_over(rows, q, ts, vs) {
                    let vs = choose|vs: Seq<Val>| left_over(rows, q, ts, vs);
                    let (v, vrest) = (vs[0], vs.drop_first());
                    assert(vs =~= seq![v] + vrest);
                    lemma_front(v, vrest, q[0], rest, t, trest);
                    let k = choose|k: int|
                        0 <= k < patterns@.len() && matches_val(#[trigger] patterns@[k], v);
                    lemma_front(v, vrest, patterns@[k], rest, t, trest);
                    assert(left_over(rows, seq![patterns@[k]] + rest, ts, vs));
                    assert(useful(rows, seq![patterns@[k]] + rest, ts));
                }
            },
        }
    }
}

proof fn lemma_pattern_sig_types(t: RcType, id: u32, n: nat)
    requires
        type_wf(t),
        ids_distinct(t),
    ensures
        types_wf(pattern_sig(t, id, n).types),
        types_distinct(pattern_sig(t, id, n).types),
{
    lemma_find_sig_is(ctors_of(t), id);
    if let Some(c) = find_sig(ctors_of(t), id) {
        let k = choose|k: int| 0 <= k < ctors_of(t).len() && ctors_of(t)[k] == c;
        lemma_sig_types(t, k);
    }
}

/// [`law_useful`] one step down the `k`th constructor of a column whose
/// constructors the rows all name.
proof fn law_useful_ctor(
    rows: Seq<Seq<Pat>>,
    q: Seq<Pat>,
    ts: Seq<RcType>,
    arity: spec_fn(u32) -> nat,
    k: int,
)
    requires
        q.len() > 0,
        q[0] is Wildcard,
        types_wf(ts),
        types_distinct(ts),
        rows_typed(rows, ts, arity),
        row_typed(q, ts, arity),
        is_complete_in(rows, ts[0]),
        0 <= k < ctors_of(ts[0]).len(),
    ensures
        ({
            let c = ctors_of(ts[0])[k];
            let n = c.types.len();
            useful(
                specialized(heads(rows), c.id, n),
                wilds(n) + q.drop_first(),
                c.types + ts.drop_first(),
            ) <==> exists|args: Seq<Val>, vrest: Seq<Val>|
                #[trigger] left_over(
                    rows,
                    q,
                    ts,
                    seq![Val::Node { id: c.id as int, args }] + vrest,
                ) && vals_typed(args, c.types)
        }),
    decreases rows_weight(rows) + row_weight(q), 0nat, 0nat, 0nat,
{
    let t = ts[0];
    let rest = q.drop_first();
    let trest = ts.drop_first();
    let cs = ctors_of(t);
    assert(q =~= seq![q[0]] + rest);
    assert(ts =~= seq![t] + trest);
    lemma_useful_steps(rows, q, ts);
    assert(row_typed(rest, trest, arity)) by {
        assert forall|i: int| 0 <= i < rest.len() implies pat_typed(
            #[trigger] rest[i],
            trest[i],
            arity,
        ) by {
            assert(pat_typed(q[i + 1], ts[i + 1], arity));
        }
    }
    let c = cs[k];
    let n = c.types.len();
    let sub = specialized(heads(rows), c.id, n);
    let sq = wilds(n) + rest;
    let sts = c.types + trest;
    lemma_sig_unique(t, k);
    lemma_sig_types(t, k);
    lemma_ctor_step(rows, wilds(n), rest, ts, c.id, c, arity);
    assert(row_typed(wilds(n), c.types, arity));
    lemma_row_typed_append(wilds(n), rest, c.types, trest, arity);
    assert(rows_weight(specialized(heads(rows), ctors_of(ts[0])[k].id, n)) < rows_weight(rows));
    assert(row_weight(wilds(n) + q.drop_first()) == row_weight(q));
    law_useful(sub, sq, sts, arity);
    if useful(sub, sq, sts) {
        let vs = choose|vs: Seq<Val>| left_over(sub, sq, sts, vs);
        let (va, vrest) = (vs.take(n as int), vs.skip(n as int));
        assert(vs =~= va + vrest);
        assert(left_over(sub, sq, sts, va + vrest));
        let v = Val::Node { id: c.id as int, args: va };
        lemma_val_of_sig(t, c.id, c, va);
        lemma_front(v, vrest, q[0], rest, t, trest);
        assert(left_over(rows, q, ts, seq![Val::Node { id: c.id as int, args: va }] + vrest));
    }
    if exists|args: Seq<Val>, vrest: Seq<Val>|
        #[trigger] left_over(rows, q, ts, seq![Val::Node { id: c.id as int, args }] + vrest)
            && vals_typed(args, c.types) {
        let (va, vrest) = choose|args: Seq<Val>, vrest: Seq<Val>|
            #[trigger] left_over(rows, q, ts, seq![Val::Node { id: c.id as int, args }] + vrest)
                && vals_typed(args, c.types);
        let v = Val::Node { id: c.id as int, args: va };
        lemma_front(v, vrest, q[0], rest, t, trest);
        assert(row_matches(wilds(n), va));
        assert(left_over(sub, sq, sts, va + vrest));
    }
}

proof fn law_useful_complete(
    rows: Seq<Seq<Pat>>,
    q: Seq<Pat>,
    ts: Seq<RcType>,
    arity: spec_fn(u32) -> nat,
)
    requires
        q.len() > 0,
        q[0] is Wildcard,
        types_wf(ts),
        types_distinct(ts),
        rows_typed(rows, ts, arity),
        row_typed(q, ts, arity),
        is_complete_in(rows, ts[0]),
    ensures
        useful(rows, q, ts) <==> exists|vs: Seq<Val>| left_over(rows, q, ts, vs),
    decreases rows_weight(rows) + row_weight(q), 0nat, 0nat, 1nat,
{
    let t = ts[0];
    let rest = q.drop_first();
    let trest = ts.drop_first();
    let cs = ctors_of(t);
    assert(q =~= seq![q[0]] + rest);
    assert(ts =~= seq![t] + trest);
    if useful(rows, q, ts) {
        let k = choose|k: int|
            0 <= k < cs.len() && useful(
                specialized(heads(rows), (#[trigger] cs[k]).id, cs[k].types.len()),
                wilds(cs[k].types.len()) + rest,
                cs[k].types + trest,
            );
        law_useful_ctor(rows, q, ts, arity, k);
    }
    if exists|vs: Seq<Val>| left_over(rows, q, ts, vs) {
        let vs = choose|vs: Seq<Val>| left_over(rows, q, ts, vs);
        let (v, vrest) = (vs[0], vs.drop_first());
        assert(vs =~= seq![v] + vrest);
        lemma_front(v, vrest, q[0], rest, t, trest);
        let k = choose|k: int|
            0 <= k < cs.len() && v.id() == (#[trigger] cs[k]).id && v.args().len()
                == cs[k].types.len() && forall|i: int|
                0 <= i < v.args().len() ==> val_typed(#[trigger] v.args()[i], cs[k].types[i]);
        let c = cs[k];
        let va = v.args();
        assert(v == Val::Node { id: c.id as int, args: va });
        assert(vals_typed(va, c.types));
        assert(left_over(rows, q, ts, seq![Val::Node { id: c.id as int, args: va }] + vrest));
        law_useful_ctor(rows, q, ts, arity, k);
        assert(useful(
            specialized(heads(rows), cs[k].id, cs[k].types.len()),
            wilds(cs[k].types.len()) + rest,
            cs[k].types + trest,
        ));
    }
}

/// A value whose head no row names.
proof fn lemma_unseen_val(rows: Seq<Seq<Pat>>, t: RcType) -> (v: Val)
    requires
        type_wf(t),
        ids_distinct(t),
        !is_complete_in(rows, t),
    ensures
        val_typed(v, t),
        forall|id: u32| is_seen(rows, id) ==> v.id() != id,
{
    if t is Infinite {
        Val::Node { id: 0x1_0000_0000, args: Seq::empty() }
    } else {
        let k = choose|k: int|
            0 <= k < ctors_of(t).len() && !is_seen(rows, (#[trigger] ctors_of(t)[k]).id);
        let c = ctors_of(t)[k];
        lemma_sig_types(t, k);
        lemma_some_vals(c.types);
        lemma_sig_unique(t, k);
        lemma_val_of_sig(t, c.id, c, some_vals(c.types));
        Val::Node { id: c.id as int, args: some_vals(c.types) }
    }
}

proof fn law_useful_default(
    rows: Seq<Seq<Pat>>,
    q: Seq<Pat>,
    ts: Seq<RcType>,
    arity: spec_fn(u32) -> nat,
)
    requires
        q.len() > 0,
        q[0] is Wildcard,
        types_wf(ts),
        types_distinct(ts),
        rows_typed(rows, ts, arity),
        row_typed(q, ts, arity),
        !is_complete_in(rows, ts[0]),
    ensures
        useful(rows, q, ts) <==> exists|vs: Seq<Val>| left_over(rows, q, ts, vs),
    decreases rows_weight(rows) + row_weight(q), q.len(), 0nat, 0nat,
{
    let t = ts[0];
    let rest = q.drop_first();
    let trest = ts.drop_first();
    let hs = heads(rows);
    assert(q =~= seq![q[0]] + rest);
    assert(ts =~= seq![t] + trest);
    lemma_useful_steps(rows, q, ts);
    lemma_heads_typed(rows, ts, arity);
    lemma_heads_no_or(rows);
    let u = lemma_unseen_val(rows, t);
    assert forall|j: int| 0 <= j < hs.len() implies !((#[trigger] hs[j]).0 is Or) && (
    hs[j].0 matches Pat::Ctor { id: i, args: pa } ==> i != u.id()) by {
        if let Pat::Ctor { id: i, args: pa } = hs[j].0 {
            assert(is_seen(rows, i));
        }
    }
    assert(row_typed(rest, trest, arity)) by {
        assert forall|i: int| 0 <= i < rest.len() implies pat_typed(
            #[trigger] rest[i],
            trest[i],
            arity,
        ) by {
            assert(pat_typed(q[i + 1], ts[i + 1], arity));
        }
    }
    lemma_defaulted(hs, u, Seq::empty(), ts, arity);
    law_useful(defaulted(hs), rest, trest, arity);
    if useful(rows, q, ts) {
        let vrest = choose|vs: Seq<Val>| left_over(defaulted(hs), rest, trest, vs);
        let vs = seq![u] + vrest;
        lemma_defaulted(hs, u, vrest, ts, arity);
        assert forall|i: int| 0 <= i < rows.len() implies (#[trigger] rows[i]).len()
            == vs.len() by {
            assert(row_typed(rows[i], ts, arity));
        }
        lemma_heads_match(rows, vs);
        lemma_front(u, vrest, q[0], rest, t, trest);
        assert(left_over(rows, q, ts, vs));
    }
    if exists|vs: Seq<Val>| left_over(rows, q, ts, vs) {
        let vs = choose|vs: Seq<Val>| left_over(rows, q, ts, vs);
        let (v, vrest) = (vs[0], vs.drop_first());
        assert(vs =~= seq![v] + vrest);
        lemma_front(v, vrest, q[0], rest, t, trest);
        lemma_defaulted(hs, v, vrest, ts, arity);
        assert forall|i: int| 0 <= i < rows.len() implies (#[trigger] rows[i]).len()
            == vs.len() by {
            assert(row_typed(rows[i], ts, arity));
        }
        lemma_heads_match(rows, vs);
        assert(left_over(defaulted(hs), rest, trest, vrest));
    }
}

/// The witness law: a well-typed matrix leaves something out exactly when
/// there is a witness, and then some well-typed values match the witness and
/// no row.
pub proof fn law_witness(rows: Seq<Seq<Pat>>, ts: Seq<RcType>, arity: spec_fn(u32) -> nat)
    requires
        types_wf(ts),
        types_distinct(ts),
        rows_typed(rows, ts, arity),
    ensures
        witness(rows, ts) is Some <==> useful(rows, wilds(ts.len()), ts),
        witness(rows, ts) matches Some(w) ==> exists|vs: Seq<Val>|
            vals_typed(vs, ts) && views_match(w, vs) && !any_matches(rows, vs),
    decreases rows_weight(rows), ts.len(), 1nat, 0nat,
{
    let q = wilds(ts.len());
    assert(row_typed(q, ts, arity));
    if ts.len() == 0 {
        if rows.len() == 0 {
            let vs = Seq::<Val>::empty();
            assert(vals_typed(vs, ts) && views_match(witness(rows, ts)->0, vs));
            assert(!any_matches(rows, vs));
        }
    } else {
        let t = ts[0];
        let trest = ts.drop_first();
        assert(ts =~= seq![t] + trest);
        assert(q[0] is Wildcard);
        assert(q.drop_first() =~= wilds(trest.len()));
        lemma_step_weight(rows, 0, 0);
        if is_complete_in(rows, t) {
            law_witness_from(rows, ts, 0, arity);
            let cs = ctors_of(t);
            assert(useful(rows, q, ts) <==> exists|k: int|
                0 <= k < cs.len() && useful(
                    specialized(heads(rows), (#[trigger] cs[k]).id, cs[k].types.len()),
                    wilds(cs[k].types.len()) + q.drop_first(),
                    cs[k].types + trest,
                ));
            if useful(rows, q, ts) {
                let k = choose|k: int|
                    0 <= k < cs.len() && useful(
                        specialized(heads(rows), (#[trigger] cs[k]).id, cs[k].types.len()),
                        wilds(cs[k].types.len()) + q.drop_first(),
                        cs[k].types + trest,
                    );
                assert(ctor_leaves(rows, ts, k));
            }
            if exists|k: int| 0 <= k < cs.len() && ctor_leaves(rows, ts, k) {
                let k = choose|k: int| 0 <= k < cs.len() && ctor_leaves(rows, ts, k);
                assert(useful(
                    specialized(heads(rows), cs[k].id, cs[k].types.len()),
                    wilds(cs[k].types.len()) + q.drop_first(),
                    cs[k].types + trest,
                ));
            }
        } else {
            let hs = heads(rows);
            assert(types_wf(trest) && types_distinct(trest));
            lemma_heads_typed(rows, ts, arity);
            lemma_heads_no_or(rows);
            let u = lemma_missing_val(rows, t);
            assert forall|j: int| 0 <= j < hs.len() implies !((#[trigger] hs[j]).0 is Or) && (
            hs[j].0 matches Pat::Ctor { id: i, args: pa } ==> i != u.id()) by {
                if let Pat::Ctor { id: i, args: pa } = hs[j].0 {
                    assert(is_seen(rows, i));
                }
            }
            lemma_defaulted(hs, u, Seq::empty(), ts, arity);
            law_witness(defaulted(hs), trest, arity);
            if let Some(w) = witness(defaulted(hs), trest) {
                let vrest = choose|vs: Seq<Val>|
                    vals_typed(vs, trest) && views_match(w, vs) && !any_matches(
                        defaulted(hs),
                        vs,
                    );
                let vs = seq![u] + vrest;
                lemma_defaulted(hs, u, vrest, ts, arity);
                assert forall|i: int| 0 <= i < rows.len() implies (#[trigger] rows[i]).len()
                    == vs.len() by {
                    assert(row_typed(rows[i], ts, arity));
                }
                lemma_heads_match(rows, vs);
                lemma_front(u, vrest, Pat::Wildcard, wilds(trest.len()), t, trest);
                let full = seq![missing_head(rows, t)] + w;
                assert(views_match(full, vs)) by {
                    assert forall|i: int| 0 <= i < full.len() implies view_matches(
                        #[trigger] full[i],
                        vs[i],
                    ) by {
                        if i > 0 {
                            assert(view_matches(w[i - 1], vrest[i - 1]));
                        }
                    }
                }
                assert(vals_typed(vs, ts));
            }
        }
    }
}

/// Something is left out under the `k`th constructor of the first column.
spec fn ctor_leaves(rows: Seq<Seq<Pat>>, ts: Seq<RcType>, k: int) -> bool {
    let c = ctors_of(ts[0])[k];
    useful(
        specialized(heads(rows), c.id, c.types.len()),
        wilds(c.types.len()) + wilds((ts.len() - 1) as nat),
        c.types + ts.drop_first(),
    )
}

proof fn law_witness_from(
    rows: Seq<Seq<Pat>>,
    ts: Seq<RcType>,
    k: nat,
    arity: spec_fn(u32) -> nat,
)
    requires
        ts.len() > 0,
        types_wf(ts),
        types_distinct(ts),
        rows_typed(rows, ts, arity),
        is_complete_in(rows, ts[0]),
    ensures
        witness_from(rows, ts, k) is Some <==> exists|j: int|
            k <= j < ctors_of(ts[0]).len() && ctor_leaves(rows, ts, j),
        witness_from(rows, ts, k) matches Some(w) ==> exists|vs: Seq<Val>|
            vals_typed(vs, ts) && views_match(w, vs) && !any_matches(rows, vs),
    decreases rows_weight(rows), ts.len(), 0nat, ctors_of(ts[0]).len() - k,
{
    let t = ts[0];
    let trest = ts.drop_first();
    let cs = ctors_of(t);
    assert(ts =~= seq![t] + trest);
    if k < cs.len() {
        let c = cs[k as int];
        let n = c.types.len();
        let sub = specialized(heads(rows), c.id, n);
        let sts = c.types + trest;
        assert(is_seen(rows, cs[k as int].id));
        lemma_step_weight(rows, c.id, n);
        lemma_sig_unique(t, k as int);
        lemma_sig_types(t, k as int);
        lemma_ctor_step(rows, wilds(n), wilds(trest.len()), ts, c.id, c, arity);
        assert(types_wf(sts) && types_distinct(sts));
        law_witness(sub, sts, arity);
        law_witness_from(rows, ts, k + 1, arity);
        assert(wilds(sts.len()) =~= wilds(n) + wilds(trest.len()));
        assert(witness(sub, sts) is Some <==> ctor_leaves(rows, ts, k as int));
        if let Some(w) = witness(sub, sts) {
            assert(ctor_leaves(rows, ts, k as int));
            let vs = choose|vs: Seq<Val>|
                vals_typed(vs, sts) && views_match(w, vs) && !any_matches(sub, vs);
            let (va, vrest) = (vs.take(n as int), vs.skip(n as int));
            assert(vs =~= va + vrest);
            assert(row_matches(wilds(n) + wilds(trest.len()), vs));
            assert(left_over(sub, wilds(n) + wilds(trest.len()), sts, va + vrest));
            let v = Val::Node { id: c.id as int, args: va };
            lemma_val_of_sig(t, c.id, c, va);
            lemma_front(v, vrest, Pat::Wildcard, wilds(trest.len()), t, trest);
            let head = PatView::Ctor { id: c.id, args: w.take(n as int) };
            let full = seq![head] + w.skip(n as int);
            let all = seq![v] + vrest;
            assert(view_matches(head, v)) by {
                assert forall|i: int| 0 <= i < n implies view_matches(
                    #[trigger] w.take(n as int)[i],
                    va[i],
                ) by {
                    assert(view_matches(w[i], vs[i]));
                }
            }
            assert(views_match(full, all)) by {
                assert forall|i: int| 0 <= i < full.len() implies view_matches(
                    #[trigger] full[i],
                    all[i],
                ) by {
                    if i > 0 {
                        assert(view_matches(w[n + i - 1], vs[n + i - 1]));
                    }
                }
            }
            assert(vals_typed(all, ts) && !any_matches(rows, all));
        } else {
            if exists|j: int| k <= j < cs.len() && ctor_leaves(rows, ts, j) {
                let j = choose|j: int| k <= j < cs.len() && ctor_leaves(rows, ts, j);
                assert(k + 1 <= j);
            }
        }
    }
}

/// A value the head a witness starts with matches, and that no row names.
proof fn lemma_missing_val(rows: Seq<Seq<Pat>>, t: RcType) -> (v: Val)
    requires
        type_wf(t),
        ids_distinct(t),
        !is_complete_in(rows, t),
    ensures
        val_typed(v, t),
        view_matches(missing_head(rows, t), v),
        forall|id: u32| is_seen(rows, id) ==> v.id() != id,
{
    let cs = ctors_of(t);
    lemma_first_missing_is(rows, cs);
    match first_missing(rows, cs) {
        Some(c) => {
            let k = choose|k: int|
                0 <= k < cs.len() && #[trigger] cs[k] == c && !is_seen(rows, c.id);
            lemma_sig_types(t, k);
            lemma_some_vals(c.types);
            lemma_sig_unique(t, k);
            lemma_val_of_sig(t, c.id, c, some_vals(c.types));
            let v = Val::Node { id: c.id as int, args: some_vals(c.types) };
            assert(view_matches(missing_head(rows, t), v)) by {
                let args = wild_views(c.types.len());
                assert forall|i: int| 0 <= i < args.len() implies view_matches(
                    #[trigger] args[i],
                    v.args()[i],
                ) by {}
            }
            v
        },
        None => { lemma_unseen_val(rows, t) },
    }
}

/// In each column that the witness leaves to a wildcard because its type cannot
/// be listed, the value is none that a row names there.
pub open spec fn unnamed(rows: Seq<Seq<Pat>>, ts: Seq<RcType>, vs: Seq<Val>) -> bool
    decreases rows_weight(rows), ts.len(),
{
    if ts.len() == 0 || vs.len() == 0 {
        true
    } else {
        let hs = heads(rows);
        proof {
            lemma_step_weight(rows, 0, 0);
        }
        if is_complete_in(rows, ts[0]) {
            match find_sig(ctors_of(ts[0]), vs[0].id() as u32) {
                Some(c) => {
                    proof {
                        lemma_find_sig_is(ctors_of(ts[0]), vs[0].id() as u32);
                        lemma_step_weight(rows, c.id, c.types.len());
                    }
                    unnamed(
                        specialized(hs, c.id, c.types.len()),
                        c.types + ts.drop_first(),
                        vs[0].args() + vs.drop_first(),
                    )
                },
                None => true,
            }
        } else {
            &&& ts[0] is Infinite ==> forall|j: int|
                0 <= j < hs.len() ==> ((#[trigger] hs[j]).0 matches Pat::Ctor { id, args } ==> id
                    != vs[0].id())
            &&& unnamed(defaulted(hs), ts.drop_first(), vs.drop_first())
        }
    }
}

/// The witness overlaps no row: of the well-typed values that it matches, none
/// is matched by a row, apart from values of a type that cannot be listed which
/// a row names where the witness has a wildcard.
pub proof fn law_witness_overlaps_no_row(
    rows: Seq<Seq<Pat>>,
    ts: Seq<RcType>,
    arity: spec_fn(u32) -> nat,
    vs: Seq<Val>,
)
    requires
        types_wf(ts),
        types_distinct(ts),
        rows_typed(rows, ts, arity),
        witness(rows, ts) is Some,
        vals_typed(vs, ts),
        views_match(witness(rows, ts)->0, vs),
        unnamed(rows, ts, vs),
    ensures
        !any_matches(rows, vs),
    decreases rows_weight(rows), ts.len(),
{
    if ts.len() > 0 {
        let t = ts[0];
        let trest = ts.drop_first();
        let hs = heads(rows);
        let (v, vrest) = (vs[0], vs.drop_first());
        let w = witness(rows, ts)->0;
        assert(ts =~= seq![t] + trest);
        assert(vs =~= seq![v] + vrest);
        assert(types_wf(trest) && types_distinct(trest));
        assert(val_typed(vs[0], ts[0]));
        assert(vals_typed(vrest, trest)) by {
            lemma_front(v, vrest, Pat::Wildcard, Seq::empty(), t, trest);
        }
        lemma_heads_typed(rows, ts, arity);
        lemma_heads_no_or(rows);
        assert forall|i: int| 0 <= i < rows.len() implies (#[trigger] rows[i]).len() == vs.len() by {
            assert(row_typed(rows[i], ts, arity));
        }
        lemma_heads_match(rows, vs);
        lemma_step_weight(rows, 0, 0);
        if is_complete_in(rows, t) {
            let k = lemma_witness_at(rows, ts, 0);
            let c = ctors_of(t)[k];
            let n = c.types.len();
            let sub = specialized(hs, c.id, n);
            let sts = c.types + trest;
            let u = witness(sub, sts)->0;
            let args = v.args();
            assert(view_matches(w[0], vs[0]));
            assert(v.id() == c.id && args.len() == n);
            assert(v.id() as u32 == c.id);
            lemma_sig_unique(t, k);
            lemma_sig_types(t, k);
            assert(is_seen(rows, ctors_of(t)[k].id));
            lemma_step_weight(rows, c.id, n);
            lemma_ctor_step(rows, wilds(n), wilds(trest.len()), ts, c.id, c, arity);
            assert(types_wf(sts) && types_distinct(sts));
            assert(vals_typed(args, c.types)) by {
                let j = choose|j: int|
                    0 <= j < ctors_of(t).len() && v.id() == (#[trigger] ctors_of(t)[j]).id
                        && v.args().len() == ctors_of(t)[j].types.len() && forall|i: int|
                        0 <= i < v.args().len() ==> val_typed(
                            #[trigger] v.args()[i],
                            ctors_of(t)[j].types[i],
                        );
                lemma_sig_unique(t, j);
                assert(ctors_of(t)[j] == c);
            }
            lemma_vals_typed_append(args, vrest, c.types, trest);
            assert(views_match(u, args + vrest)) by {
                assert forall|i: int| 0 <= i < u.len() implies view_matches(
                    #[trigger] u[i],
                    (args + vrest)[i],
                ) by {
                    if i < n {
                        assert(u.take(n as int)[i] == u[i]);
                        assert(view_matches(u.take(n as int)[i], v.args()[i]));
                    } else {
                        assert(w[i - n + 1] == u[i]);
                        assert(view_matches(w[i - n + 1], vs[i - n + 1]));
                    }
                }
            }
            law_witness_overlaps_no_row(sub, sts, arity, args + vrest);
            lemma_heads_take(hs, ts, c.id, c, arity);
            lemma_specialized_match(hs, c.id, args, vrest);
            assert(v == Val::Node { id: c.id as int, args });
        } else {
            let rest = witness(defaulted(hs), trest)->0;
            assert(w =~= seq![missing_head(rows, t)] + rest);
            assert(views_match(rest, vrest)) by {
                assert forall|i: int| 0 <= i < rest.len() implies view_matches(
                    #[trigger] rest[i],
                    vrest[i],
                ) by {
                    assert(view_matches(w[i + 1], vs[i + 1]));
                }
            }
            assert(view_matches(w[0], vs[0]));
            assert forall|j: int| 0 <= j < hs.len() implies !((#[trigger] hs[j]).0 is Or) && (
            hs[j].0 matches Pat::Ctor { id: i, args: pa } ==> i != v.id()) by {
                if let Pat::Ctor { id: i, args: pa } = hs[j].0 {
                    assert(is_seen(rows, i));
                    if !(t is Infinite) {
                        lemma_first_missing_is(rows, ctors_of(t));
                        lemma_some_missing(rows, ctors_of(t));
                    }
                }
            }
            lemma_defaulted(hs, v, vrest, ts, arity);
            law_witness_overlaps_no_row(defaulted(hs), trest, arity, vrest);
        }
    }
}

/// Of constructors that are not all seen, one is missing first.
proof fn lemma_some_missing(rows: Seq<Seq<Pat>>, cs: Seq<CtorSig>)
    ensures
        first_missing(rows, cs) is None ==> forall|i: int|
            0 <= i < cs.len() ==> is_seen(rows, (#[trigger] cs[i]).id),
    decreases cs.len(),
{
    if cs.len() > 0 {
        lemma_some_missing(rows, cs.drop_first());
        if first_missing(rows, cs) is None {
            assert forall|i: int| 0 <= i < cs.len() implies is_seen(rows, (#[trigger] cs[i]).id) by {
                if i > 0 {
                    assert(cs.drop_first()[i - 1] == cs[i]);
                }
            }
        }
    }
}

/// The constructor that a witness of a complete column starts with.
proof fn lemma_witness_at(rows: Seq<Seq<Pat>>, ts: Seq<RcType>, k: nat) -> (j: int)
    requires
        ts.len() > 0,
        is_complete_in(rows, ts[0]),
        witness_from(rows, ts, k) is Some,
    ensures
        k <= j < ctors_of(ts[0]).len(),
        ({
            let c = ctors_of(ts[0])[j];
            let n = c.types.len();
            let u = witness(specialized(heads(rows), c.id, n), c.types + ts.drop_first());
            &&& u is Some
            &&& witness_from(rows, ts, k)->0 == seq![
                PatView::Ctor { id: c.id, args: u->0.take(n as int) },
            ] + u->0.skip(n as int)
            &&& u->0.len() == n + ts.len() - 1
        }),
    decreases ctors_of(ts[0]).len() - k,
{
    let c = ctors_of(ts[0])[k as int];
    let n = c.types.len();
    let sub = specialized(heads(rows), c.id, n);
    let sts = c.types + ts.drop_first();
    if witness(sub, sts) is Some {
        lemma_witness_len(sub, sts);
        k as int
    } else {
        lemma_witness_at(rows, ts, k + 1)
    }
}

} // verus!
