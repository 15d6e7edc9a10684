//! Which variables generalizing quantifies, and what an instance puts in their
//! places, told by the types themselves.

use crate::types::generalize::{
    fresh_count, fresh_states, generalized, instantiated, lemma_gathered, may_quantify, placed,
    quant_of, quantifiable, stays_rigid, weak_in,
};
use crate::types::infer::InferEngine;
use crate::types::node::{covered, QuantVar, Scheme, Ty, TyVarState};
use crate::types::rewrite::{opening, rewritten, rewritten_all};
use crate::types::term::{occurs, Term};
use vstd::prelude::*;

verus! {

/// `s` is a part of `t` that no function stands above.
pub open spec fn exposed(t: Term, s: Term) -> bool
    decreases t,
{
    s == t || match t {
        Term::Con { id, name, args } => exists|i: int|
            0 <= i < args.len() && exposed(#[trigger] args[i], s),
        Term::Tuple { elems } => exists|i: int|
            0 <= i < elems.len() && exposed(#[trigger] elems[i], s),
        _ => false,
    }
}

/// A part of a type that a restricted constructor builds.
pub open spec fn is_restricted(s: Term, restricted: Set<i32>) -> bool {
    s matches Term::Con { id, name, args } && restricted.contains(id.0)
}

/// Inside a restricted constructor every variable is weak.
proof fn lemma_weak_inside(v: i32, t: Term, restricted: Set<i32>)
    ensures
        weak_in(v, t, restricted, true) <==> occurs(v, t),
    decreases t,
{
    reveal_with_fuel(weak_in, 2);
    reveal_with_fuel(occurs, 2);
    match t {
        Term::Con { id, name, args } => {
            assert forall|i: int| 0 <= i < args.len() implies weak_in(
                v,
                #[trigger] args[i],
                restricted,
                true,
            ) == occurs(v, args[i]) by {
                lemma_weak_inside(v, args[i], restricted);
            }
        },
        Term::Fun { params, ret } => {
            assert forall|i: int| 0 <= i < params.len() implies weak_in(
                v,
                #[trigger] params[i],
                restricted,
                true,
            ) == occurs(v, params[i]) by {
                lemma_weak_inside(v, params[i], restricted);
            }
            lemma_weak_inside(v, *ret, restricted);
        },
        Term::Tuple { elems } => {
            assert forall|i: int| 0 <= i < elems.len() implies weak_in(
                v,
                #[trigger] elems[i],
                restricted,
                true,
            ) == occurs(v, elems[i]) by {
                lemma_weak_inside(v, elems[i], restricted);
            }
        },
        _ => {},
    }
}

/// A variable in a restricted part that is exposed.
pub open spec fn held_weak(v: i32, t: Term, restricted: Set<i32>) -> bool {
    exists|s: Term| #[trigger] exposed(t, s) && is_restricted(s, restricted) && occurs(v, s)
}

/// A variable must stay weak exactly when it occurs in a part of the type that a
/// restricted constructor builds and no function stands above.
pub proof fn law_weak_is_under_a_restricted_constructor(v: i32, t: Term, restricted: Set<i32>)
    ensures
        weak_in(v, t, restricted, false) <==> held_weak(v, t, restricted),
    decreases t,
{
    match t {
        Term::Con { id, name, args } => {
            lemma_parts_weak(v, t, args, restricted);
            if restricted.contains(id.0) {
                lemma_weak_inside(v, t, restricted);
                assert(weak_in(v, t, restricted, false) == weak_in(v, t, restricted, true));
                if occurs(v, t) {
                    assert(exposed(t, t));
                }
                if held_weak(v, t, restricted) {
                    let s = choose|s: Term| #[trigger]
                        exposed(t, s) && is_restricted(s, restricted) && occurs(v, s);
                    lemma_exposed_occurs(v, t, s);
                }
            } else {
                if held_weak(v, t, restricted) {
                    let s = choose|s: Term| #[trigger]
                        exposed(t, s) && is_restricted(s, restricted) && occurs(v, s);
                    let i = choose|i: int| 0 <= i < args.len() && exposed(#[trigger] args[i], s);
                    assert(held_weak(v, args[i], restricted));
                    assert(weak_in(v, args[i], restricted, false));
                }
                if weak_in(v, t, restricted, false) {
                    let i = choose|i: int|
                        0 <= i < args.len() && weak_in(v, #[trigger] args[i], restricted, false);
                    assert(held_weak(v, args[i], restricted));
                    let s = choose|s: Term| #[trigger]
                        exposed(args[i], s) && is_restricted(s, restricted) && occurs(v, s);
                    assert(exposed(t, s));
                }
            }
        },
        Term::Tuple { elems } => {
            lemma_parts_weak(v, t, elems, restricted);
            if held_weak(v, t, restricted) {
                let s = choose|s: Term| #[trigger]
                    exposed(t, s) && is_restricted(s, restricted) && occurs(v, s);
                let i = choose|i: int| 0 <= i < elems.len() && exposed(#[trigger] elems[i], s);
                assert(held_weak(v, elems[i], restricted));
                assert(weak_in(v, elems[i], restricted, false));
            }
            if weak_in(v, t, restricted, false) {
                let i = choose|i: int|
                    0 <= i < elems.len() && weak_in(v, #[trigger] elems[i], restricted, false);
                assert(held_weak(v, elems[i], restricted));
                let s = choose|s: Term| #[trigger]
                    exposed(elems[i], s) && is_restricted(s, restricted) && occurs(v, s);
                assert(exposed(t, s));
            }
        },
        _ => {
            if held_weak(v, t, restricted) {
                let s = choose|s: Term| #[trigger]
                    exposed(t, s) && is_restricted(s, restricted) && occurs(v, s);
                assert(s == t);
            }
        },
    }
}

proof fn lemma_parts_weak(v: i32, t: Term, ts: Seq<Term>, restricted: Set<i32>)
    requires
        match t {
            Term::Con { id, name, args } => args == ts,
            Term::Tuple { elems } => elems == ts,
            _ => false,
        },
    ensures
        forall|i: int|
            0 <= i < ts.len() ==> (weak_in(v, #[trigger] ts[i], restricted, false) <==> held_weak(
                v,
                ts[i],
                restricted,
            )),
    decreases t, 0nat,
{
    assert forall|i: int| 0 <= i < ts.len() implies (weak_in(
        v,
        #[trigger] ts[i],
        restricted,
        false,
    ) <==> held_weak(v, ts[i], restricted)) by {
        law_weak_is_under_a_restricted_constructor(v, ts[i], restricted);
    }
}

/// What occurs in a part occurs in the whole.
proof fn lemma_exposed_occurs(v: i32, t: Term, s: Term)
    requires
        exposed(t, s),
        occurs(v, s),
    ensures
        occurs(v, t),
    decreases t,
{
    if s != t {
        match t {
            Term::Con { id, name, args } => {
                let i = choose|i: int| 0 <= i < args.len() && exposed(#[trigger] args[i], s);
                lemma_exposed_occurs(v, args[i], s);
                assert(occurs(v, args[i]));
            },
            Term::Tuple { elems } => {
                let i = choose|i: int| 0 <= i < elems.len() && exposed(#[trigger] elems[i], s);
                lemma_exposed_occurs(v, elems[i], s);
                assert(occurs(v, elems[i]));
            },
            _ => {},
        }
    }
}

/// A scheme's record says that `v` is one of its variables.
pub open spec fn quantifies(b: &InferEngine, r: Scheme, v: i32) -> bool {
    exists|i: int|
        0 <= i < r.quantified.len && (#[trigger] b.quants@[r.quantified.start + i]).origin_id
            == Some(v)
}

/// Generalizing quantifies exactly the variables of the type that are rigid, or
/// unsolved and made at a deeper level than the current one (at any level, at the
/// top), and that need not stay weak: with restricted constructors given, those
/// that occur in no exposed part built by one.
pub proof fn law_generalizing_takes_the_deeper_variables(
    a: &InferEngine,
    b: &InferEngine,
    ty: Ty,
    ignore_level: bool,
    restricted: Option<Set<i32>>,
    r: Scheme,
    v: i32,
)
    requires
        generalized(a, b, ty, ignore_level, restricted, r),
    ensures
        quantifies(b, r, v) <==> {
            &&& occurs(v, a.term(ty))
            &&& 0 <= v < a.vars@.len()
            &&& !(restricted matches Some(x) && held_weak(v, a.term(ty), x))
            &&& match a.vars@[v as int] {
                TyVarState::Unbound { level, .. } => ignore_level || level > a.current_level,
                TyVarState::Generic { .. } => true,
                TyVarState::Link { .. } => false,
            }
        },
{
    let ids = quantifiable(a, ty, ignore_level, restricted);
    let p = may_quantify(a, ty, ignore_level, restricted);
    lemma_gathered(p, a.term(ty), Seq::empty());
    if let Some(x) = restricted {
        law_weak_is_under_a_restricted_constructor(v, a.term(ty), x);
    }
    let n = a.quants@.len() as int;
    assert forall|i: int| 0 <= i < ids.len() implies #[trigger] b.quants@[n + i] == quant_of(
        a,
        b,
        ids[i],
    ) by {}
    if ids.contains(v) {
        let i = choose|i: int| 0 <= i < ids.len() && ids[i] == v;
        assert(b.quants@[r.quantified.start + i].origin_id == Some(v));
    }
    if quantifies(b, r, v) {
        let i = choose|i: int|
            0 <= i < r.quantified.len && (#[trigger] b.quants@[r.quantified.start
                + i]).origin_id == Some(v);
        assert(b.quants@[n + i] == quant_of(a, b, ids[i]));
        assert(ids[i] == v);
    }
    assert(ids.contains(v) <==> p(v) && occurs(v, a.term(ty)));
}

/// `u` is `t` with the variables of `vs` in the places of its quantified ones.
pub open spec fn filled(t: Term, vs: Seq<i32>, u: Term) -> bool
    decreases t,
{
    match t {
        Term::Var(_) => u == t,
        Term::Bound(i) => u == if i < vs.len() {
            Term::Var(vs[i as int])
        } else {
            t
        },
        Term::Con { id, name, args } => u matches Term::Con { id: i, name: n, args: us } && i == id
            && n == name && us.len() == args.len() && forall|k: int|
            0 <= k < args.len() ==> filled(#[trigger] args[k], vs, us[k]),
        Term::Fun { params, ret } => u matches Term::Fun { params: us, ret: x } && us.len()
            == params.len() && (forall|k: int|
            0 <= k < params.len() ==> filled(#[trigger] params[k], vs, us[k])) && filled(
            *ret,
            vs,
            *x,
        ),
        Term::Tuple { elems } => u matches Term::Tuple { elems: us } && us.len() == elems.len()
            && forall|k: int| 0 <= k < elems.len() ==> filled(#[trigger] elems[k], vs, us[k]),
    }
}

proof fn lemma_filled(t: Term, vs: Seq<i32>, subst: Seq<Term>)
    requires
        subst.len() == vs.len(),
        forall|i: int| 0 <= i < vs.len() ==> #[trigger] subst[i] == Term::Var(vs[i]),
    ensures
        filled(t, vs, rewritten(opening(subst), t)),
    decreases t,
{
    let l = opening(subst);
    let u = rewritten(l, t);
    match t {
        Term::Con { id, name, args } => {
            assert(rewritten_all(l, args).len() == args.len());
            assert forall|k: int| 0 <= k < args.len() implies filled(
                #[trigger] args[k],
                vs,
                rewritten_all(l, args)[k],
            ) by {
                lemma_filled(args[k], vs, subst);
            }
        },
        Term::Fun { params, ret } => {
            assert(rewritten_all(l, params).len() == params.len());
            assert forall|k: int| 0 <= k < params.len() implies filled(
                #[trigger] params[k],
                vs,
                rewritten_all(l, params)[k],
            ) by {
                lemma_filled(params[k], vs, subst);
            }
            lemma_filled(*ret, vs, subst);
        },
        Term::Tuple { elems } => {
            assert(rewritten_all(l, elems).len() == elems.len());
            assert forall|k: int| 0 <= k < elems.len() implies filled(
                #[trigger] elems[k],
                vs,
                rewritten_all(l, elems)[k],
            ) by {
                lemma_filled(elems[k], vs, subst);
            }
        },
        Term::Bound(i) => {
            if i < vs.len() {
                assert(subst[i as int] == Term::Var(vs[i as int]));
            }
        },
        _ => {},
    }
}

/// The quantified variable is a rigid one that is being checked.
pub open spec fn checks(q: QuantVar, epoch: u32, rigid: Set<i32>, v: i32) -> bool {
    q.epoch == epoch && q.origin_id == Some(v) && rigid.contains(v)
}

/// What stands in the place of the quantified variable at `i`.
spec fn placed_at(
    qs: Seq<QuantVar>,
    epoch: u32,
    rigid: Set<i32>,
    base: nat,
    level: i32,
    i: int,
) -> bool {
    let k = fresh_count(qs.take(i), epoch, rigid);
    if stays_rigid(qs[i], epoch, rigid) {
        placed(qs, epoch, rigid, base)[i] == Term::Var(qs[i].origin_id->0)
    } else {
        &&& placed(qs, epoch, rigid, base)[i] == Term::Var((base + k) as i32)
        &&& k < fresh_count(qs, epoch, rigid)
        &&& k < fresh_states(qs, epoch, rigid, level).len()
        &&& fresh_states(qs, epoch, rigid, level)[k as int] == (TyVarState::Unbound {
            level,
            constraint: qs[i].constraint,
        })
    }
}

proof fn lemma_placed_at(qs: Seq<QuantVar>, epoch: u32, rigid: Set<i32>, base: nat, level: i32)
    ensures
        placed(qs, epoch, rigid, base).len() == qs.len(),
        fresh_states(qs, epoch, rigid, level).len() == fresh_count(qs, epoch, rigid),
        fresh_count(qs, epoch, rigid) <= qs.len(),
        forall|i: int|
            0 <= i < qs.len() ==> #[trigger] placed_at(qs, epoch, rigid, base, level, i),
        forall|i: int, j: int|
            0 <= i < j < qs.len() && !stays_rigid(#[trigger] qs[i], epoch, rigid) ==> fresh_count(
                qs.take(i),
                epoch,
                rigid,
            ) < #[trigger] fresh_count(qs.take(j), epoch, rigid),
    decreases qs.len(),
{
    if qs.len() > 0 {
        let init = qs.drop_last();
        let n = qs.len() - 1;
        lemma_placed_at(init, epoch, rigid, base, level);
        assert(qs.take(n) =~= init);
        assert forall|i: int| 0 <= i < qs.len() implies #[trigger] placed_at(
            qs,
            epoch,
            rigid,
            base,
            level,
            i,
        ) by {
            if i < n {
                assert(placed_at(init, epoch, rigid, base, level, i));
                assert(init.take(i) =~= qs.take(i));
                assert(init[i] == qs[i]);
            }
        }
        assert forall|i: int, j: int|
            0 <= i < j < qs.len() && !stays_rigid(#[trigger] qs[i], epoch, rigid) implies fresh_count(
            qs.take(i),
            epoch,
            rigid,
        ) < #[trigger] fresh_count(qs.take(j), epoch, rigid) by {
            assert(init[i] == qs[i]);
            assert(init.take(i) =~= qs.take(i));
            if j < n {
                assert(init.take(j) =~= qs.take(j));
                assert(fresh_count(init.take(i), epoch, rigid) < fresh_count(
                    init.take(j),
                    epoch,
                    rigid,
                ));
            } else {
                assert(placed_at(init, epoch, rigid, base, level, i));
            }
        }
    }
}

/// What an instance puts in the places of a scheme's quantified variables: one
/// variable for each, either the rigid one that is being checked, or a new one of
/// its own that is unsolved, of the current level and under the same constraint.
pub open spec fn fresh_for(
    a: &InferEngine,
    b: &InferEngine,
    scheme: Scheme,
    rigid: Set<i32>,
    vs: Seq<i32>,
) -> bool {
    let qs = covered(a.quants@, scheme.quantified);
    &&& vs.len() == qs.len()
    &&& forall|i: int|
        0 <= i < qs.len() ==> checks(qs[i], a.var_epoch, rigid, #[trigger] vs[i]) || (a.vars@.len()
            <= vs[i] < b.vars@.len() && b.vars@[vs[i] as int] == (TyVarState::Unbound {
            level: a.current_level,
            constraint: qs[i].constraint,
        }) && forall|v: i32| !#[trigger] checks(qs[i], a.var_epoch, rigid, v))
    &&& forall|i: int, j: int|
        0 <= i < j < qs.len() && a.vars@.len() <= #[trigger] vs[i] && a.vars@.len()
            <= #[trigger] vs[j] && (forall|v: i32|
            !#[trigger] checks(qs[i], a.var_epoch, rigid, v)) && (forall|v: i32|
            !#[trigger] checks(qs[j], a.var_epoch, rigid, v)) ==> vs[i] != vs[j]
}

/// An instance of a scheme is its type with a variable in the place of each
/// quantified one, and nothing else changed.
pub proof fn law_an_instance_fills_the_scheme(
    a: &InferEngine,
    b: &InferEngine,
    scheme: Scheme,
    rigid: Set<i32>,
    r: Ty,
)
    requires
        instantiated(a, b, scheme, rigid, r),
        scheme.quantified.start + scheme.quantified.len <= a.quants@.len(),
        a.vars@.len() + scheme.quantified.len <= i32::MAX,
    ensures
        exists|vs: Seq<i32>| #[trigger]
            fresh_for(a, b, scheme, rigid, vs) && filled(a.term(scheme.ty), vs, b.term(r)),
{
    let qs = covered(a.quants@, scheme.quantified);
    let epoch = a.var_epoch;
    let base = a.vars@.len();
    let level = a.current_level;
    let subst = placed(qs, epoch, rigid, base);
    let fresh = fresh_states(qs, epoch, rigid, level);
    lemma_placed_at(qs, epoch, rigid, base, level);
    let vs = Seq::new(qs.len(), |i: int| subst[i]->Var_0);
    assert forall|i: int| 0 <= i < vs.len() implies #[trigger] subst[i] == Term::Var(vs[i]) by {
        assert(placed_at(qs, epoch, rigid, base, level, i));
    }
    lemma_filled(a.term(scheme.ty), vs, subst);
    assert forall|i: int| 0 <= i < qs.len() implies checks(
        qs[i],
        a.var_epoch,
        rigid,
        #[trigger] vs[i],
    ) || (a.vars@.len() <= vs[i] < b.vars@.len() && b.vars@[vs[i] as int] == (TyVarState::Unbound {
        level: a.current_level,
        constraint: qs[i].constraint,
    }) && forall|v: i32| !#[trigger] checks(qs[i], a.var_epoch, rigid, v)) by {
        assert(placed_at(qs, epoch, rigid, base, level, i));
        if !stays_rigid(qs[i], epoch, rigid) {
            let k = fresh_count(qs.take(i), epoch, rigid) as int;
            assert(b.vars@[base + k] == fresh[k]);
        }
    }
    assert forall|i: int, j: int|
        0 <= i < j < qs.len() && a.vars@.len() <= #[trigger] vs[i] && a.vars@.len()
            <= #[trigger] vs[j] && (forall|v: i32|
            !#[trigger] checks(qs[i], a.var_epoch, rigid, v)) && (forall|v: i32|
            !#[trigger] checks(qs[j], a.var_epoch, rigid, v)) implies vs[i] != vs[j] by {
        assert(placed_at(qs, epoch, rigid, base, level, i));
        assert(placed_at(qs, epoch, rigid, base, level, j));
        if stays_rigid(qs[i], epoch, rigid) {
            assert(checks(qs[i], epoch, rigid, qs[i].origin_id->0));
        }
        if stays_rigid(qs[j], epoch, rigid) {
            assert(checks(qs[j], epoch, rigid, qs[j].origin_id->0));
        }
        assert(fresh_count(qs.take(i), epoch, rigid) < fresh_count(qs.take(j), epoch, rigid));
    }
    assert(fresh_for(a, b, scheme, rigid, vs));
}

} // verus!
