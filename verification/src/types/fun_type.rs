//! Reading a type as a function, and laws on opening and closing types.

use crate::small::TyList;
use crate::types::environment::TypeParam;
use crate::types::generalize::{
    binding_ids, generalized, instantiated, lemma_gathered, may_quantify, placed, quant_of,
    quantifiable, stays_rigid,
};
use crate::types::infer::InferEngine;
use crate::types::node::{covered, QuantVar, RootVarState, Scheme, Ty, TyVarState, TypeNode};
use crate::types::rewrite::{
    closing_body, lemma_args_grow, opening, param_index, rewritten, rewritten_all, substituting,
};
use crate::types::term::{
    all_bound_free, bound_free, grows, in_arena, lemma_bound_free, lemma_compressed_grows,
    compressed, lemma_grows_trans, lemma_occurs, lemma_root, lemma_term, level_of, occurs,
    occurs_any, one, replaced, root, step, Term, term, terms,
};
use crate::types::unify::{
    adjusted_at, bound_to, free_at, in_term, law_unify_iff_unifiable, law_variable_unifies,
};
use vstd::prelude::*;

verus! {

/// Why a type cannot be called with the given number of arguments.
pub enum MatchFunTypeError {
    /// A function of another arity; its own parameters and result, so that the
    /// caller can go on checking.
    IncorrectArity { expected: usize, given: usize, params: TyList, ret: Ty },
    NotFn { ty: Ty },
}

/// Fresh variables `from .. from + n`.
pub open spec fn var_run(from: int, n: int) -> Seq<Term> {
    Seq::new(n as nat, |i: int| Term::Var((from + i) as i32))
}

/// The function that an unsolved variable becomes: of fresh variables, its
/// result the last of them.
pub open spec fn fresh_function(from: int, arity: int) -> Term {
    Term::Fun {
        params: var_run(from, arity),
        ret: Box::new(Term::Var((from + arity) as i32)),
    }
}

/// The variable `v` of the engine `a` became a function of fresh variables in
/// `b`, which are at its level or further out. Every type has that function in
/// its place, and nothing else changed.
pub open spec fn became_function(a: &InferEngine, b: &InferEngine, v: i32, arity: int) -> bool {
    let n = a.vars@.len() as int;
    &&& b.only_arena(a)
    &&& a.nodes@.is_prefix_of(b.nodes@)
    &&& a.children@.is_prefix_of(b.children@)
    &&& b.vars@.len() == n + arity + 1
    &&& forall|k: int|
        n <= k <= n + arity ==> #[trigger] b.vars@[k] == (TyVarState::Unbound {
            level: if level_of(a.vars@[v as int]) < a.current_level {
                level_of(a.vars@[v as int]) as i32
            } else {
                a.current_level
            },
            constraint: None,
        })
    &&& forall|u: int|
        0 <= u < n && u != v ==> if a.vars@[u] is Link {
            #[trigger] b.vars@[u] is Link
        } else {
            b.vars@[u] == a.vars@[u]
        }
    &&& forall|t: Ty|
        a.has(t) ==> #[trigger] b.term(t) == replaced(
            one(v, fresh_function(n, arity)),
            a.term(t),
        )
}

impl InferEngine {
    /// The parameters and result of `ty` as a function of the given arity,
    /// which an unsolved variable becomes unless a constraint on it forbids
    /// that.
    pub fn match_fun_type(&mut self, ty: Ty, arity: usize) -> (r: Result<
        (TyList, Ty),
        MatchFunTypeError,
    >)
        requires
            old(self).wf(),
            old(self).has(ty),
            old(self).term(ty) is Var ==> arity <= 0xFFFF && old(self).vars@.len() + arity
                < i32::MAX && old(self).room((arity + 2) as nat, arity as nat),
        ensures
            final(self).wf(),
            match old(self).nodes@[root(old(self).store(), ty).0 as int] {
                TypeNode::Fun { params, ret } => {
                    &&& grows(old(self).store(), final(self).store())
                    &&& final(self).only_vars(old(self))
                    &&& match r {
                        Ok((ps, rt)) => params.len == arity && ps@ == covered(
                            old(self).children@,
                            params,
                        ) && rt == ret,
                        Err(MatchFunTypeError::IncorrectArity { expected, given, params: ps, ret: rt }) =>
                            params.len != arity && expected == params.len && given == arity
                            && ps@ == covered(old(self).children@, params) && rt == ret,
                        Err(MatchFunTypeError::NotFn { ty: t }) => false,
                    }
                },
                TypeNode::Var(v) => match r {
                    Ok((ps, rt)) => {
                        &&& free_at(old(self).store(), ty) == Some(v)
                        &&& ps@.len() == arity
                        &&& final(self).has(rt)
                        &&& forall|i: int| 0 <= i < arity ==> final(self).has(#[trigger] ps@[i])
                        &&& became_function(old(self), final(self), v, arity as int)
                        &&& terms(final(self).store(), ps@) == var_run(
                            old(self).vars@.len() as int,
                            arity as int,
                        )
                        &&& final(self).term(rt) == Term::Var(
                            (old(self).vars@.len() + arity) as i32,
                        )
                    },
                    Err(MatchFunTypeError::NotFn { ty: t }) => {
                        &&& t == root(old(self).store(), ty)
                        &&& free_at(old(self).store(), ty) is None
                        &&& grows(old(self).store(), final(self).store())
                        &&& final(self).only_arena(old(self))
                        &&& old(self).vars@[v as int] is Generic ==> final(self).only_vars(
                            old(self),
                        )
                    },
                    Err(MatchFunTypeError::IncorrectArity { expected, given, params, ret }) => false,
                },
                _ => {
                    &&& grows(old(self).store(), final(self).store())
                    &&& final(self).only_vars(old(self))
                    &&& r matches Err(MatchFunTypeError::NotFn { ty: t }) && t == root(
                        old(self).store(),
                        ty,
                    )
                },
            },
    {
        let ghost a = self.store();
        let resolved = self.find(ty);
        let ghost b = self.store();
        proof {
            lemma_root(a, ty);
            lemma_compressed_grows(a, b);
            assert(term(b, resolved) == term(a, ty));
            assert(term(b, ty) == term(a, ty));
            lemma_term(b, resolved);
            assert(root(b, resolved) == resolved);
            lemma_root(b, resolved);
        }
        if let TypeNode::Var(id) = self.node(resolved) {
            proof {
                assert(a.vars[id as int] is Link <==> b.vars[id as int] is Link);
            }
            return match self.root_var(id) {
                RootVarState::Unbound { level, constraint } => {
                    let mut params = TyList::new();
                    let mut i: usize = 0;
                    let ghost base = self.vars@.len() as int;
                    let ghost e1 = *self;
                    proof {
                        assert(grows(b, b));
                        assert(terms(b, params@) =~= var_run(base, 0));
                    }
                    while i < arity
                        invariant
                            i <= arity,
                            arity <= 0xFFFF,
                            base == e1.vars@.len(),
                            base == old(self).vars@.len(),
                            base + arity < i32::MAX,
                            b == e1.store(),
                            e1.nodes@.len() + arity + 2 < 0xFFFF_FFFF,
                            self.wf(),
                            grows(b, self.store()),
                            self.nodes@.len() == e1.nodes@.len() + i,
                            self.children == e1.children,
                            self.vars@.len() == base + i,
                            self.only_arena(&e1),
                            forall|k: int|
                                base <= k < base + i ==> #[trigger] self.vars@[k] == (
                                TyVarState::Unbound {
                                    level: e1.current_level,
                                    constraint: None,
                                }),
                            params@.len() == i,
                            forall|k: int| 0 <= k < i ==> self.has(#[trigger] params@[k]),
                            terms(self.store(), params@) == var_run(base, i as int),
                        decreases arity - i,
                    {
                        let ghost s1 = self.store();
                        let ghost p0 = params@;
                        let p = self.fresh_var();
                        params.push(p);
                        proof {
                            let s2 = self.store();
                            lemma_grows_trans(b, s1, s2);
                            lemma_args_grow(s1, s2, p0);
                            assert forall|k: int| 0 <= k < i + 1 implies self.has(
                                #[trigger] params@[k],
                            ) by {
                                if k < i {
                                    assert(params@[k] == p0[k]);
                                }
                            }
                            assert(terms(s2, params@) =~= terms(s2, p0).push(term(s2, p)));
                            assert(var_run(base, i + 1) =~= var_run(base, i as int).push(
                                Term::Var((base + i) as i32),
                            ));
                        }
                        i += 1;
                    }
                    let ghost s1 = self.store();
                    let ret = self.fresh_var();
                    let ghost s2 = self.store();
                    proof {
                        lemma_grows_trans(b, s1, s2);
                        lemma_args_grow(s1, s2, params@);
                    }
                    let fn_ty = self.mk_fun(params.as_slice(), ret);
                    let ghost s3 = self.store();
                    let ghost e3 = *self;
                    proof {
                        lemma_grows_trans(b, s2, s3);
                        lemma_grows_trans(a, b, s3);
                        lemma_args_grow(s2, s3, params@);
                        assert(term(s3, resolved) == Term::Var(id));
                        assert(s3.live[resolved.0 as int] == b.live[resolved.0 as int]);
                        let ft = term(s3, fn_ty);
                        let run = var_run(base, arity as int);
                        assert(bound_free(ft)) by {
                            assert(all_bound_free(run));
                            lemma_bound_free(ft);
                        }
                        assert(!occurs(id, ft)) by {
                            lemma_occurs(id, ft);
                            assert(!occurs_any(id, run)) by {
                                assert forall|k: int| 0 <= k < run.len() implies !occurs(
                                    id,
                                    #[trigger] run[k],
                                ) by {}
                            }
                        }
                        assert(s3.vars[id as int] == b.vars[id as int]) by {
                            assert(b.vars[id as int] is Link <==> s3.vars[id as int] is Link);
                        }
                        law_variable_unifies(s3, id, resolved, fn_ty);
                    }
                    let u = self.unify(resolved, fn_ty);
                    proof {
                        law_unify_iff_unifiable(s3, self.store(), resolved, fn_ty, u);
                    }
                    match u {
                        Ok(_) => {
                            proof {
                                let s4 = self.store();
                                lemma_became_function(
                                    old(self),
                                    &e1,
                                    &e3,
                                    self,
                                    id,
                                    fn_ty,
                                    params@,
                                    ret,
                                );
                            }
                            Ok((params, ret))
                        },
                        Err(_) => {
                            proof {
                                lemma_compressed_grows(s3, self.store());
                                lemma_grows_trans(a, s3, self.store());
                            }
                            Err(MatchFunTypeError::NotFn { ty: resolved })
                        },
                    }
                },
                RootVarState::Generic { id: g, constraint } => Err(
                    MatchFunTypeError::NotFn { ty: resolved },
                ),
            };
        }
        if let TypeNode::Fun { params, ret } = self.node(resolved) {
            let mut list = TyList::new();
            let part = self.children_of(params);
            let mut i: usize = 0;
            proof {
                assert(list@ =~= part@.take(0));
            }
            while i < part.len()
                invariant
                    i <= part@.len(),
                    list@ == part@.take(i as int),
                decreases part@.len() - i,
            {
                list.push(part[i]);
                proof {
                    assert(part@.take(i + 1) =~= part@.take(i as int).push(part@[i as int]));
                }
                i += 1;
            }
            proof {
                assert(part@.take(i as int) =~= part@);
            }
            if params.len as usize != arity {
                return Err(
                    MatchFunTypeError::IncorrectArity {
                        expected: params.len as usize,
                        given: arity,
                        params: list,
                        ret,
                    },
                );
            }
            return Ok((list, ret));
        }
        Err(MatchFunTypeError::NotFn { ty: resolved })
    }
}

/// Binding a variable to a function of fresh variables makes it that function.
proof fn lemma_became_function(
    a: &InferEngine,
    e1: &InferEngine,
    e3: &InferEngine,
    b: &InferEngine,
    v: i32,
    fn_ty: Ty,
    params: Seq<Ty>,
    ret: Ty,
)
    requires
        a.wf(),
        compressed(a.store(), e1.store()),
        e1.only_vars(a),
        grows(a.store(), e3.store()),
        e3.only_arena(e1),
        e3.has(fn_ty),
        e3.has(ret),
        forall|i: int| 0 <= i < params.len() ==> e3.has(#[trigger] params[i]),
        a.vars@.len() + params.len() < i32::MAX,
        e3.vars@.len() == a.vars@.len() + params.len() + 1,
        forall|k: int|
            a.vars@.len() <= k < e3.vars@.len() ==> #[trigger] e3.vars@[k] == (TyVarState::Unbound {
                level: a.current_level,
                constraint: None,
            }),
        e3.term(fn_ty) == fresh_function(a.vars@.len() as int, params.len() as int),
        terms(e3.store(), params) == var_run(a.vars@.len() as int, params.len() as int),
        e3.term(ret) == Term::Var((a.vars@.len() + params.len()) as i32),
        0 <= v < a.vars@.len(),
        a.vars@[v as int] is Unbound,
        b.wf(),
        b.only_vars(e3),
        step(e3.store(), b.store()),
        bound_to(e3.store(), b.store(), v, fn_ty),
    ensures
        became_function(a, b, v, params.len() as int),
        terms(b.store(), params) == var_run(a.vars@.len() as int, params.len() as int),
        b.term(ret) == Term::Var((a.vars@.len() + params.len()) as i32),
        b.has(ret),
        forall|i: int| 0 <= i < params.len() ==> b.has(#[trigger] params[i]),
{
    let (s, s3, c) = (a.store(), e3.store(), b.store());
    let n = a.vars@.len() as int;
    let arity = params.len() as int;
    let f = fresh_function(n, arity);
    let run = var_run(n, arity);
    let lvl = level_of(a.vars@[v as int]) as i32;
    assert(s3.vars[v as int] == s.vars[v as int]) by {
        assert(s.vars[v as int] is Link <==> s3.vars[v as int] is Link);
    }
    assert forall|k: int| n <= k <= n + arity implies #[trigger] b.vars@[k] == (TyVarState::Unbound {
        level: if lvl < a.current_level {
            lvl
        } else {
            a.current_level
        },
        constraint: None,
    }) by {
        let w = k as i32;
        assert(e3.vars@[k] is Unbound);
        assert(adjusted_at(s3, c, lvl, in_term(term(s3, fn_ty)), w));
        lemma_occurs(w, f);
        if k < n + arity {
            assert(run[k - n] == Term::Var(w));
            assert(occurs(w, run[k - n]));
            assert(occurs_any(w, run));
        }
        assert(occurs(w, f));
    }
    assert forall|u: int| 0 <= u < n && u != v implies if a.vars@[u] is Link {
        #[trigger] b.vars@[u] is Link
    } else {
        b.vars@[u] == a.vars@[u]
    } by {
        let w = u as i32;
        assert(s.vars[u] is Link <==> s3.vars[u] is Link);
        if s.vars[u] is Link {
            assert(!(c.vars[u] is Unbound));
            assert(!(c.vars[u] is Generic));
        } else {
            assert(adjusted_at(s3, c, lvl, in_term(term(s3, fn_ty)), w));
            lemma_occurs(w, f);
            assert(!occurs_any(w, run)) by {
                assert forall|i: int| 0 <= i < run.len() implies !occurs(w, #[trigger] run[i]) by {}
            }
            assert(!occurs(w, f));
        }
    }
    assert forall|t: Ty| a.has(t) implies #[trigger] b.term(t) == replaced(one(v, f), a.term(t)) by {
        assert(term(s3, t) == term(s, t));
        assert(s3.live[t.0 as int] == s.live[t.0 as int]);
        assert(in_arena(s3, t));
    }
    assert(term(c, ret) == replaced(one(v, f), term(s3, ret)));
    assert forall|i: int| 0 <= i < params.len() implies terms(c, params)[i] == run[i] by {
        assert(terms(s3, params)[i] == run[i]);
        assert(e3.has(params[i]));
        assert(term(c, params[i]) == replaced(one(v, f), term(s3, params[i])));
    }
    assert(terms(c, params) =~= run);
}

/// Opening at the variables that were closed over gives the type back.
pub proof fn law_open_undoes_close(ids: Seq<i32>, t: Term)
    requires
        ids.no_duplicates(),
        ids.len() <= u32::MAX,
        bound_free(t),
    ensures
        rewritten(
            opening(ids.map_values(|v: i32| Term::Var(v))),
            rewritten(binding_ids(ids), t),
        ) == t,
    decreases t,
{
    let vars = ids.map_values(|v: i32| Term::Var(v));
    let o = opening(vars);
    let c = binding_ids(ids);
    match t {
        Term::Var(v) => {
            if ids.contains(v) {
                let i = ids.index_of(v);
                assert(ids[i] == v);
                assert(vars[i] == Term::Var(v));
            }
        },
        Term::Bound(_) => {},
        Term::Con { id, name, args } => {
            assert forall|i: int| 0 <= i < args.len() implies rewritten_all(
                o,
                rewritten_all(c, args),
            )[i] == args[i] by {
                law_open_undoes_close(ids, args[i]);
            }
            assert(rewritten_all(o, rewritten_all(c, args)) =~= args);
        },
        Term::Fun { params, ret } => {
            assert forall|i: int| 0 <= i < params.len() implies rewritten_all(
                o,
                rewritten_all(c, params),
            )[i] == params[i] by {
                law_open_undoes_close(ids, params[i]);
            }
            assert(rewritten_all(o, rewritten_all(c, params)) =~= params);
            law_open_undoes_close(ids, *ret);
        },
        Term::Tuple { elems } => {
            assert forall|i: int| 0 <= i < elems.len() implies rewritten_all(
                o,
                rewritten_all(c, elems),
            )[i] == elems[i] by {
                law_open_undoes_close(ids, elems[i]);
            }
            assert(rewritten_all(o, rewritten_all(c, elems)) =~= elems);
        },
    }
}

/// Instantiating a scheme within its own body, where the variables it
/// quantifies are held rigid, gives the very type it was generalized from.
pub proof fn law_recursive_reference_keeps_its_type(
    a: &InferEngine,
    b: &InferEngine,
    c: &InferEngine,
    ty: Ty,
    ignore_level: bool,
    restricted: Option<Set<i32>>,
    scheme: Scheme,
    rigid: Set<i32>,
    r: Ty,
)
    requires
        generalized(a, b, ty, ignore_level, restricted, scheme),
        bound_free(a.term(ty)),
        quantifiable(a, ty, ignore_level, restricted).len() <= 0xFFFF,
        forall|v: i32| #[trigger]
            quantifiable(a, ty, ignore_level, restricted).contains(v) ==> rigid.contains(v),
        instantiated(b, c, scheme, rigid, r),
    ensures
        c.term(r) == a.term(ty),
{
    let ids = quantifiable(a, ty, ignore_level, restricted);
    lemma_gathered(
        may_quantify(a, ty, ignore_level, restricted),
        a.term(ty),
        Seq::empty(),
    );
    let qs = covered(b.quants@, scheme.quantified);
    assert(qs =~= Seq::new(ids.len(), |i: int| quant_of(a, b, ids[i])));
    assert forall|i: int| 0 <= i < ids.len() implies stays_rigid(
        #[trigger] qs[i],
        b.var_epoch,
        rigid,
    ) && qs[i].origin_id == Some(ids[i]) by {
        assert(ids.contains(ids[i]));
    }
    lemma_placed_rigid(qs, ids, b.var_epoch, rigid, b.vars@.len());
    law_open_undoes_close(ids, a.term(ty));
}

proof fn lemma_placed_rigid(
    qs: Seq<QuantVar>,
    ids: Seq<i32>,
    epoch: u32,
    rigid: Set<i32>,
    base: nat,
)
    requires
        qs.len() == ids.len(),
        forall|i: int|
            0 <= i < ids.len() ==> stays_rigid(#[trigger] qs[i], epoch, rigid) && qs[i].origin_id
                == Some(ids[i]),
    ensures
        placed(qs, epoch, rigid, base) == ids.map_values(|v: i32| Term::Var(v)),
    decreases qs.len(),
{
    if qs.len() > 0 {
        assert forall|i: int| 0 <= i < ids.drop_last().len() implies stays_rigid(
            #[trigger] qs.drop_last()[i],
            epoch,
            rigid,
        ) && qs.drop_last()[i].origin_id == Some(ids.drop_last()[i]) by {
            assert(stays_rigid(qs[i], epoch, rigid));
        }
        lemma_placed_rigid(qs.drop_last(), ids.drop_last(), epoch, rigid, base);
        assert(stays_rigid(qs[qs.len() - 1], epoch, rigid));
    }
    assert(placed(qs, epoch, rigid, base) =~= ids.map_values(|v: i32| Term::Var(v)));
}

/// Closing a body that is closed changes nothing.
pub proof fn law_close_body_is_idempotent(params: Seq<TypeParam>, t: Term)
    ensures
        rewritten(closing_body(params), rewritten(closing_body(params), t)) == rewritten(
            closing_body(params),
            t,
        ),
    decreases t,
{
    let c = closing_body(params);
    match t {
        Term::Con { id, name, args } => {
            let x = rewritten_all(c, args);
            assert forall|i: int| 0 <= i < args.len() implies rewritten_all(c, x)[i] == x[i] by {
                law_close_body_is_idempotent(params, args[i]);
            }
            assert(rewritten_all(c, x) =~= x);
        },
        Term::Fun { params: ps, ret } => {
            let x = rewritten_all(c, ps);
            assert forall|i: int| 0 <= i < ps.len() implies rewritten_all(c, x)[i] == x[i] by {
                law_close_body_is_idempotent(params, ps[i]);
            }
            assert(rewritten_all(c, x) =~= x);
            law_close_body_is_idempotent(params, *ret);
        },
        Term::Tuple { elems } => {
            let x = rewritten_all(c, elems);
            assert forall|i: int| 0 <= i < elems.len() implies rewritten_all(c, x)[i] == x[i] by {
                law_close_body_is_idempotent(params, elems[i]);
            }
            assert(rewritten_all(c, x) =~= x);
        },
        _ => {},
    }
}

/// A body gives the same type at the same arguments whether it was closed
/// first or not.
pub proof fn law_closed_body_substitutes_alike(
    params: Seq<TypeParam>,
    args: Seq<Term>,
    t: Term,
)
    requires
        params.len() <= args.len(),
        params.len() <= u32::MAX,
    ensures
        rewritten(substituting(params, args), rewritten(closing_body(params), t)) == rewritten(
            substituting(params, args),
            t,
        ),
    decreases t,
{
    let c = closing_body(params);
    let s = substituting(params, args);
    match t {
        Term::Var(v) => {
            lemma_param_index_bound(params, v);
        },
        Term::Bound(_) => {},
        Term::Con { id, name, args: xs } => {
            assert forall|i: int| 0 <= i < xs.len() implies rewritten_all(
                s,
                rewritten_all(c, xs),
            )[i] == rewritten_all(s, xs)[i] by {
                law_closed_body_substitutes_alike(params, args, xs[i]);
            }
            assert(rewritten_all(s, rewritten_all(c, xs)) =~= rewritten_all(s, xs));
        },
        Term::Fun { params: ps, ret } => {
            assert forall|i: int| 0 <= i < ps.len() implies rewritten_all(
                s,
                rewritten_all(c, ps),
            )[i] == rewritten_all(s, ps)[i] by {
                law_closed_body_substitutes_alike(params, args, ps[i]);
            }
            assert(rewritten_all(s, rewritten_all(c, ps)) =~= rewritten_all(s, ps));
            law_closed_body_substitutes_alike(params, args, *ret);
        },
        Term::Tuple { elems } => {
            assert forall|i: int| 0 <= i < elems.len() implies rewritten_all(
                s,
                rewritten_all(c, elems),
            )[i] == rewritten_all(s, elems)[i] by {
                law_closed_body_substitutes_alike(params, args, elems[i]);
            }
            assert(rewritten_all(s, rewritten_all(c, elems)) =~= rewritten_all(s, elems));
        },
    }
}

proof fn lemma_param_index_bound(params: Seq<TypeParam>, v: i32)
    ensures
        param_index(params, v) matches Some(i) ==> i < params.len(),
    decreases params.len(),
{
    if params.len() > 0 {
        lemma_param_index_bound(params.drop_last(), v);
    }
}

} // verus!
