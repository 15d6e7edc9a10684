//! Structural rewriting of types: closing over variables, opening at types,
//! substituting type parameters.

use crate::names::{IdTable, position};
use crate::small::TyList;
use crate::types::arena::{closed, slice_closed};
use crate::types::environment::TypeParam;
use crate::types::infer::InferEngine;
use crate::types::node::{ArenaSlice, covered, Ty, TyVarState, TypeNode};
use crate::types::pool::Children;
use crate::types::term::{
    grows, in_arena, lemma_compressed_grows, lemma_grows_trans, lemma_kid_terms_grow,
    lemma_one_more_node, lemma_root, lemma_same_nodes_names, lemma_term, lemma_term_vars, live,
    name_below, no_new_names, node_ok, occurs, root, slice_ok, state_ok, Store, store_ok, Term,
    term, terms, var_in,
};
use vstd::prelude::*;

verus! {

/// What a rewrite puts in the place of leaves; `None` leaves one as it is.
pub struct Leaves {
    pub var: spec_fn(i32) -> Option<Term>,
    pub bound: spec_fn(u32) -> Option<Term>,
}

/// A term with its leaves replaced.
pub open spec fn rewritten(l: Leaves, t: Term) -> Term
    decreases t, 1nat,
{
    match t {
        Term::Var(v) => match (l.var)(v) {
            Some(x) => x,
            None => t,
        },
        Term::Bound(i) => match (l.bound)(i) {
            Some(x) => x,
            None => t,
        },
        Term::Con { id, name, args } => Term::Con { id, name, args: rewritten_all(l, args) },
        Term::Fun { params, ret } => Term::Fun {
            params: rewritten_all(l, params),
            ret: Box::new(rewritten(l, *ret)),
        },
        Term::Tuple { elems } => Term::Tuple { elems: rewritten_all(l, elems) },
    }
}

pub open spec fn rewritten_all(l: Leaves, ts: Seq<Term>) -> Seq<Term>
    decreases ts, 0nat,
{
    Seq::new(
        ts.len(),
        |i: int|
            if 0 <= i < ts.len() {
                rewritten(l, ts[i])
            } else {
                Term::Bound(0)
            },
    )
}

/// How many nodes a term has.
pub open spec fn weight(t: Term) -> nat
    decreases t,
{
    match t {
        Term::Var(_) => 1,
        Term::Bound(_) => 1,
        Term::Con { id, name, args } => 1 + weights(args),
        Term::Fun { params, ret } => 1 + weights(params) + weight(*ret),
        Term::Tuple { elems } => 1 + weights(elems),
    }
}

pub open spec fn weights(ts: Seq<Term>) -> nat
    decreases ts,
{
    if ts.len() == 0 {
        0
    } else {
        weights(ts.drop_last()) + weight(ts.last())
    }
}

pub proof fn lemma_weight_pos(t: Term)
    ensures
        weight(t) >= 1,
{
}

pub proof fn lemma_weights_take(ts: Seq<Term>, i: int)
    requires
        0 <= i < ts.len(),
    ensures
        weights(ts.take(i + 1)) == weights(ts.take(i)) + weight(ts[i]),
        weights(ts.take(i + 1)) <= weights(ts),
        i + 1 <= weights(ts.take(i + 1)),
    decreases ts.len() - i,
{
    assert(ts.take(i + 1).drop_last() =~= ts.take(i));
    lemma_weights_len(ts.take(i + 1));
    if i + 1 < ts.len() {
        lemma_weights_take(ts, i + 1);
    } else {
        assert(ts.take(i + 1) =~= ts);
    }
}

pub proof fn lemma_weights_len(ts: Seq<Term>)
    ensures
        ts.len() <= weights(ts),
    decreases ts.len(),
{
    if ts.len() > 0 {
        lemma_weights_len(ts.drop_last());
        lemma_weight_pos(ts.last());
    }
}

/// Every quantified variable of the term has an index below `n`.
pub open spec fn bounds_below(t: Term, n: int) -> bool
    decreases t,
{
    match t {
        Term::Var(_) => true,
        Term::Bound(i) => i < n,
        Term::Con { id, name, args } => forall|i: int|
            0 <= i < args.len() ==> bounds_below(#[trigger] args[i], n),
        Term::Fun { params, ret } => (forall|i: int|
            0 <= i < params.len() ==> bounds_below(#[trigger] params[i], n)) && bounds_below(
            *ret,
            n,
        ),
        Term::Tuple { elems } => forall|i: int|
            0 <= i < elems.len() ==> bounds_below(#[trigger] elems[i], n),
    }
}

/// No link is left inside the type: every variable node in it is unsolved or
/// rigid.
pub open spec fn solid(s: Store, t: Ty) -> bool
    decreases s.rank[t.0 as int], 1nat,
    when store_ok(s) && in_arena(s, t)
{
    proof {
        assert(node_ok(s, t.0 as int));
    }
    match s.nodes[t.0 as int] {
        TypeNode::Var(v) => !(s.vars[v as int] is Link),
        TypeNode::Bound(_) => true,
        TypeNode::Con { id, name, args } => slice_solid(s, args, s.rank[t.0 as int]),
        TypeNode::Fun { params, ret } => slice_solid(s, params, s.rank[t.0 as int]) && solid(s, ret),
        TypeNode::Tuple { elems } => slice_solid(s, elems, s.rank[t.0 as int]),
    }
}

pub open spec fn slice_solid(s: Store, sl: ArenaSlice<Children>, below: nat) -> bool
    decreases below, 0nat,
    when store_ok(s)
{
    forall|i: int|
        sl.start <= i < sl.start + sl.len ==> in_arena(s, #[trigger] s.kids[i])
            && s.rank[s.kids[i].0 as int] < below && solid(s, s.kids[i])
}

pub proof fn lemma_solid_grows(a: Store, b: Store, t: Ty)
    requires
        grows(a, b),
        in_arena(a, t),
        solid(a, t),
    ensures
        in_arena(b, t),
        solid(b, t),
    decreases a.rank[t.0 as int], 1nat,
{
    assert(node_ok(a, t.0 as int));
    assert(a.nodes[t.0 as int] == b.nodes[t.0 as int]);
    assert(a.live[t.0 as int] == b.live[t.0 as int]);
    assert(a.rank[t.0 as int] == b.rank[t.0 as int]);
    match a.nodes[t.0 as int] {
        TypeNode::Var(v) => {
            assert(a.vars[v as int] is Link <==> b.vars[v as int] is Link);
        },
        TypeNode::Bound(_) => {},
        TypeNode::Con { id, name, args } => {
            lemma_slice_solid_grows(a, b, args, t);
        },
        TypeNode::Fun { params, ret } => {
            lemma_slice_solid_grows(a, b, params, t);
            lemma_solid_grows(a, b, ret);
        },
        TypeNode::Tuple { elems } => {
            lemma_slice_solid_grows(a, b, elems, t);
        },
    }
}

proof fn lemma_slice_solid_grows(a: Store, b: Store, sl: ArenaSlice<Children>, whole: Ty)
    requires
        grows(a, b),
        in_arena(a, whole),
        slice_ok(a, sl, a.rank[whole.0 as int]),
        slice_solid(a, sl, a.rank[whole.0 as int]),
    ensures
        slice_solid(b, sl, a.rank[whole.0 as int]),
    decreases a.rank[whole.0 as int], 0nat,
{
    assert forall|i: int| sl.start <= i < sl.start + sl.len implies in_arena(
        b,
        #[trigger] b.kids[i],
    ) && b.rank[b.kids[i].0 as int] < a.rank[whole.0 as int] && solid(b, b.kids[i]) by {
        assert(a.kids[i] == b.kids[i]);
        lemma_solid_grows(a, b, a.kids[i]);
        assert(a.rank[a.kids[i].0 as int] == b.rank[a.kids[i].0 as int]);
    }
}

/// A type without links and without variables in its term is closed.
pub proof fn lemma_solid_closed(s: Store, t: Ty)
    requires
        store_ok(s),
        in_arena(s, t),
        solid(s, t),
        forall|v: i32| !#[trigger] occurs(v, term(s, t)),
    ensures
        closed(s, t),
    decreases s.rank[t.0 as int], 1nat,
{
    lemma_term(s, t);
    match s.nodes[t.0 as int] {
        TypeNode::Var(v) => {
            assert(occurs(v, term(s, t)));
        },
        TypeNode::Bound(_) => {},
        TypeNode::Con { id, name, args } => {
            lemma_slice_solid_closed(s, args, t);
        },
        TypeNode::Fun { params, ret } => {
            lemma_slice_solid_closed(s, params, t);
            assert forall|v: i32| !#[trigger] occurs(v, term(s, ret)) by {
                assert(!occurs(v, term(s, t)));
            }
            lemma_solid_closed(s, ret);
        },
        TypeNode::Tuple { elems } => {
            lemma_slice_solid_closed(s, elems, t);
        },
    }
}

proof fn lemma_slice_solid_closed(s: Store, sl: ArenaSlice<Children>, whole: Ty)
    requires
        store_ok(s),
        in_arena(s, whole),
        slice_ok(s, sl, s.rank[whole.0 as int]),
        slice_solid(s, sl, s.rank[whole.0 as int]),
        forall|v: i32| !#[trigger] occurs(v, term(s, whole)),
        match term(s, whole) {
            Term::Con { id, name, args } => args == terms(s, covered(s.kids, sl)),
            Term::Fun { params, ret } => params == terms(s, covered(s.kids, sl)),
            Term::Tuple { elems } => elems == terms(s, covered(s.kids, sl)),
            _ => false,
        },
    ensures
        slice_closed(s, sl, s.rank[whole.0 as int]),
    decreases s.rank[whole.0 as int], 0nat,
{
    let ks = covered(s.kids, sl);
    assert forall|i: int| sl.start <= i < sl.start + sl.len implies in_arena(
        s,
        #[trigger] s.kids[i],
    ) && s.rank[s.kids[i].0 as int] < s.rank[whole.0 as int] && closed(s, s.kids[i]) by {
        assert(ks[i - sl.start] == s.kids[i]);
        assert forall|v: i32| !#[trigger] occurs(v, term(s, s.kids[i])) by {
            assert(terms(s, ks)[i - sl.start] == term(s, s.kids[i]));
            assert(!occurs(v, term(s, whole)));
        }
        lemma_solid_closed(s, s.kids[i]);
    }
}

/// The first parameter whose variable is `v`.
pub open spec fn param_index(ps: Seq<TypeParam>, v: i32) -> Option<nat>
    decreases ps.len(),
{
    if ps.len() == 0 {
        None
    } else {
        match param_index(ps.drop_last(), v) {
            Some(i) => Some(i),
            None => if ps.last().id == v {
                Some((ps.len() - 1) as nat)
            } else {
                None
            },
        }
    }
}

proof fn lemma_param_index_stays(ps: Seq<TypeParam>, v: i32, n: int)
    requires
        0 <= n <= ps.len(),
        param_index(ps.take(n), v) is Some,
    ensures
        param_index(ps, v) == param_index(ps.take(n), v),
    decreases ps.len(),
{
    if n < ps.len() {
        assert(ps.drop_last().take(n) =~= ps.take(n));
        lemma_param_index_stays(ps.drop_last(), v, n);
    } else {
        assert(ps.take(n) =~= ps);
    }
}

/// What a rewrite does at the leaves.
pub enum Rewrite<'a> {
    /// Rigid variables among the ids become quantified ones, by position.
    CloseOver(&'a IdTable),
    /// Quantified variables become the types at their index.
    Open(&'a [Ty]),
    /// Type parameters, open or closed, become the types at their index.
    Substitute { params: &'a [TypeParam], args: &'a [Ty] },
    /// Type parameters' variables become quantified ones.
    CloseBody { params: &'a [TypeParam] },
}

impl<'a> Rewrite<'a> {
    /// The rewrite as a replacement of leaves, in a store.
    pub open spec fn leaves(&self, s: Store) -> Leaves {
        match self {
            Rewrite::CloseOver(ids) => closing(s, ids@),
            Rewrite::Open(subst) => opening(terms(s, subst@)),
            Rewrite::Substitute { params, args } => substituting(params@, terms(s, args@)),
            Rewrite::CloseBody { params } => closing_body(params@),
        }
    }

    /// The types the rewrite puts in are types of the store, and the term asks
    /// for none that is not there.
    pub open spec fn fits(&self, s: Store, t: Term) -> bool {
        match self {
            Rewrite::CloseOver(ids) => ids.wf() && ids@.len() <= u32::MAX,
            Rewrite::Open(subst) => bounds_below(t, subst@.len() as int) && forall|i: int|
                0 <= i < subst@.len() ==> in_arena(s, #[trigger] subst@[i]),
            Rewrite::Substitute { params, args } => forall|i: int|
                0 <= i < args@.len() ==> in_arena(s, #[trigger] args@[i]),
            Rewrite::CloseBody { params } => params@.len() <= u32::MAX,
        }
    }

    /// What the rewrite puts in has no links inside.
    pub open spec fn solid_leaves(&self, s: Store) -> bool {
        match self {
            Rewrite::CloseOver(ids) => true,
            Rewrite::Open(subst) => forall|i: int|
                0 <= i < subst@.len() ==> solid(s, #[trigger] subst@[i]),
            Rewrite::Substitute { params, args } => forall|i: int|
                0 <= i < args@.len() ==> solid(s, #[trigger] args@[i]),
            Rewrite::CloseBody { params } => true,
        }
    }
}

pub open spec fn closing(s: Store, ids: Seq<i32>) -> Leaves {
    Leaves {
        var: |v: i32|
            if var_in(s, v) && s.vars[v as int] is Generic {
                match position(ids, v) {
                    Some(i) => Some(Term::Bound(i as u32)),
                    None => None,
                }
            } else {
                None
            },
        bound: |i: u32| None,
    }
}

pub open spec fn opening(subst: Seq<Term>) -> Leaves {
    Leaves {
        var: |v: i32| None,
        bound: |i: u32|
            if i < subst.len() {
                Some(subst[i as int])
            } else {
                None
            },
    }
}

pub open spec fn substituting(params: Seq<TypeParam>, args: Seq<Term>) -> Leaves {
    Leaves {
        var: |v: i32|
            match param_index(params, v) {
                Some(i) => if i < args.len() {
                    Some(args[i as int])
                } else {
                    None
                },
                None => None,
            },
        bound: |i: u32|
            if i < args.len() {
                Some(args[i as int])
            } else {
                None
            },
    }
}

pub open spec fn closing_body(params: Seq<TypeParam>) -> Leaves {
    Leaves {
        var: |v: i32|
            match param_index(params, v) {
                Some(i) => Some(Term::Bound(i as u32)),
                None => None,
            },
        bound: |i: u32| None,
    }
}

/// A rewrite reads the same in a grown store.
proof fn lemma_leaves_grow(rw: &Rewrite, a: Store, b: Store, t: Term)
    requires
        grows(a, b),
        rw.fits(a, t),
    ensures
        rw.fits(b, t),
        rw.solid_leaves(a) ==> rw.solid_leaves(b),
        forall|v: i32| var_in(a, v) ==> #[trigger] (rw.leaves(b).var)(v) == (rw.leaves(a).var)(v),
        forall|i: u32| #[trigger] (rw.leaves(b).bound)(i) == (rw.leaves(a).bound)(i),
{
    match rw {
        Rewrite::CloseOver(ids) => {
            assert forall|v: i32| var_in(a, v) implies #[trigger] (rw.leaves(b).var)(v) == (
            rw.leaves(a).var)(v) by {
                assert(a.vars[v as int] is Link <==> b.vars[v as int] is Link);
            }
        },
        Rewrite::Open(subst) => {
            lemma_args_grow(a, b, subst@);
            if rw.solid_leaves(a) {
                assert forall|i: int| 0 <= i < subst@.len() implies solid(
                    b,
                    #[trigger] subst@[i],
                ) by {
                    lemma_solid_grows(a, b, subst@[i]);
                }
            }
        },
        Rewrite::Substitute { params, args } => {
            lemma_args_grow(a, b, args@);
            if rw.solid_leaves(a) {
                assert forall|i: int| 0 <= i < args@.len() implies solid(b, #[trigger] args@[i]) by {
                    lemma_solid_grows(a, b, args@[i]);
                }
            }
        },
        Rewrite::CloseBody { params } => {},
    }
}

pub proof fn lemma_args_grow(a: Store, b: Store, ts: Seq<Ty>)
    requires
        grows(a, b),
        forall|i: int| 0 <= i < ts.len() ==> in_arena(a, #[trigger] ts[i]),
    ensures
        terms(b, ts) == terms(a, ts),
        forall|i: int| 0 <= i < ts.len() ==> in_arena(b, #[trigger] ts[i]),
{
    assert forall|i: int| 0 <= i < ts.len() implies terms(b, ts)[i] == terms(a, ts)[i] by {
        assert(in_arena(a, ts[i]));
        assert(term(b, ts[i]) == term(a, ts[i]));
    }
    assert(terms(b, ts) =~= terms(a, ts));
    assert forall|i: int| 0 <= i < ts.len() implies in_arena(b, #[trigger] ts[i]) by {
        assert(in_arena(a, ts[i]));
        assert(a.live[ts[i].0 as int] == b.live[ts[i].0 as int]);
    }
}

/// Rewrites that agree on the leaves of a term rewrite it alike.
pub proof fn lemma_rewritten_same(l: Leaves, m: Leaves, t: Term)
    requires
        forall|v: i32| #[trigger] occurs(v, t) ==> (l.var)(v) == (m.var)(v),
        forall|i: u32| #[trigger] (l.bound)(i) == (m.bound)(i),
    ensures
        rewritten(l, t) == rewritten(m, t),
    decreases t,
{
    match t {
        Term::Var(v) => {
            assert(occurs(v, t));
        },
        Term::Bound(i) => {
            assert((l.bound)(i) == (m.bound)(i));
        },
        Term::Con { id, name, args } => {
            assert forall|i: int| 0 <= i < args.len() implies rewritten_all(l, args)[i]
                == rewritten_all(m, args)[i] by {
                assert forall|v: i32| #[trigger] occurs(v, args[i]) implies (l.var)(v) == (m.var)(
                    v,
                ) by {
                    assert(occurs(v, t));
                }
                lemma_rewritten_same(l, m, args[i]);
            }
            assert(rewritten_all(l, args) =~= rewritten_all(m, args));
        },
        Term::Fun { params, ret } => {
            assert forall|i: int| 0 <= i < params.len() implies rewritten_all(l, params)[i]
                == rewritten_all(m, params)[i] by {
                assert forall|v: i32| #[trigger] occurs(v, params[i]) implies (l.var)(v) == (
                m.var)(v) by {
                    assert(occurs(v, t));
                }
                lemma_rewritten_same(l, m, params[i]);
            }
            assert(rewritten_all(l, params) =~= rewritten_all(m, params));
            assert forall|v: i32| #[trigger] occurs(v, *ret) implies (l.var)(v) == (m.var)(v) by {
                assert(occurs(v, t));
            }
            lemma_rewritten_same(l, m, *ret);
        },
        Term::Tuple { elems } => {
            assert forall|i: int| 0 <= i < elems.len() implies rewritten_all(l, elems)[i]
                == rewritten_all(m, elems)[i] by {
                assert forall|v: i32| #[trigger] occurs(v, elems[i]) implies (l.var)(v) == (m.var)(
                    v,
                ) by {
                    assert(occurs(v, t));
                }
                lemma_rewritten_same(l, m, elems[i]);
            }
            assert(rewritten_all(l, elems) =~= rewritten_all(m, elems));
        },
    }
}

/// A rewrite in a grown store rewrites an old type as before.
proof fn lemma_rewrite_grows(rw: &Rewrite, a: Store, b: Store, t: Ty, whole: Term)
    requires
        grows(a, b),
        in_arena(a, t),
        rw.fits(a, whole),
    ensures
        rewritten(rw.leaves(b), term(b, t)) == rewritten(rw.leaves(a), term(a, t)),
{
    lemma_leaves_grow(rw, a, b, whole);
    assert(term(b, t) == term(a, t));
    assert forall|v: i32| #[trigger] occurs(v, term(a, t)) implies (rw.leaves(b).var)(v) == (
    rw.leaves(a).var)(v) by {
        lemma_term_vars(a, t, v);
    }
    lemma_rewritten_same(rw.leaves(b), rw.leaves(a), term(a, t));
}

impl InferEngine {
    /// The index of the first parameter whose variable is `v`.
    pub fn param_position(params: &[TypeParam], v: i32) -> (r: Option<usize>)
        ensures
            match r {
                Some(i) => param_index(params@, v) == Some(i as nat) && i < params@.len(),
                None => param_index(params@, v) is None,
            },
    {
        let mut i: usize = 0;
        while i < params.len()
            invariant
                i <= params@.len(),
                param_index(params@.take(i as int), v) is None,
            decreases params@.len() - i,
        {
            proof {
                assert(params@.take(i + 1).drop_last() =~= params@.take(i as int));
            }
            if params[i].id == v {
                proof {
                    lemma_param_index_stays(params@, v, i + 1);
                }
                return Some(i);
            }
            i += 1;
        }
        proof {
            assert(params@.take(i as int) =~= params@);
        }
        None
    }

    /// What the rewrite does at a node that is a representative.
    fn leaf(&mut self, t: Ty, rw: &Rewrite) -> (r: Option<Ty>)
        requires
            old(self).wf(),
            old(self).has(t),
            root(old(self).store(), t) == t,
            old(self).room(1, 0),
            rw.fits(old(self).store(), old(self).term(t)),
        ensures
            final(self).wf(),
            final(self).only_nodes(old(self)),
            final(self).nodes@.len() <= old(self).nodes@.len() + 1,
            final(self).children == old(self).children,
            no_new_names(old(self).store(), final(self).store()),
            match r {
                Some(u) => final(self).has(u) && final(self).term(u) == rewritten(
                    rw.leaves(old(self).store()),
                    old(self).term(t),
                ) && (rw.solid_leaves(old(self).store()) ==> solid(final(self).store(), u)),
                None => *final(self) == *old(self) && match old(self).term(t) {
                    Term::Var(v) => (rw.leaves(old(self).store()).var)(v) is None,
                    Term::Bound(i) => (rw.leaves(old(self).store()).bound)(i) is None,
                    _ => true,
                },
            },
    {
        let ghost s = self.store();
        proof {
            lemma_term(s, t);
            lemma_root(s, t);
            assert(grows(s, s));
        }
        match self.node(t) {
            TypeNode::Var(id) => {
                proof {
                    assert(state_ok(s, id as int));
                }
                match rw {
                    Rewrite::CloseOver(ids) => match self.vars[id as usize] {
                        TyVarState::Generic { id: gid, constraint } => match ids.index_of(gid) {
                            Some(ix) => {
                                let b = self.mk_bound(ix as u32);
                                proof {
                                    lemma_one_more_node(s, self.store());
                                }
                                Some(b)
                            },
                            None => None,
                        },
                        _ => None,
                    },
                    Rewrite::Open(subst) => None,
                    Rewrite::Substitute { params, args } => match Self::param_position(params, id) {
                        Some(i) => if i < args.len() {
                            Some(args[i])
                        } else {
                            None
                        },
                        None => None,
                    },
                    Rewrite::CloseBody { params } => match Self::param_position(params, id) {
                        Some(i) => {
                            let b = self.mk_bound(i as u32);
                            proof {
                                lemma_one_more_node(s, self.store());
                            }
                            Some(b)
                        },
                        None => None,
                    },
                }
            },
            TypeNode::Bound(i) => match rw {
                Rewrite::Open(subst) => Some(subst[i as usize]),
                Rewrite::Substitute { params, args } => if (i as usize) < args.len() {
                    Some(args[i as usize])
                } else {
                    None
                },
                _ => None,
            },
            _ => None,
        }
    }
}

/// What rewriting one type promises.
pub open spec fn rewrote(
    a: &InferEngine,
    b: &InferEngine,
    ty: Ty,
    rw: &Rewrite,
    r: Ty,
) -> bool {
    &&& b.wf()
    &&& b.only_nodes(a)
    &&& b.nodes@.len() <= a.nodes@.len() + weight(a.term(ty))
    &&& b.children@.len() < a.children@.len() + weight(a.term(ty))
    &&& no_new_names(a.store(), b.store())
    &&& b.has(r)
    &&& b.term(r) == rewritten(rw.leaves(a.store()), a.term(ty))
    &&& rw.solid_leaves(a.store()) ==> solid(b.store(), r)
}

/// What rewriting a child list promises.
pub open spec fn rewrote_all(
    a: &InferEngine,
    b: &InferEngine,
    sl: ArenaSlice<Children>,
    rw: &Rewrite,
    ks: Seq<Ty>,
) -> bool {
    let ts = terms(a.store(), covered(a.children@, sl));
    &&& b.wf()
    &&& b.only_nodes(a)
    &&& b.nodes@.len() <= a.nodes@.len() + weights(ts)
    &&& b.children@.len() + sl.len <= a.children@.len() + weights(ts)
    &&& no_new_names(a.store(), b.store())
    &&& ks.len() == sl.len
    &&& forall|i: int| 0 <= i < ks.len() ==> b.has(#[trigger] ks[i])
    &&& terms(b.store(), ks) == rewritten_all(rw.leaves(a.store()), ts)
    &&& rw.solid_leaves(a.store()) ==> forall|i: int|
        0 <= i < ks.len() ==> solid(b.store(), #[trigger] ks[i])
}

impl InferEngine {
    /// A type rewritten at its leaves; Con, Fun and Tuple are otherwise rebuilt
    /// from rewritten children. Unchanged subtrees are returned as they are.
    pub(crate) fn rewrite(&mut self, ty: Ty, rw: &Rewrite) -> (r: Ty)
        requires
            old(self).wf(),
            old(self).has(ty),
            rw.fits(old(self).store(), old(self).term(ty)),
            old(self).room(weight(old(self).term(ty)), weight(old(self).term(ty))),
        ensures
            rewrote(old(self), final(self), ty, rw, r),
    {
        self.rewrite_node(ty, rw).0
    }

    /// The bool says whether the result is another node than `ty`. Following a
    /// link counts as a change, so parents rebuild and the result never holds
    /// a link the leaves did not bring in.
    fn rewrite_node(&mut self, ty: Ty, rw: &Rewrite) -> (r: (Ty, bool))
        requires
            old(self).wf(),
            old(self).has(ty),
            rw.fits(old(self).store(), old(self).term(ty)),
            old(self).room(weight(old(self).term(ty)), weight(old(self).term(ty))),
        ensures
            rewrote(old(self), final(self), ty, rw, r.0),
            r.1 == (r.0 != ty),
        decreases old(self).rank@[ty.0 as int], 1nat,
    {
        let ghost a = self.store();
        let t = self.find(ty);
        let ghost e1 = *self;
        let ghost b = self.store();
        proof {
            lemma_root(a, ty);
            lemma_compressed_grows(a, b);
            lemma_weight_pos(term(a, ty));
            lemma_leaves_grow(rw, a, b, term(a, ty));
            assert(term(b, t) == term(a, t));
            assert(root(b, t) == t);
            lemma_rewrite_grows(rw, a, b, ty, term(a, ty));
            lemma_term(b, t);
            lemma_same_nodes_names(a, b);
            assert(live(b, t.0 as int));
            assert(name_below(b.nodes[t.0 as int], self.strings@.len() as int));
        }
        if let Some(out) = self.leaf(t, rw) {
            proof {
                lemma_grows_trans(a, b, self.store());
            }
            return (out, out != ty);
        }
        match self.node(t) {
            TypeNode::Var(_) => (t, t != ty),
            TypeNode::Bound(_) => (t, t != ty),
            TypeNode::Con { id, name, args } => {
                if args.len == 0 {
                    proof {
                        assert(terms(b, covered(b.kids, args)) =~= Seq::empty());
                        assert(rewritten_all(
                            rw.leaves(b),
                            terms(b, covered(b.kids, args)),
                        ) =~= Seq::empty());
                        assert(slice_solid(b, args, b.rank[t.0 as int]));
                    }
                    return (t, t != ty);
                }
                let kids = self.rewrite_children(args, rw, t);
                match kids {
                    Some(ks) => {
                        let ghost e2 = *self;
                        let r = self.mk_con_id(id, name, ks.as_slice());
                        proof {
                            lemma_rebuilt(old(self), &e1, &e2, self, ty, t, args, rw, ks@, r);
                        }
                        (r, true)
                    },
                    None => {
                        proof {
                            lemma_kept(old(self), &e1, self, ty, t, args, rw);
                        }
                        (t, t != ty)
                    },
                }
            },
            TypeNode::Fun { params, ret } => {
                let kids = self.rewrite_children(params, rw, t);
                let ghost e2 = *self;
                proof {
                    let s2 = self.store();
                    assert(in_arena(b, ret));
                    assert(s2.rank[ret.0 as int] == b.rank[ret.0 as int]);
                    assert(s2.live[ret.0 as int] == b.live[ret.0 as int]);
                    assert(term(s2, ret) == term(b, ret));
                    lemma_leaves_grow(rw, b, s2, term(b, ret));
                    lemma_rewrite_grows(rw, b, s2, ret, term(b, ret));
                }
                let (new_ret, ret_changed) = self.rewrite_node(ret, rw);
                let ghost e3 = *self;
                proof {
                    lemma_grows_trans(b, e2.store(), e3.store());
                }
                match kids {
                    Some(ks) => {
                        proof {
                            lemma_args_grow(e2.store(), e3.store(), ks@);
                        }
                        let r = self.mk_fun(ks.as_slice(), new_ret);
                        proof {
                            lemma_rebuilt_fun(
                                old(self),
                                &e1,
                                &e2,
                                &e3,
                                self,
                                ty,
                                t,
                                rw,
                                ks@,
                                new_ret,
                                r,
                            );
                        }
                        (r, true)
                    },
                    None => if ret_changed {
                        proof {
                            lemma_kid_terms_grow(b, e3.store(), params);
                        }
                        let r = self.push(TypeNode::Fun { params, ret: new_ret });
                        proof {
                            lemma_rebuilt_fun(
                                old(self),
                                &e1,
                                &e2,
                                &e3,
                                self,
                                ty,
                                t,
                                rw,
                                covered(b.kids, params),
                                new_ret,
                                r,
                            );
                        }
                        (r, true)
                    } else {
                        proof {
                            lemma_kept_fun(old(self), &e1, &e2, self, ty, t, rw);
                        }
                        (t, t != ty)
                    },
                }
            },
            TypeNode::Tuple { elems } => {
                let kids = self.rewrite_children(elems, rw, t);
                match kids {
                    Some(ks) => {
                        let ghost e2 = *self;
                        let r = self.mk_tuple(ks.as_slice());
                        proof {
                            lemma_rebuilt(old(self), &e1, &e2, self, ty, t, elems, rw, ks@, r);
                        }
                        (r, true)
                    },
                    None => {
                        proof {
                            lemma_kept(old(self), &e1, self, ty, t, elems, rw);
                        }
                        (t, t != ty)
                    },
                }
            },
        }
    }

    /// Rewrite each child of `sl`; `None` when every child came back
    /// unchanged. The list is only made once a child changes.
    fn rewrite_children(&mut self, sl: ArenaSlice<Children>, rw: &Rewrite, whole: Ty) -> (r: Option<
        TyList,
    >)
        requires
            old(self).wf(),
            old(self).has(whole),
            slice_ok(old(self).store(), sl, old(self).rank@[whole.0 as int]),
            forall|i: int|
                0 <= i < sl.len ==> rw.fits(
                    old(self).store(),
                    #[trigger] terms(old(self).store(), covered(old(self).children@, sl))[i],
                ),
            rw.fits(old(self).store(), Term::Var(0)),
            old(self).room(
                weights(terms(old(self).store(), covered(old(self).children@, sl))),
                weights(terms(old(self).store(), covered(old(self).children@, sl))),
            ),
        ensures
            rewrote_all(
                old(self),
                final(self),
                sl,
                rw,
                match r {
                    Some(ks) => ks@,
                    None => covered(old(self).children@, sl),
                },
            ),
        decreases old(self).rank@[whole.0 as int], 0nat,
    {
        let ghost a = self.store();
        let ghost ka = covered(a.kids, sl);
        let ghost ts = terms(a, ka);
        let ghost l = rw.leaves(a);
        let mut kids: Option<TyList> = None;
        let start: usize = sl.start as usize;
        let mut i: usize = 0;
        let ghost mut out: Seq<Ty> = Seq::empty();
        proof {
            assert(grows(a, a));
            assert(ts.take(0) =~= Seq::empty());
        }
        while i < sl.len as usize
            invariant
                0 <= i <= sl.len,
                start == sl.start,
                a == old(self).store(),
                store_ok(a),
                self.wf(),
                self.only_nodes(old(self)),
                no_new_names(a, self.store()),
                in_arena(a, whole),
                slice_ok(a, sl, a.rank[whole.0 as int]),
                ka == covered(a.kids, sl),
                ts == terms(a, ka),
                ts.len() == sl.len,
                l == rw.leaves(a),
                forall|k: int| 0 <= k < sl.len ==> rw.fits(a, #[trigger] ts[k]),
                rw.fits(a, Term::Var(0)),
                a.nodes.len() + weights(ts) < 0xFFFF_FFFF,
                a.kids.len() + weights(ts) <= 0xFFFF_FFFF,
                self.nodes@.len() <= a.nodes.len() + weights(ts.take(i as int)),
                self.children@.len() + i <= a.kids.len() + weights(ts.take(i as int)),
                out.len() == i,
                match kids {
                    Some(v) => v@ == out,
                    None => out == ka.take(i as int),
                },
                forall|k: int|
                    0 <= k < i ==> self.has(#[trigger] out[k]) && self.term(out[k]) == rewritten(
                        l,
                        ts[k],
                    ),
                rw.solid_leaves(a) ==> forall|k: int|
                    0 <= k < i ==> solid(self.store(), #[trigger] out[k]),
            decreases sl.len - i,
        {
            let k = self.children[start + i];
            let ghost e1 = *self;
            let ghost b = self.store();
            proof {
                assert(a.kids[start + i] == k);
                assert(b.kids[start + i] == k);
                assert(ka[i as int] == k);
                assert(ts[i as int] == term(a, k));
                assert(rw.fits(a, ts[i as int]));
                lemma_leaves_grow(rw, a, b, ts[i as int]);
                lemma_rewrite_grows(rw, a, b, k, ts[i as int]);
                assert(b.rank[k.0 as int] == a.rank[k.0 as int]);
                assert(b.live[k.0 as int] == a.live[k.0 as int]);
                assert(term(b, k) == term(a, k));
                lemma_weights_take(ts, i as int);
            }
            let (rk, changed) = self.rewrite_node(k, rw);
            let ghost out0 = out;
            proof {
                lemma_grows_trans(a, b, self.store());
                out = out.push(rk);
                assert forall|j: int| 0 <= j < i + 1 implies self.has(#[trigger] out[j])
                    && self.term(out[j]) == rewritten(l, ts[j]) by {
                    if j < i {
                        assert(out[j] == out0[j]);
                        assert(b.live[out0[j].0 as int] == self.store().live[out0[j].0 as int]);
                        assert(term(self.store(), out0[j]) == term(b, out0[j]));
                    }
                }
                if rw.solid_leaves(a) {
                    lemma_leaves_grow(rw, a, b, ts[i as int]);
                    assert forall|j: int| 0 <= j < i + 1 implies solid(
                        self.store(),
                        #[trigger] out[j],
                    ) by {
                        if j < i {
                            assert(out[j] == out0[j]);
                            assert(solid(b, out0[j]));
                            lemma_solid_grows(b, self.store(), out0[j]);
                        }
                    }
                }
                assert(ka.take(i + 1) =~= ka.take(i as int).push(k));
            }
            if let Some(v) = kids {
                let mut v2 = v;
                v2.push(rk);
                kids = Some(v2);
            } else if changed {
                let mut v = TyList::new();
                let mut j: usize = 0;
                proof {
                    assert(v@ =~= ka.take(0));
                }
                while j < i
                    invariant
                        j <= i <= sl.len,
                        start == sl.start,
                        a.kids.is_prefix_of(self.children@),
                        sl.start + sl.len <= a.kids.len(),
                        ka == covered(a.kids, sl),
                        v@ == ka.take(j as int),
                    decreases i - j,
                {
                    proof {
                        assert(self.children@.len() == self.children.len());
                    }
                    v.push(self.children[start + j]);
                    proof {
                        assert(a.kids[start + j] == self.children@[start + j]);
                        assert(ka.take(j + 1) =~= ka.take(j as int).push(ka[j as int]));
                    }
                    j += 1;
                }
                v.push(rk);
                kids = Some(v);
            }
            i += 1;
        }
        proof {
            assert(ts.take(i as int) =~= ts);
            assert(ka.take(i as int) =~= ka);
            assert(terms(self.store(), out) =~= rewritten_all(l, ts)) by {
                assert forall|k: int| 0 <= k < sl.len implies terms(self.store(), out)[k]
                    == rewritten_all(l, ts)[k] by {
                    assert(self.term(out[k]) == rewritten(l, ts[k]));
                }
            }
        }
        kids
    }
}

/// A nominal type or a tuple rebuilt over rewritten children.
proof fn lemma_rebuilt(
    e0: &InferEngine,
    e1: &InferEngine,
    e2: &InferEngine,
    e3: &InferEngine,
    ty: Ty,
    t: Ty,
    sl: ArenaSlice<Children>,
    rw: &Rewrite,
    ks: Seq<Ty>,
    r: Ty,
)
    requires
        e0.wf(),
        e1.wf(),
        e0.has(ty),
        grows(e0.store(), e1.store()),
        e1.only_nodes(e0),
        e1.nodes == e0.nodes,
        e1.live == e0.live,
        e1.children == e0.children,
        e1.has(t),
        e1.term(t) == e0.term(ty),
        rewritten(rw.leaves(e1.store()), e1.term(t)) == rewritten(
            rw.leaves(e0.store()),
            e0.term(ty),
        ),
        rw.solid_leaves(e0.store()) ==> rw.solid_leaves(e1.store()),
        rewrote_all(e1, e2, sl, rw, ks),
        e3.wf(),
        e3.only_nodes(e2),
        e3.nodes@.len() == e2.nodes@.len() + 1,
        r.0 == e2.nodes@.len(),
        e3.children@.len() == e2.children@.len() + ks.len(),
        e3.has(r),
        match (e1.nodes@[t.0 as int], e3.nodes@[r.0 as int]) {
            (
                TypeNode::Con { id, name, args },
                TypeNode::Con { id: i3, name: n3, args: a3 },
            ) => n3 == name && args == sl && a3.len == ks.len() && covered(e3.children@, a3) == ks && e3.term(r)
                == (Term::Con { id, name, args: terms(e2.store(), ks) }),
            (TypeNode::Tuple { elems }, TypeNode::Tuple { elems: e3s }) => elems == sl && e3s.len
                == ks.len() && covered(e3.children@, e3s) == ks && e3.term(r) == (Term::Tuple {
                elems: terms(e2.store(), ks),
            }),
            _ => false,
        },
    ensures
        rewrote(e0, e3, ty, rw, r),
{
    let s1 = e1.store();
    let s3 = e3.store();
    lemma_same_nodes_names(e0.store(), s1);
    assert(s1.nodes[t.0 as int] == e2.store().nodes[t.0 as int]);
    assert(s1.live[t.0 as int] == e2.store().live[t.0 as int]);
    assert(live(e2.store(), t.0 as int));
    lemma_one_more_node(e2.store(), s3);
    lemma_grows_trans(e0.store(), s1, e2.store());
    lemma_grows_trans(e0.store(), e2.store(), s3);
    lemma_term(s1, t);
    assert(node_ok(s3, r.0 as int));
    if rw.solid_leaves(e0.store()) {
        let a3 = match s3.nodes[r.0 as int] {
            TypeNode::Con { id, name, args } => args,
            TypeNode::Tuple { elems } => elems,
            _ => sl,
        };
        lemma_slice_solid(e2.store(), s3, a3, ks, s3.rank[r.0 as int]);
    }
}

/// A child list made of types without links has none.
proof fn lemma_slice_solid(b: Store, c: Store, sl: ArenaSlice<Children>, ks: Seq<Ty>, below: nat)
    requires
        grows(b, c),
        slice_ok(c, sl, below),
        covered(c.kids, sl) == ks,
        sl.len == ks.len(),
        forall|i: int| 0 <= i < ks.len() ==> in_arena(b, #[trigger] ks[i]) && solid(b, ks[i]),
    ensures
        slice_solid(c, sl, below),
{
    assert forall|i: int| sl.start <= i < sl.start + sl.len implies in_arena(
        c,
        #[trigger] c.kids[i],
    ) && c.rank[c.kids[i].0 as int] < below && solid(c, c.kids[i]) by {
        assert(ks[i - sl.start] == c.kids[i]);
        lemma_solid_grows(b, c, ks[i - sl.start]);
    }
}

/// A nominal type or a tuple whose children all came back unchanged.
proof fn lemma_kept(
    e0: &InferEngine,
    e1: &InferEngine,
    e2: &InferEngine,
    ty: Ty,
    t: Ty,
    sl: ArenaSlice<Children>,
    rw: &Rewrite,
)
    requires
        e0.wf(),
        e1.wf(),
        e0.has(ty),
        grows(e0.store(), e1.store()),
        e1.only_nodes(e0),
        e1.nodes == e0.nodes,
        e1.live == e0.live,
        e1.children == e0.children,
        e1.has(t),
        e1.term(t) == e0.term(ty),
        rewritten(rw.leaves(e1.store()), e1.term(t)) == rewritten(
            rw.leaves(e0.store()),
            e0.term(ty),
        ),
        rw.solid_leaves(e0.store()) ==> rw.solid_leaves(e1.store()),
        rewrote_all(e1, e2, sl, rw, covered(e1.children@, sl)),
        match e1.nodes@[t.0 as int] {
            TypeNode::Con { id, name, args } => args == sl,
            TypeNode::Tuple { elems } => elems == sl,
            _ => false,
        },
    ensures
        rewrote(e0, e2, ty, rw, t),
{
    let s1 = e1.store();
    let s2 = e2.store();
    lemma_same_nodes_names(e0.store(), s1);
    lemma_grows_trans(e0.store(), s1, s2);
    lemma_term(s1, t);
    lemma_term(s2, t);
    assert(s2.nodes[t.0 as int] == s1.nodes[t.0 as int]);
    assert(s2.live[t.0 as int] == s1.live[t.0 as int]);
    lemma_kid_terms_grow(s1, s2, sl);
    assert(term(s2, t) == term(s1, t));
    if rw.solid_leaves(e0.store()) {
        lemma_slice_solid(s2, s2, sl, covered(s2.kids, sl), s2.rank[t.0 as int]);
    }
}

/// A function rebuilt over rewritten parameters and result.
proof fn lemma_rebuilt_fun(
    e0: &InferEngine,
    e1: &InferEngine,
    e2: &InferEngine,
    e3: &InferEngine,
    e4: &InferEngine,
    ty: Ty,
    t: Ty,
    rw: &Rewrite,
    ks: Seq<Ty>,
    new_ret: Ty,
    r: Ty,
)
    requires
        e0.wf(),
        e1.wf(),
        e0.has(ty),
        grows(e0.store(), e1.store()),
        e1.only_nodes(e0),
        e1.nodes == e0.nodes,
        e1.live == e0.live,
        e1.children == e0.children,
        e1.has(t),
        e1.term(t) == e0.term(ty),
        rewritten(rw.leaves(e1.store()), e1.term(t)) == rewritten(
            rw.leaves(e0.store()),
            e0.term(ty),
        ),
        rw.solid_leaves(e0.store()) ==> rw.solid_leaves(e1.store()),
        rw.solid_leaves(e1.store()) ==> rw.solid_leaves(e2.store()),
        e4.wf(),
        e4.only_nodes(e3),
        e4.nodes@.len() == e3.nodes@.len() + 1,
        r.0 == e3.nodes@.len(),
        e4.children@.len() <= e3.children@.len() + ks.len(),
        e4.has(r),
        match (e1.nodes@[t.0 as int], e4.nodes@[r.0 as int]) {
            (TypeNode::Fun { params, ret }, TypeNode::Fun { params: p4, ret: r4 }) => {
                &&& rewrote_all(e1, e2, params, rw, ks)
                &&& rewrote(e2, e3, ret, rw, new_ret)
                &&& e2.term(ret) == e1.term(ret)
                &&& rewritten(rw.leaves(e2.store()), e2.term(ret)) == rewritten(
                    rw.leaves(e1.store()),
                    e1.term(ret),
                )
                &&& r4 == new_ret
                &&& p4.len == ks.len()
                &&& covered(e4.children@, p4) == ks
                &&& e4.term(r) == (Term::Fun {
                    params: terms(e3.store(), ks),
                    ret: Box::new(e3.term(new_ret)),
                })
            },
            _ => false,
        },
    ensures
        rewrote(e0, e4, ty, rw, r),
{
    let s1 = e1.store();
    let s4 = e4.store();
    lemma_same_nodes_names(e0.store(), s1);
    lemma_one_more_node(e3.store(), s4);
    lemma_grows_trans(e0.store(), s1, e2.store());
    lemma_grows_trans(e0.store(), e2.store(), e3.store());
    lemma_grows_trans(e0.store(), e3.store(), s4);
    lemma_term(s1, t);
    assert(node_ok(s4, r.0 as int));
    lemma_args_grow(e2.store(), e3.store(), ks);
    if rw.solid_leaves(e0.store()) {
        let p4 = match s4.nodes[r.0 as int] {
            TypeNode::Fun { params, ret } => params,
            _ => ArenaSlice { start: 0, len: 0, pool: std::marker::PhantomData },
        };
        lemma_grows_trans(e2.store(), e3.store(), s4);
        lemma_slice_solid(e2.store(), s4, p4, ks, s4.rank[r.0 as int]);
        lemma_solid_grows(e3.store(), s4, new_ret);
    }
}

/// A function whose parameters and result came back unchanged.
proof fn lemma_kept_fun(
    e0: &InferEngine,
    e1: &InferEngine,
    e2: &InferEngine,
    e3: &InferEngine,
    ty: Ty,
    t: Ty,
    rw: &Rewrite,
)
    requires
        e0.wf(),
        e1.wf(),
        e0.has(ty),
        grows(e0.store(), e1.store()),
        e1.only_nodes(e0),
        e1.nodes == e0.nodes,
        e1.live == e0.live,
        e1.children == e0.children,
        e1.has(t),
        e1.term(t) == e0.term(ty),
        rewritten(rw.leaves(e1.store()), e1.term(t)) == rewritten(
            rw.leaves(e0.store()),
            e0.term(ty),
        ),
        rw.solid_leaves(e0.store()) ==> rw.solid_leaves(e1.store()),
        rw.solid_leaves(e1.store()) ==> rw.solid_leaves(e2.store()),
        match e1.nodes@[t.0 as int] {
            TypeNode::Fun { params, ret } => {
                &&& rewrote_all(e1, e2, params, rw, covered(e1.children@, params))
                &&& rewrote(e2, e3, ret, rw, ret)
                &&& e2.term(ret) == e1.term(ret)
                &&& rewritten(rw.leaves(e2.store()), e2.term(ret)) == rewritten(
                    rw.leaves(e1.store()),
                    e1.term(ret),
                )
            },
            _ => false,
        },
    ensures
        rewrote(e0, e3, ty, rw, t),
{
    let s1 = e1.store();
    let s3 = e3.store();
    lemma_same_nodes_names(e0.store(), s1);
    lemma_grows_trans(s1, e2.store(), s3);
    lemma_grows_trans(e0.store(), s1, s3);
    lemma_term(s1, t);
    match s1.nodes[t.0 as int] {
        TypeNode::Fun { params, ret } => {
            let ks = covered(s1.kids, params);
            lemma_args_grow(e2.store(), s3, ks);
            lemma_kid_terms_grow(s1, s3, params);
            assert(s3.nodes[t.0 as int] == s1.nodes[t.0 as int]);
            assert(s3.live[t.0 as int] == s1.live[t.0 as int]);
            lemma_term(s3, t);
            assert(term(s3, t) == term(s1, t));
            assert(term(s3, ret) == term(s1, ret));
            if rw.solid_leaves(e0.store()) {
                lemma_slice_solid(e2.store(), s3, params, ks, s3.rank[t.0 as int]);
            }
        },
        _ => {},
    }
}

} // verus!
