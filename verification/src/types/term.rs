//! What the arena means: the finite term a node stands for once every link is
//! followed, and the assignments of shapes to variables that agree with the
//! links. Ghost only.

use crate::type_def::TypeId;
use crate::types::node::{ArenaSlice, Constraint, covered, PrimIds, StrId, Ty, TyVarState, TypeNode};
use crate::types::pool::Children;
use vstd::prelude::*;

verus! {

/// A type with every link followed.
pub enum Term {
    Var(i32),
    Bound(u32),
    Con { id: TypeId, name: StrId, args: Seq<Term> },
    Fun { params: Seq<Term>, ret: Box<Term> },
    Tuple { elems: Seq<Term> },
}

/// A type as identity sees it: display names dropped, and variables only where
/// nothing further is known of them.
pub enum Shape {
    Var(i32),
    Bound(u32),
    Con { id: TypeId, args: Seq<Shape> },
    Fun { params: Seq<Shape>, ret: Box<Shape> },
    Tuple { elems: Seq<Shape> },
}

/// The part of the engine that types live in. `live` marks the nodes that are
/// types still: a rewind leaves behind nodes whose variables are gone. `rank`
/// orders the live nodes so that whatever a node reaches, through children or
/// through links, ranks below it.
#[verifier::ext_equal]
pub struct Store {
    pub nodes: Seq<TypeNode>,
    pub kids: Seq<Ty>,
    pub vars: Seq<TyVarState>,
    pub live: Seq<bool>,
    pub rank: Seq<nat>,
    pub prims: PrimIds,
}

pub open spec fn in_arena(s: Store, t: Ty) -> bool {
    live(s, t.0 as int)
}

pub open spec fn live(s: Store, t: int) -> bool {
    0 <= t < s.nodes.len() && s.live[t]
}

pub open spec fn slice_ok(s: Store, sl: ArenaSlice<Children>, below: nat) -> bool {
    &&& sl.start + sl.len <= s.kids.len()
    &&& forall|i: int|
        sl.start <= i < sl.start + sl.len ==> in_arena(s, #[trigger] s.kids[i])
            && s.rank[s.kids[i].0 as int] < below
}

pub open spec fn var_in(s: Store, v: i32) -> bool {
    0 <= v < s.vars.len()
}

pub open spec fn node_ok(s: Store, t: int) -> bool {
    match s.nodes[t] {
        TypeNode::Var(v) => var_in(s, v) && match s.vars[v as int] {
            TyVarState::Link { ty } => in_arena(s, ty) && s.rank[ty.0 as int] < s.rank[t],
            _ => true,
        },
        TypeNode::Bound(_) => true,
        TypeNode::Con { id, name, args } => slice_ok(s, args, s.rank[t]),
        TypeNode::Fun { params, ret } => slice_ok(s, params, s.rank[t]) && in_arena(s, ret)
            && s.rank[ret.0 as int] < s.rank[t],
        TypeNode::Tuple { elems } => slice_ok(s, elems, s.rank[t]),
    }
}

/// A variable's state stands by itself: a link lands in the arena, a rigid
/// variable carries its own number.
pub open spec fn state_ok(s: Store, v: int) -> bool {
    match s.vars[v] {
        TyVarState::Link { ty } => in_arena(s, ty),
        TyVarState::Generic { id, constraint } => id == v,
        TyVarState::Unbound { level, constraint } => true,
    }
}

pub open spec fn store_ok(s: Store) -> bool {
    &&& s.rank.len() == s.nodes.len()
    &&& s.live.len() == s.nodes.len()
    &&& s.nodes.len() < 0xFFFF_FFFF
    &&& s.kids.len() <= 0xFFFF_FFFF
    &&& s.vars.len() <= i32::MAX
    &&& forall|t: int| live(s, t) ==> #[trigger] node_ok(s, t)
    &&& forall|v: int| 0 <= v < s.vars.len() ==> #[trigger] state_ok(s, v)
}

/// The term at a node.
pub open spec fn term(s: Store, t: Ty) -> Term
    decreases s.rank[t.0 as int], 1nat,
    when store_ok(s) && in_arena(s, t)
{
    proof {
        assert(node_ok(s, t.0 as int));
    }
    match s.nodes[t.0 as int] {
        TypeNode::Var(v) => match s.vars[v as int] {
            TyVarState::Link { ty } => term(s, ty),
            _ => Term::Var(v),
        },
        TypeNode::Bound(i) => Term::Bound(i),
        TypeNode::Con { id, name, args } => Term::Con {
            id,
            name,
            args: terms_below(s, covered(s.kids, args), s.rank[t.0 as int]),
        },
        TypeNode::Fun { params, ret } => Term::Fun {
            params: terms_below(s, covered(s.kids, params), s.rank[t.0 as int]),
            ret: Box::new(term(s, ret)),
        },
        TypeNode::Tuple { elems } => Term::Tuple {
            elems: terms_below(s, covered(s.kids, elems), s.rank[t.0 as int]),
        },
    }
}

pub open spec fn terms_below(s: Store, ts: Seq<Ty>, below: nat) -> Seq<Term>
    decreases below, 0nat,
    when store_ok(s)
{
    Seq::new(
        ts.len(),
        |i: int|
            if 0 <= i < ts.len() && in_arena(s, ts[i]) && s.rank[ts[i].0 as int] < below {
                term(s, ts[i])
            } else {
                Term::Bound(0)
            },
    )
}

/// The terms at a sequence of nodes.
pub open spec fn terms(s: Store, ts: Seq<Ty>) -> Seq<Term> {
    Seq::new(ts.len(), |i: int| term(s, ts[i]))
}

/// The representative of a node: what is left when links at the top are
/// followed.
pub open spec fn root(s: Store, t: Ty) -> Ty
    decreases s.rank[t.0 as int],
    when store_ok(s) && in_arena(s, t)
{
    proof {
        assert(node_ok(s, t.0 as int));
    }
    match s.nodes[t.0 as int] {
        TypeNode::Var(v) => match s.vars[v as int] {
            TyVarState::Link { ty } => root(s, ty),
            _ => t,
        },
        _ => t,
    }
}

/// The term a variable stands for.
pub open spec fn var_term(s: Store, v: i32) -> Term {
    match s.vars[v as int] {
        TyVarState::Link { ty } => term(s, ty),
        _ => Term::Var(v),
    }
}

pub open spec fn occurs(v: i32, t: Term) -> bool
    decreases t,
{
    match t {
        Term::Var(u) => u == v,
        Term::Bound(_) => false,
        Term::Con { id, name, args } => exists|i: int|
            0 <= i < args.len() && occurs(v, #[trigger] args[i]),
        Term::Fun { params, ret } => (exists|i: int|
            0 <= i < params.len() && occurs(v, #[trigger] params[i])) || occurs(v, *ret),
        Term::Tuple { elems } => exists|i: int|
            0 <= i < elems.len() && occurs(v, #[trigger] elems[i]),
    }
}

pub open spec fn occurs_any(v: i32, ts: Seq<Term>) -> bool {
    exists|i: int| 0 <= i < ts.len() && occurs(v, #[trigger] ts[i])
}

/// No quantified variable of a scheme is left in the term.
pub open spec fn bound_free(t: Term) -> bool
    decreases t,
{
    match t {
        Term::Var(_) => true,
        Term::Bound(_) => false,
        Term::Con { id, name, args } => forall|i: int|
            0 <= i < args.len() ==> bound_free(#[trigger] args[i]),
        Term::Fun { params, ret } => (forall|i: int|
            0 <= i < params.len() ==> bound_free(#[trigger] params[i])) && bound_free(*ret),
        Term::Tuple { elems } => forall|i: int|
            0 <= i < elems.len() ==> bound_free(#[trigger] elems[i]),
    }
}

pub open spec fn all_bound_free(ts: Seq<Term>) -> bool {
    forall|i: int| 0 <= i < ts.len() ==> bound_free(#[trigger] ts[i])
}

/// The term with every variable replaced.
pub open spec fn replaced(f: spec_fn(i32) -> Term, t: Term) -> Term
    decreases t, 1nat,
{
    match t {
        Term::Var(v) => f(v),
        Term::Bound(i) => t,
        Term::Con { id, name, args } => Term::Con { id, name, args: replaced_all(f, args) },
        Term::Fun { params, ret } => Term::Fun {
            params: replaced_all(f, params),
            ret: Box::new(replaced(f, *ret)),
        },
        Term::Tuple { elems } => Term::Tuple { elems: replaced_all(f, elems) },
    }
}

pub open spec fn replaced_all(f: spec_fn(i32) -> Term, ts: Seq<Term>) -> Seq<Term>
    decreases ts, 0nat,
{
    Seq::new(
        ts.len(),
        |i: int|
            if 0 <= i < ts.len() {
                replaced(f, ts[i])
            } else {
                Term::Bound(0)
            },
    )
}

/// Replaces one variable.
pub open spec fn one(v: i32, by: Term) -> spec_fn(i32) -> Term {
    |u: i32|
        if u == v {
            by
        } else {
            Term::Var(u)
        }
}

/// The shape of a term when variables stand for the shapes `m` gives them.
pub open spec fn eval(m: spec_fn(i32) -> Shape, t: Term) -> Shape
    decreases t, 1nat,
{
    match t {
        Term::Var(v) => m(v),
        Term::Bound(i) => Shape::Bound(i),
        Term::Con { id, name, args } => Shape::Con { id, args: eval_all(m, args) },
        Term::Fun { params, ret } => Shape::Fun {
            params: eval_all(m, params),
            ret: Box::new(eval(m, *ret)),
        },
        Term::Tuple { elems } => Shape::Tuple { elems: eval_all(m, elems) },
    }
}

pub open spec fn eval_all(m: spec_fn(i32) -> Shape, ts: Seq<Term>) -> Seq<Shape>
    decreases ts, 0nat,
{
    Seq::new(
        ts.len(),
        |i: int|
            if 0 <= i < ts.len() {
                eval(m, ts[i])
            } else {
                Shape::Bound(0)
            },
    )
}

pub open spec fn size(t: Shape) -> nat
    decreases t,
{
    match t {
        Shape::Var(_) => 1,
        Shape::Bound(_) => 1,
        Shape::Con { id, args } => 1 + sizes(args),
        Shape::Fun { params, ret } => 1 + sizes(params) + size(*ret),
        Shape::Tuple { elems } => 1 + sizes(elems),
    }
}

pub open spec fn sizes(ts: Seq<Shape>) -> nat
    decreases ts,
{
    if ts.len() == 0 {
        0
    } else {
        sizes(ts.drop_last()) + size(ts.last())
    }
}

/// A shape meets a constraint: an allowed primitive, or a rigid variable that
/// guarantees as much.
pub open spec fn meets(s: Store, c: Constraint, t: Shape) -> bool {
    match t {
        Shape::Con { id, args } => match s.prims.spec_prim_of(id) {
            Some(p) => c.allows(p),
            None => false,
        },
        Shape::Var(g) => var_in(s, g) && match s.vars[g as int] {
            TyVarState::Generic { id, constraint } => c.met_by(constraint),
            _ => false,
        },
        _ => false,
    }
}

/// What `m` gives a variable agrees with the variable's state.
pub open spec fn var_fits(s: Store, m: spec_fn(i32) -> Shape, v: i32) -> bool {
    match s.vars[v as int] {
        TyVarState::Link { ty } => m(v) == eval(m, term(s, ty)),
        TyVarState::Generic { id, constraint } => m(v) == Shape::Var(v),
        TyVarState::Unbound { level, constraint } => match constraint {
            Some(c) => meets(s, c, m(v)),
            None => true,
        },
    }
}

/// `m` is a solution of everything known so far: links hold, rigid variables
/// stand for themselves, constraints are met.
pub open spec fn solves(s: Store, m: spec_fn(i32) -> Shape) -> bool {
    forall|v: i32| var_in(s, v) ==> #[trigger] var_fits(s, m, v)
}

/// `t` is a variable that is not solved yet.
pub open spec fn is_unbound(s: TyVarState) -> bool {
    s is Unbound
}

/// How many variables are not solved yet.
pub open spec fn unbound(vars: Seq<TyVarState>) -> nat
    decreases vars.len(),
{
    if vars.len() == 0 {
        0
    } else {
        unbound(vars.drop_last()) + if is_unbound(vars.last()) {
            1nat
        } else {
            0nat
        }
    }
}

/// `b` says the same as `a`, with some links shortened.
pub open spec fn same_links(a: Store, b: Store) -> bool {
    &&& b.nodes == a.nodes
    &&& b.kids == a.kids
    &&& b.live == a.live
    &&& b.rank == a.rank
    &&& b.prims == a.prims
    &&& b.vars.len() == a.vars.len()
    &&& forall|v: int| 0 <= v < a.vars.len() ==> #[trigger] same_link(a, b, v)
}

pub open spec fn same_link(a: Store, b: Store, v: int) -> bool {
    match a.vars[v] {
        TyVarState::Link { ty } => match b.vars[v] {
            TyVarState::Link { ty: ty2 } => in_arena(a, ty2) && term(a, ty2) == term(a, ty)
                && a.rank[ty2.0 as int] <= a.rank[ty.0 as int] && root(a, ty2) == root(a, ty),
            _ => false,
        },
        _ => !(b.vars[v] is Link),
    }
}

/// As [`same_links`], and the variables without a link are as they were.
pub open spec fn compressed(a: Store, b: Store) -> bool {
    &&& same_links(a, b)
    &&& forall|v: int|
        0 <= v < a.vars.len() && !(a.vars[v] is Link) ==> #[trigger] b.vars[v] == a.vars[v]
}

pub proof fn lemma_same_links_term(a: Store, b: Store, t: Ty)
    requires
        store_ok(a),
        store_ok(b),
        same_links(a, b),
        in_arena(a, t),
    ensures
        term(b, t) == term(a, t),
        root(b, t) == root(a, t),
    decreases a.rank[t.0 as int],
{
    assert(node_ok(a, t.0 as int));
    assert(node_ok(b, t.0 as int));
    match a.nodes[t.0 as int] {
        TypeNode::Var(v) => {
            assert(same_link(a, b, v as int));
            match b.vars[v as int] {
                TyVarState::Link { ty } => {
                    lemma_same_links_term(a, b, ty);
                },
                _ => {},
            }
        },
        TypeNode::Bound(_) => {},
        TypeNode::Con { id, name, args } => {
            lemma_same_links_terms(a, b, covered(a.kids, args), a.rank[t.0 as int]);
        },
        TypeNode::Fun { params, ret } => {
            lemma_same_links_terms(a, b, covered(a.kids, params), a.rank[t.0 as int]);
            lemma_same_links_term(a, b, ret);
        },
        TypeNode::Tuple { elems } => {
            lemma_same_links_terms(a, b, covered(a.kids, elems), a.rank[t.0 as int]);
        },
    }
}

proof fn lemma_same_links_terms(a: Store, b: Store, ts: Seq<Ty>, below: nat)
    requires
        store_ok(a),
        store_ok(b),
        same_links(a, b),
    ensures
        terms_below(b, ts, below) == terms_below(a, ts, below),
    decreases below, 0nat,
{
    assert forall|i: int| 0 <= i < ts.len() implies terms_below(b, ts, below)[i] == terms_below(
        a,
        ts,
        below,
    )[i] by {
        if in_arena(a, ts[i]) && a.rank[ts[i].0 as int] < below {
            lemma_same_links_term(a, b, ts[i]);
        }
    }
    assert(terms_below(b, ts, below) =~= terms_below(a, ts, below));
}

/// The terms of a node's children, without the bound that makes the recursion
/// end.
pub proof fn lemma_terms_below(s: Store, sl: ArenaSlice<Children>, below: nat)
    requires
        store_ok(s),
        slice_ok(s, sl, below),
    ensures
        terms_below(s, covered(s.kids, sl), below) == terms(s, covered(s.kids, sl)),
{
    let ts = covered(s.kids, sl);
    assert forall|i: int| 0 <= i < ts.len() implies in_arena(s, ts[i]) && s.rank[ts[i].0 as int]
        < below by {
        assert(ts[i] == s.kids[sl.start + i]);
    }
    assert(terms_below(s, ts, below) =~= terms(s, ts));
}

/// A node's term, one level unfolded.
pub open spec fn node_term(s: Store, n: TypeNode) -> Term {
    match n {
        TypeNode::Var(v) => var_term(s, v),
        TypeNode::Bound(i) => Term::Bound(i),
        TypeNode::Con { id, name, args } => Term::Con {
            id,
            name,
            args: terms(s, covered(s.kids, args)),
        },
        TypeNode::Fun { params, ret } => Term::Fun {
            params: terms(s, covered(s.kids, params)),
            ret: Box::new(term(s, ret)),
        },
        TypeNode::Tuple { elems } => Term::Tuple { elems: terms(s, covered(s.kids, elems)) },
    }
}

pub proof fn lemma_term(s: Store, t: Ty)
    requires
        store_ok(s),
        in_arena(s, t),
    ensures
        term(s, t) == node_term(s, s.nodes[t.0 as int]),
        node_ok(s, t.0 as int),
{
    assert(node_ok(s, t.0 as int));
    match s.nodes[t.0 as int] {
        TypeNode::Con { id, name, args } => {
            lemma_terms_below(s, args, s.rank[t.0 as int]);
        },
        TypeNode::Fun { params, ret } => {
            lemma_terms_below(s, params, s.rank[t.0 as int]);
        },
        TypeNode::Tuple { elems } => {
            lemma_terms_below(s, elems, s.rank[t.0 as int]);
        },
        _ => {},
    }
}

/// The representative has the same term, ranks no higher, and is no link.
pub proof fn lemma_root(s: Store, t: Ty)
    requires
        store_ok(s),
        in_arena(s, t),
    ensures
        in_arena(s, root(s, t)),
        term(s, root(s, t)) == term(s, t),
        s.rank[root(s, t).0 as int] <= s.rank[t.0 as int],
        root(s, root(s, t)) == root(s, t),
        node_ok(s, root(s, t).0 as int),
        match s.nodes[root(s, t).0 as int] {
            TypeNode::Var(v) => var_in(s, v) && !(s.vars[v as int] is Link) && term(s, t)
                == Term::Var(v),
            _ => !(term(s, t) is Var),
        },
    decreases s.rank[t.0 as int],
{
    lemma_term(s, t);
    match s.nodes[t.0 as int] {
        TypeNode::Var(v) => match s.vars[v as int] {
            TyVarState::Link { ty } => lemma_root(s, ty),
            _ => {},
        },
        _ => {},
    }
}

/// Only unlinked variables of the store occur in a term.
pub proof fn lemma_term_vars(s: Store, t: Ty, v: i32)
    requires
        store_ok(s),
        in_arena(s, t),
        occurs(v, term(s, t)),
    ensures
        var_in(s, v),
        !(s.vars[v as int] is Link),
    decreases s.rank[t.0 as int],
{
    lemma_term(s, t);
    match s.nodes[t.0 as int] {
        TypeNode::Var(u) => match s.vars[u as int] {
            TyVarState::Link { ty } => lemma_term_vars(s, ty, v),
            _ => {},
        },
        TypeNode::Bound(_) => {},
        TypeNode::Con { id, name, args } => {
            let ks = covered(s.kids, args);
            let i = choose|i: int| 0 <= i < ks.len() && occurs(v, #[trigger] terms(s, ks)[i]);
            assert(ks[i] == s.kids[args.start + i]);
            lemma_term_vars(s, ks[i], v);
        },
        TypeNode::Fun { params, ret } => {
            let ks = covered(s.kids, params);
            if occurs(v, term(s, ret)) {
                lemma_term_vars(s, ret, v);
            } else {
                let i = choose|i: int| 0 <= i < ks.len() && occurs(v, #[trigger] terms(s, ks)[i]);
                assert(ks[i] == s.kids[params.start + i]);
                lemma_term_vars(s, ks[i], v);
            }
        },
        TypeNode::Tuple { elems } => {
            let ks = covered(s.kids, elems);
            let i = choose|i: int| 0 <= i < ks.len() && occurs(v, #[trigger] terms(s, ks)[i]);
            assert(ks[i] == s.kids[elems.start + i]);
            lemma_term_vars(s, ks[i], v);
        },
    }
}

pub proof fn lemma_occurs(v: i32, t: Term)
    ensures
        match t {
            Term::Con { id, name, args } => occurs(v, t) == occurs_any(v, args),
            Term::Fun { params, ret } => occurs(v, t) == (occurs_any(v, params) || occurs(v, *ret)),
            Term::Tuple { elems } => occurs(v, t) == occurs_any(v, elems),
            _ => true,
        },
{
    match t {
        Term::Con { id, name, args } => {
            if occurs_any(v, args) {
                let i = choose|i: int| 0 <= i < args.len() && occurs(v, #[trigger] args[i]);
                assert(occurs(v, args[i]));
            }
            if occurs(v, t) {
                let i = choose|i: int| 0 <= i < args.len() && occurs(v, #[trigger] args[i]);
                assert(occurs(v, args[i]));
            }
        },
        Term::Fun { params, ret } => {
            if occurs_any(v, params) {
                let i = choose|i: int| 0 <= i < params.len() && occurs(v, #[trigger] params[i]);
                assert(occurs(v, params[i]));
            }
            if occurs(v, t) && !occurs(v, *ret) {
                let i = choose|i: int| 0 <= i < params.len() && occurs(v, #[trigger] params[i]);
                assert(occurs(v, params[i]));
            }
        },
        Term::Tuple { elems } => {
            if occurs_any(v, elems) {
                let i = choose|i: int| 0 <= i < elems.len() && occurs(v, #[trigger] elems[i]);
                assert(occurs(v, elems[i]));
            }
            if occurs(v, t) {
                let i = choose|i: int| 0 <= i < elems.len() && occurs(v, #[trigger] elems[i]);
                assert(occurs(v, elems[i]));
            }
        },
        _ => {},
    }
}

/// Replacing variables that do not occur changes nothing.
pub proof fn lemma_replaced_same(f: spec_fn(i32) -> Term, g: spec_fn(i32) -> Term, t: Term)
    requires
        forall|v: i32| #[trigger] occurs(v, t) ==> f(v) == g(v),
    ensures
        replaced(f, t) == replaced(g, t),
    decreases t,
{
    match t {
        Term::Var(v) => {
            assert(occurs(v, t));
        },
        Term::Bound(_) => {},
        Term::Con { id, name, args } => {
            assert forall|i: int| 0 <= i < args.len() implies replaced_all(f, args)[i]
                == replaced_all(g, args)[i] by {
                assert forall|v: i32| #[trigger] occurs(v, args[i]) implies f(v) == g(v) by {
                    assert(occurs(v, t));
                }
                lemma_replaced_same(f, g, args[i]);
            }
            assert(replaced_all(f, args) =~= replaced_all(g, args));
        },
        Term::Fun { params, ret } => {
            assert forall|i: int| 0 <= i < params.len() implies replaced_all(f, params)[i]
                == replaced_all(g, params)[i] by {
                assert forall|v: i32| #[trigger] occurs(v, params[i]) implies f(v) == g(v) by {
                    assert(occurs(v, t));
                }
                lemma_replaced_same(f, g, params[i]);
            }
            assert(replaced_all(f, params) =~= replaced_all(g, params));
            assert forall|v: i32| #[trigger] occurs(v, *ret) implies f(v) == g(v) by {
                assert(occurs(v, t));
            }
            lemma_replaced_same(f, g, *ret);
        },
        Term::Tuple { elems } => {
            assert forall|i: int| 0 <= i < elems.len() implies replaced_all(f, elems)[i]
                == replaced_all(g, elems)[i] by {
                assert forall|v: i32| #[trigger] occurs(v, elems[i]) implies f(v) == g(v) by {
                    assert(occurs(v, t));
                }
                lemma_replaced_same(f, g, elems[i]);
            }
            assert(replaced_all(f, elems) =~= replaced_all(g, elems));
        },
    }
}

pub open spec fn as_is() -> spec_fn(i32) -> Term {
    |v: i32| Term::Var(v)
}

pub proof fn lemma_replaced_as_is(t: Term)
    ensures
        replaced(as_is(), t) == t,
    decreases t,
{
    match t {
        Term::Con { id, name, args } => {
            assert forall|i: int| 0 <= i < args.len() implies replaced_all(as_is(), args)[i]
                == args[i] by {
                lemma_replaced_as_is(args[i]);
            }
            assert(replaced_all(as_is(), args) =~= args);
        },
        Term::Fun { params, ret } => {
            assert forall|i: int| 0 <= i < params.len() implies replaced_all(as_is(), params)[i]
                == params[i] by {
                lemma_replaced_as_is(params[i]);
            }
            assert(replaced_all(as_is(), params) =~= params);
            lemma_replaced_as_is(*ret);
        },
        Term::Tuple { elems } => {
            assert forall|i: int| 0 <= i < elems.len() implies replaced_all(as_is(), elems)[i]
                == elems[i] by {
                lemma_replaced_as_is(elems[i]);
            }
            assert(replaced_all(as_is(), elems) =~= elems);
        },
        _ => {},
    }
}

/// What occurs after replacing occurs in some replacement.
pub proof fn lemma_replaced_occurs(f: spec_fn(i32) -> Term, t: Term, v: i32)
    ensures
        occurs(v, replaced(f, t)) <==> exists|w: i32| #[trigger] occurs(w, t) && occurs(v, f(w)),
    decreases t,
{
    match t {
        Term::Var(w) => {
            assert(occurs(w, t));
            if occurs(v, f(w)) {
                assert(occurs(w, t) && occurs(v, f(w)));
            }
        },
        Term::Bound(_) => {},
        Term::Con { id, name, args } => {
            lemma_replaced_occurs_any(f, args, v, t);
            let rs = replaced_all(f, args);
            lemma_occurs(v, replaced(f, t));
            assert(occurs(v, replaced(f, t)) == occurs_any(v, rs));
            if exists|w: i32| #[trigger] occurs(w, t) && occurs(v, f(w)) {
                let w = choose|w: i32| #[trigger] occurs(w, t) && occurs(v, f(w));
                lemma_occurs(w, t);
                assert(occurs_any(w, args));
            }
            if exists|w: i32| #[trigger] occurs_any(w, args) && occurs(v, f(w)) {
                let w = choose|w: i32| #[trigger] occurs_any(w, args) && occurs(v, f(w));
                lemma_occurs(w, t);
                assert(occurs(w, t));
            }
        },
        Term::Fun { params, ret } => {
            lemma_replaced_occurs_any(f, params, v, t);
            lemma_replaced_occurs(f, *ret, v);
            let rs = replaced_all(f, params);
            lemma_occurs(v, replaced(f, t));
            assert(occurs(v, replaced(f, t)) == (occurs_any(v, rs) || occurs(v, replaced(f, *ret))));
            if exists|w: i32| #[trigger] occurs(w, t) && occurs(v, f(w)) {
                let w = choose|w: i32| #[trigger] occurs(w, t) && occurs(v, f(w));
                lemma_occurs(w, t);
                assert(occurs_any(w, params) || occurs(w, *ret));
            }
            if exists|w: i32| #[trigger] occurs_any(w, params) && occurs(v, f(w)) {
                let w = choose|w: i32| #[trigger] occurs_any(w, params) && occurs(v, f(w));
                lemma_occurs(w, t);
                assert(occurs(w, t));
            }
            if exists|w: i32| #[trigger] occurs(w, *ret) && occurs(v, f(w)) {
                let w = choose|w: i32| #[trigger] occurs(w, *ret) && occurs(v, f(w));
                lemma_occurs(w, t);
                assert(occurs(w, t));
            }
        },
        Term::Tuple { elems } => {
            lemma_replaced_occurs_any(f, elems, v, t);
            let rs = replaced_all(f, elems);
            lemma_occurs(v, replaced(f, t));
            assert(occurs(v, replaced(f, t)) == occurs_any(v, rs));
            if exists|w: i32| #[trigger] occurs(w, t) && occurs(v, f(w)) {
                let w = choose|w: i32| #[trigger] occurs(w, t) && occurs(v, f(w));
                lemma_occurs(w, t);
                assert(occurs_any(w, elems));
            }
            if exists|w: i32| #[trigger] occurs_any(w, elems) && occurs(v, f(w)) {
                let w = choose|w: i32| #[trigger] occurs_any(w, elems) && occurs(v, f(w));
                lemma_occurs(w, t);
                assert(occurs(w, t));
            }
        },
    }
}

proof fn lemma_replaced_occurs_any(f: spec_fn(i32) -> Term, ts: Seq<Term>, v: i32, whole: Term)
    requires
        forall|i: int| 0 <= i < ts.len() ==> decreases_to!(whole => #[trigger] ts[i]),
    ensures
        occurs_any(v, replaced_all(f, ts)) <==> exists|w: i32| #[trigger]
            occurs_any(w, ts) && occurs(v, f(w)),
    decreases whole, 0nat,
{
    let rs = replaced_all(f, ts);
    if occurs_any(v, rs) {
        let i = choose|i: int| 0 <= i < rs.len() && occurs(v, #[trigger] rs[i]);
        lemma_replaced_occurs(f, ts[i], v);
        let w = choose|w: i32| #[trigger] occurs(w, ts[i]) && occurs(v, f(w));
        assert(occurs_any(w, ts) && occurs(v, f(w)));
    }
    if exists|w: i32| #[trigger] occurs_any(w, ts) && occurs(v, f(w)) {
        let w = choose|w: i32| #[trigger] occurs_any(w, ts) && occurs(v, f(w));
        let i = choose|i: int| 0 <= i < ts.len() && occurs(w, #[trigger] ts[i]);
        lemma_replaced_occurs(f, ts[i], v);
        assert(occurs(v, rs[i]));
    }
}

/// Replacing twice is replacing once by the replaced.
pub proof fn lemma_replaced_twice(f: spec_fn(i32) -> Term, g: spec_fn(i32) -> Term, t: Term)
    ensures
        replaced(g, replaced(f, t)) == replaced(|v: i32| replaced(g, f(v)), t),
    decreases t,
{
    let h = |v: i32| replaced(g, f(v));
    match t {
        Term::Con { id, name, args } => {
            assert forall|i: int| 0 <= i < args.len() implies replaced_all(
                g,
                replaced_all(f, args),
            )[i] == replaced_all(h, args)[i] by {
                lemma_replaced_twice(f, g, args[i]);
            }
            assert(replaced_all(g, replaced_all(f, args)) =~= replaced_all(h, args));
        },
        Term::Fun { params, ret } => {
            assert forall|i: int| 0 <= i < params.len() implies replaced_all(
                g,
                replaced_all(f, params),
            )[i] == replaced_all(h, params)[i] by {
                lemma_replaced_twice(f, g, params[i]);
            }
            assert(replaced_all(g, replaced_all(f, params)) =~= replaced_all(h, params));
            lemma_replaced_twice(f, g, *ret);
        },
        Term::Tuple { elems } => {
            assert forall|i: int| 0 <= i < elems.len() implies replaced_all(
                g,
                replaced_all(f, elems),
            )[i] == replaced_all(h, elems)[i] by {
                lemma_replaced_twice(f, g, elems[i]);
            }
            assert(replaced_all(g, replaced_all(f, elems)) =~= replaced_all(h, elems));
        },
        _ => {},
    }
}

/// Evaluating a replaced term is evaluating the term, where the assignment
/// already agrees with the replacement.
pub proof fn lemma_eval_replaced(m: spec_fn(i32) -> Shape, f: spec_fn(i32) -> Term, t: Term)
    requires
        forall|v: i32| #[trigger] occurs(v, t) ==> eval(m, f(v)) == m(v),
    ensures
        eval(m, replaced(f, t)) == eval(m, t),
    decreases t,
{
    match t {
        Term::Var(v) => {
            assert(occurs(v, t));
        },
        Term::Bound(_) => {},
        Term::Con { id, name, args } => {
            assert forall|i: int| 0 <= i < args.len() implies eval_all(m, replaced_all(f, args))[i]
                == eval_all(m, args)[i] by {
                assert forall|v: i32| #[trigger] occurs(v, args[i]) implies eval(m, f(v)) == m(
                    v,
                ) by {
                    assert(occurs(v, t));
                }
                lemma_eval_replaced(m, f, args[i]);
            }
            assert(eval_all(m, replaced_all(f, args)) =~= eval_all(m, args));
        },
        Term::Fun { params, ret } => {
            assert forall|i: int| 0 <= i < params.len() implies eval_all(
                m,
                replaced_all(f, params),
            )[i] == eval_all(m, params)[i] by {
                assert forall|v: i32| #[trigger] occurs(v, params[i]) implies eval(m, f(v)) == m(
                    v,
                ) by {
                    assert(occurs(v, t));
                }
                lemma_eval_replaced(m, f, params[i]);
            }
            assert(eval_all(m, replaced_all(f, params)) =~= eval_all(m, params));
            assert forall|v: i32| #[trigger] occurs(v, *ret) implies eval(m, f(v)) == m(v) by {
                assert(occurs(v, t));
            }
            lemma_eval_replaced(m, f, *ret);
        },
        Term::Tuple { elems } => {
            assert forall|i: int| 0 <= i < elems.len() implies eval_all(
                m,
                replaced_all(f, elems),
            )[i] == eval_all(m, elems)[i] by {
                assert forall|v: i32| #[trigger] occurs(v, elems[i]) implies eval(m, f(v)) == m(
                    v,
                ) by {
                    assert(occurs(v, t));
                }
                lemma_eval_replaced(m, f, elems[i]);
            }
            assert(eval_all(m, replaced_all(f, elems)) =~= eval_all(m, elems));
        },
    }
}

proof fn lemma_sizes(ts: Seq<Shape>, i: int)
    requires
        0 <= i < ts.len(),
    ensures
        size(ts[i]) <= sizes(ts),
    decreases ts.len(),
{
    if i < ts.len() - 1 {
        assert(ts.drop_last()[i] == ts[i]);
        lemma_sizes(ts.drop_last(), i);
    }
}

/// A term is at least as large as a variable in it, and larger unless it is
/// that variable.
pub proof fn lemma_occurs_size(m: spec_fn(i32) -> Shape, v: i32, t: Term)
    requires
        occurs(v, t),
    ensures
        t == Term::Var(v) || size(m(v)) < size(eval(m, t)),
        size(m(v)) <= size(eval(m, t)),
    decreases t,
{
    match t {
        Term::Var(_) => {},
        Term::Bound(_) => {},
        Term::Con { id, name, args } => {
            let i = choose|i: int| 0 <= i < args.len() && occurs(v, #[trigger] args[i]);
            lemma_occurs_size(m, v, args[i]);
            lemma_sizes(eval_all(m, args), i);
        },
        Term::Fun { params, ret } => {
            if occurs(v, *ret) {
                lemma_occurs_size(m, v, *ret);
            } else {
                let i = choose|i: int| 0 <= i < params.len() && occurs(v, #[trigger] params[i]);
                lemma_occurs_size(m, v, params[i]);
                lemma_sizes(eval_all(m, params), i);
            }
        },
        Term::Tuple { elems } => {
            let i = choose|i: int| 0 <= i < elems.len() && occurs(v, #[trigger] elems[i]);
            lemma_occurs_size(m, v, elems[i]);
            lemma_sizes(eval_all(m, elems), i);
        },
    }
}

pub proof fn lemma_bound_free(t: Term)
    ensures
        match t {
            Term::Con { id, name, args } => bound_free(t) == all_bound_free(args),
            Term::Fun { params, ret } => bound_free(t) == (all_bound_free(params) && bound_free(
                *ret,
            )),
            Term::Tuple { elems } => bound_free(t) == all_bound_free(elems),
            _ => true,
        },
{
    match t {
        Term::Con { id, name, args } => {
            if all_bound_free(args) {
                assert forall|i: int| 0 <= i < args.len() implies bound_free(#[trigger] args[i]) by {}
            }
        },
        Term::Fun { params, ret } => {
            if all_bound_free(params) {
                assert forall|i: int| 0 <= i < params.len() implies bound_free(
                    #[trigger] params[i],
                ) by {}
            }
        },
        Term::Tuple { elems } => {
            if all_bound_free(elems) {
                assert forall|i: int| 0 <= i < elems.len() implies bound_free(
                    #[trigger] elems[i],
                ) by {}
            }
        },
        _ => {},
    }
}

pub proof fn lemma_bound_free_replaced(f: spec_fn(i32) -> Term, t: Term)
    requires
        bound_free(t),
        forall|v: i32| #[trigger] occurs(v, t) ==> bound_free(f(v)),
    ensures
        bound_free(replaced(f, t)),
    decreases t,
{
    match t {
        Term::Var(v) => {
            assert(occurs(v, t));
        },
        Term::Bound(_) => {},
        Term::Con { id, name, args } => {
            assert forall|i: int| 0 <= i < args.len() implies bound_free(
                #[trigger] replaced_all(f, args)[i],
            ) by {
                assert forall|v: i32| #[trigger] occurs(v, args[i]) implies bound_free(f(v)) by {
                    assert(occurs(v, t));
                }
                lemma_bound_free_replaced(f, args[i]);
            }
            assert(all_bound_free(replaced_all(f, args)));
            lemma_bound_free(replaced(f, t));
        },
        Term::Fun { params, ret } => {
            assert forall|i: int| 0 <= i < params.len() implies bound_free(
                #[trigger] replaced_all(f, params)[i],
            ) by {
                assert forall|v: i32| #[trigger] occurs(v, params[i]) implies bound_free(f(v)) by {
                    assert(occurs(v, t));
                }
                lemma_bound_free_replaced(f, params[i]);
            }
            assert forall|v: i32| #[trigger] occurs(v, *ret) implies bound_free(f(v)) by {
                assert(occurs(v, t));
            }
            lemma_bound_free_replaced(f, *ret);
            assert(all_bound_free(replaced_all(f, params)));
            lemma_bound_free(replaced(f, t));
        },
        Term::Tuple { elems } => {
            assert forall|i: int| 0 <= i < elems.len() implies bound_free(
                #[trigger] replaced_all(f, elems)[i],
            ) by {
                assert forall|v: i32| #[trigger] occurs(v, elems[i]) implies bound_free(f(v)) by {
                    assert(occurs(v, t));
                }
                lemma_bound_free_replaced(f, elems[i]);
            }
            assert(all_bound_free(replaced_all(f, elems)));
            lemma_bound_free(replaced(f, t));
        },
    }
}

/// The store with a variable linked, ranks lifted where needed.
pub open spec fn linked(s: Store, v: i32, ty: Ty) -> Store {
    Store {
        vars: s.vars.update(v as int, TyVarState::Link { ty }),
        rank: lifted(s, v, ty),
        ..s
    }
}

/// Everything that reaches `v` moves above `ty`.
pub open spec fn lifted(s: Store, v: i32, ty: Ty) -> Seq<nat> {
    Seq::new(
        s.nodes.len(),
        |t: int|
            s.rank[t] + if occurs(v, term(s, Ty(t as u32))) {
                s.rank[ty.0 as int] + 1
            } else {
                0nat
            },
    )
}

/// Linking an unsolved variable to a type it does not occur in keeps the store
/// acyclic, and puts the type in the variable's place everywhere.
pub proof fn lemma_linked(s: Store, v: i32, ty: Ty)
    requires
        store_ok(s),
        var_in(s, v),
        s.vars[v as int] is Unbound,
        in_arena(s, ty),
        !occurs(v, term(s, ty)),
    ensures
        store_ok(linked(s, v, ty)),
        forall|t: Ty|
            in_arena(s, t) ==> #[trigger] term(linked(s, v, ty), t) == replaced(
                one(v, term(s, ty)),
                term(s, t),
            ),
{
    let s2 = linked(s, v, ty);
    assert forall|t: int| live(s2, t) implies #[trigger] node_ok(s2, t) by {
        let tt = Ty(t as u32);
        lemma_term(s, tt);
        assert(s.nodes[t] == s2.nodes[t]);
        match s.nodes[t] {
            TypeNode::Var(u) => {
                if u == v {
                    assert(occurs(v, term(s, tt)));
                } else {
                    match s.vars[u as int] {
                        TyVarState::Link { ty: ty2 } => {
                            assert(term(s, tt) == term(s, ty2));
                        },
                        _ => {},
                    }
                }
            },
            TypeNode::Bound(_) => {},
            TypeNode::Con { id, name, args } => {
                lemma_occurs(v, term(s, tt));
                lemma_lifted_slice(s, v, ty, tt, args);
            },
            TypeNode::Fun { params, ret } => {
                lemma_occurs(v, term(s, tt));
                lemma_lifted_slice(s, v, ty, tt, params);
            },
            TypeNode::Tuple { elems } => {
                lemma_occurs(v, term(s, tt));
                lemma_lifted_slice(s, v, ty, tt, elems);
            },
        }
    }
    assert forall|u: int| 0 <= u < s2.vars.len() implies #[trigger] state_ok(s2, u) by {
        assert(state_ok(s, u));
    }
    assert forall|t: Ty| in_arena(s, t) implies #[trigger] term(s2, t) == replaced(
        one(v, term(s, ty)),
        term(s, t),
    ) by {
        lemma_linked_term(s, v, ty, t);
    }
}

proof fn lemma_lifted_slice(s: Store, v: i32, ty: Ty, t: Ty, sl: ArenaSlice<Children>)
    requires
        store_ok(s),
        var_in(s, v),
        in_arena(s, ty),
        in_arena(s, t),
        slice_ok(s, sl, s.rank[t.0 as int]),
        occurs_any(v, terms(s, covered(s.kids, sl))) ==> occurs(v, term(s, t)),
    ensures
        slice_ok(linked(s, v, ty), sl, linked(s, v, ty).rank[t.0 as int]),
{
    let s2 = linked(s, v, ty);
    assert forall|i: int| sl.start <= i < sl.start + sl.len implies in_arena(
        s2,
        #[trigger] s2.kids[i],
    ) && s2.rank[s2.kids[i].0 as int] < s2.rank[t.0 as int] by {
        let k = s.kids[i];
        let ks = covered(s.kids, sl);
        assert(ks[i - sl.start] == k);
        assert(in_arena(s, k));
        if occurs(v, term(s, k)) {
            assert(terms(s, ks)[i - sl.start] == term(s, k));
            assert(occurs_any(v, terms(s, ks)));
        }
    }
}

proof fn lemma_linked_term(s: Store, v: i32, ty: Ty, t: Ty)
    requires
        store_ok(s),
        store_ok(linked(s, v, ty)),
        var_in(s, v),
        s.vars[v as int] is Unbound,
        in_arena(s, ty),
        !occurs(v, term(s, ty)),
        in_arena(s, t),
    ensures
        term(linked(s, v, ty), t) == replaced(one(v, term(s, ty)), term(s, t)),
    decreases linked(s, v, ty).rank[t.0 as int],
{
    let s2 = linked(s, v, ty);
    let f = one(v, term(s, ty));
    lemma_term(s, t);
    lemma_term(s2, t);
    match s.nodes[t.0 as int] {
        TypeNode::Var(u) => {
            if u == v {
                lemma_linked_term(s, v, ty, ty);
                assert forall|w: i32| #[trigger] occurs(w, term(s, ty)) implies f(w) == as_is()(
                    w,
                ) by {}
                lemma_replaced_same(f, as_is(), term(s, ty));
                lemma_replaced_as_is(term(s, ty));
            } else {
                match s.vars[u as int] {
                    TyVarState::Link { ty: ty2 } => {
                        lemma_linked_term(s, v, ty, ty2);
                    },
                    _ => {},
                }
            }
        },
        TypeNode::Bound(_) => {},
        TypeNode::Con { id, name, args } => {
            let ks = covered(s.kids, args);
            assert forall|i: int| 0 <= i < ks.len() implies terms(s2, ks)[i] == replaced_all(
                f,
                terms(s, ks),
            )[i] by {
                assert(ks[i] == s.kids[args.start + i]);
                lemma_linked_term(s, v, ty, ks[i]);
            }
            assert(terms(s2, ks) =~= replaced_all(f, terms(s, ks)));
        },
        TypeNode::Fun { params, ret } => {
            let ks = covered(s.kids, params);
            assert forall|i: int| 0 <= i < ks.len() implies terms(s2, ks)[i] == replaced_all(
                f,
                terms(s, ks),
            )[i] by {
                assert(ks[i] == s.kids[params.start + i]);
                lemma_linked_term(s, v, ty, ks[i]);
            }
            assert(terms(s2, ks) =~= replaced_all(f, terms(s, ks)));
            lemma_linked_term(s, v, ty, ret);
        },
        TypeNode::Tuple { elems } => {
            let ks = covered(s.kids, elems);
            assert forall|i: int| 0 <= i < ks.len() implies terms(s2, ks)[i] == replaced_all(
                f,
                terms(s, ks),
            )[i] by {
                assert(ks[i] == s.kids[elems.start + i]);
                lemma_linked_term(s, v, ty, ks[i]);
            }
            assert(terms(s2, ks) =~= replaced_all(f, terms(s, ks)));
        },
    }
}

/// The solutions of the store with `v` linked to `ty` are those that fit every
/// other variable and give `v` the shape of `ty`.
pub proof fn lemma_linked_solves(s: Store, v: i32, ty: Ty, m: spec_fn(i32) -> Shape)
    requires
        store_ok(s),
        var_in(s, v),
        s.vars[v as int] is Unbound,
        in_arena(s, ty),
        !occurs(v, term(s, ty)),
    ensures
        solves(linked(s, v, ty), m) <==> (m(v) == eval(m, term(s, ty)) && forall|u: i32|
            var_in(s, u) && u != v ==> #[trigger] var_fits(s, m, u)),
{
    let s2 = linked(s, v, ty);
    let f = one(v, term(s, ty));
    lemma_linked(s, v, ty);
    assert(term(s2, ty) == term(s, ty)) by {
        assert forall|w: i32| #[trigger] occurs(w, term(s, ty)) implies f(w) == as_is()(w) by {}
        lemma_replaced_same(f, as_is(), term(s, ty));
        lemma_replaced_as_is(term(s, ty));
    }
    assert(var_fits(s2, m, v) == (m(v) == eval(m, term(s, ty))));
    if m(v) == eval(m, term(s, ty)) {
        assert forall|u: i32| var_in(s, u) && u != v implies #[trigger] var_fits(s, m, u)
            == var_fits(s2, m, u) by {
            match s.vars[u as int] {
                TyVarState::Link { ty: ty2 } => {
                    assert(state_ok(s, u as int));
                    assert forall|w: i32| #[trigger] occurs(w, term(s, ty2)) implies eval(m, f(w))
                        == m(w) by {}
                    lemma_eval_replaced(m, f, term(s, ty2));
                },
                TyVarState::Unbound { level, constraint } => {
                    match constraint {
                        Some(c) => {
                            lemma_meets_frame(s, s2, c, m(u));
                        },
                        None => {},
                    }
                },
                _ => {},
            }
        }
        if solves(s2, m) {
            assert forall|u: i32| var_in(s, u) && u != v implies #[trigger] var_fits(s, m, u) by {
                assert(var_in(s2, u));
                assert(var_fits(s2, m, u));
            }
        }
        if forall|u: i32| var_in(s, u) && u != v ==> #[trigger] var_fits(s, m, u) {
            assert forall|u: i32| var_in(s2, u) implies #[trigger] var_fits(s2, m, u) by {
                if u != v {
                    assert(var_fits(s, m, u));
                }
            }
        }
    } else {
        if solves(s2, m) {
            assert(var_in(s2, v));
            assert(var_fits(s2, m, v));
        }
    }
}

/// Rigid variables as they were.
pub open spec fn same_rigid(a: Store, b: Store) -> bool {
    &&& a.prims == b.prims
    &&& a.vars.len() == b.vars.len()
    &&& forall|v: int|
        #![trigger a.vars[v]]
        #![trigger b.vars[v]]
        0 <= v < a.vars.len() ==> (a.vars[v] is Generic <==> b.vars[v] is Generic) && (
        a.vars[v] is Generic ==> b.vars[v] == a.vars[v])
}

pub proof fn lemma_meets_frame(a: Store, b: Store, c: Constraint, t: Shape)
    requires
        same_rigid(a, b),
    ensures
        meets(a, c, t) == meets(b, c, t),
{
    match t {
        Shape::Var(g) => {
            if var_in(a, g) {
                assert(a.vars[g as int] is Generic <==> b.vars[g as int] is Generic);
            }
        },
        _ => {},
    }
}

/// Shortening links changes no solution.
pub proof fn lemma_compressed_solves(a: Store, b: Store, m: spec_fn(i32) -> Shape)
    requires
        store_ok(a),
        store_ok(b),
        compressed(a, b),
    ensures
        solves(a, m) <==> solves(b, m),
{
    assert forall|v: i32| var_in(a, v) implies #[trigger] var_fits(a, m, v) == var_fits(
        b,
        m,
        v,
    ) by {
        assert(same_link(a, b, v as int));
        match a.vars[v as int] {
            TyVarState::Link { ty } => {
                match b.vars[v as int] {
                    TyVarState::Link { ty: ty2 } => {
                        lemma_same_links_term(a, b, ty2);
                    },
                    _ => {},
                }
            },
            TyVarState::Unbound { level, constraint } => {
                assert(b.vars[v as int] == a.vars[v as int]);
                match constraint {
                    Some(c) => {
                        assert(same_rigid(a, b)) by {
                            assert forall|u: int|
                                #![trigger a.vars[u]]
                                #![trigger b.vars[u]]
                                0 <= u < a.vars.len() implies (a.vars[u] is Generic
                                <==> b.vars[u] is Generic) && (a.vars[u] is Generic ==> b.vars[u]
                                == a.vars[u]) by {
                                assert(same_link(a, b, u));
                            }
                        }
                        lemma_meets_frame(a, b, c, m(v));
                    },
                    None => {},
                }
            },
            _ => {
                assert(b.vars[v as int] == a.vars[v as int]);
            },
        }
    }
    assert forall|v: i32| var_in(a, v) implies #[trigger] var_fits(b, m, v) == var_fits(
        a,
        m,
        v,
    ) by {
        assert(var_fits(a, m, v) == var_fits(b, m, v));
    }
    if solves(a, m) {
        assert forall|v: i32| var_in(b, v) implies #[trigger] var_fits(b, m, v) by {
            assert(var_in(a, v));
            assert(var_fits(a, m, v));
        }
    }
    if solves(b, m) {
        assert forall|v: i32| var_in(a, v) implies #[trigger] var_fits(a, m, v) by {
            assert(var_in(b, v));
            assert(var_fits(b, m, v));
        }
    }
}

pub proof fn lemma_unbound_update(vars: Seq<TyVarState>, i: int, x: TyVarState)
    requires
        0 <= i < vars.len(),
    ensures
        unbound(vars.update(i, x)) == unbound(vars) - (if is_unbound(vars[i]) {
            1int
        } else {
            0
        }) + (if is_unbound(x) {
            1int
        } else {
            0
        }),
    decreases vars.len(),
{
    let n = vars.len() - 1;
    if i == n {
        assert(vars.update(i, x).drop_last() =~= vars.drop_last());
    } else {
        assert(vars.update(i, x).drop_last() =~= vars.drop_last().update(i, x));
        lemma_unbound_update(vars.drop_last(), i, x);
    }
}

/// What each variable stands for.
pub open spec fn var_terms(s: Store) -> spec_fn(i32) -> Term {
    |v: i32|
        if var_in(s, v) {
            var_term(s, v)
        } else {
            Term::Var(v)
        }
}

/// `b` knows all that `a` knows, and perhaps more: every type of `a` is, in
/// `b`, that type with variables solved further.
pub open spec fn refines(a: Store, b: Store) -> bool {
    &&& b.nodes == a.nodes
    &&& b.live == a.live
    &&& b.kids == a.kids
    &&& same_rigid(a, b)
    &&& forall|v: int| 0 <= v < a.vars.len() && #[trigger] b.vars[v] is Unbound ==> a.vars[v] is Unbound
    &&& forall|t: Ty|
        in_arena(a, t) ==> #[trigger] term(b, t) == replaced(var_terms(b), term(a, t))
    &&& forall|v: i32|
        var_in(a, v) ==> #[trigger] var_term(b, v) == replaced(var_terms(b), var_term(a, v))
}

pub open spec fn level_of(s: TyVarState) -> int {
    match s {
        TyVarState::Unbound { level, constraint } => level as int,
        _ => 0,
    }
}

/// `u` was not solved in `a` and mentions `v` in `b`.
pub open spec fn leads(a: Store, b: Store, u: i32, v: i32) -> bool {
    var_in(a, u) && a.vars[u as int] is Unbound && occurs(v, var_term(b, u))
}

/// A variable's level in `b` is the lowest level in `a` of the variables that
/// now mention it.
pub open spec fn levels_follow(a: Store, b: Store) -> bool {
    forall|v: i32|
        var_in(b, v) && b.vars[v as int] is Unbound ==> #[trigger] level_follows(a, b, v)
}

pub open spec fn level_follows(a: Store, b: Store, v: i32) -> bool {
    &&& forall|u: i32|
        #[trigger] leads(a, b, u, v) ==> level_of(b.vars[v as int]) <= level_of(a.vars[u as int])
    &&& exists|u: i32| #[trigger]
        leads(a, b, u, v) && level_of(b.vars[v as int]) == level_of(a.vars[u as int])
}

/// What any part of a unification does to the store.
pub open spec fn step(a: Store, b: Store) -> bool {
    &&& store_ok(b)
    &&& refines(a, b)
    &&& levels_follow(a, b)
    &&& forall|m: spec_fn(i32) -> Shape| solves(b, m) ==> #[trigger] solves(a, m)
    &&& unbound(b.vars) <= unbound(a.vars)
    &&& unbound(b.vars) == unbound(a.vars) ==> b.rank == a.rank
}

proof fn lemma_var_term_vars(s: Store, u: i32, v: i32)
    requires
        store_ok(s),
        var_in(s, u),
        occurs(v, var_term(s, u)),
    ensures
        var_in(s, v),
        !(s.vars[v as int] is Link),
{
    assert(state_ok(s, u as int));
    match s.vars[u as int] {
        TyVarState::Link { ty } => {
            lemma_term_vars(s, ty, v);
        },
        _ => {},
    }
}

pub proof fn lemma_step_trans(a: Store, b: Store, c: Store)
    requires
        store_ok(a),
        step(a, b),
        step(b, c),
    ensures
        step(a, c),
{
    assert forall|t: Ty| in_arena(a, t) implies #[trigger] term(c, t) == replaced(
        var_terms(c),
        term(a, t),
    ) by {
        assert(in_arena(b, t));
        lemma_replaced_twice(var_terms(b), var_terms(c), term(a, t));
        let h = |v: i32| replaced(var_terms(c), var_terms(b)(v));
        assert forall|v: i32| #[trigger] occurs(v, term(a, t)) implies h(v) == var_terms(c)(v) by {
            lemma_term_vars(a, t, v);
            assert(var_term(c, v) == replaced(var_terms(c), var_term(b, v)));
        }
        lemma_replaced_same(h, var_terms(c), term(a, t));
    }
    assert forall|u: i32| var_in(a, u) implies #[trigger] var_term(c, u) == replaced(
        var_terms(c),
        var_term(a, u),
    ) by {
        assert(var_term(c, u) == replaced(var_terms(c), var_term(b, u)));
        assert(var_term(b, u) == replaced(var_terms(b), var_term(a, u)));
        lemma_replaced_twice(var_terms(b), var_terms(c), var_term(a, u));
        let h = |v: i32| replaced(var_terms(c), var_terms(b)(v));
        assert forall|v: i32| #[trigger] occurs(v, var_term(a, u)) implies h(v) == var_terms(c)(
            v,
        ) by {
            lemma_var_term_vars(a, u, v);
            assert(var_term(c, v) == replaced(var_terms(c), var_term(b, v)));
        }
        lemma_replaced_same(h, var_terms(c), var_term(a, u));
    }
    assert(same_rigid(a, c)) by {
        assert forall|v: int|
            #![trigger a.vars[v]]
            #![trigger c.vars[v]]
            0 <= v < a.vars.len() implies (a.vars[v] is Generic <==> c.vars[v] is Generic) && (
        a.vars[v] is Generic ==> c.vars[v] == a.vars[v]) by {
            assert(b.vars[v] is Generic <==> c.vars[v] is Generic);
        }
    }
    assert forall|v: int| 0 <= v < a.vars.len() && #[trigger] c.vars[v] is Unbound implies a.vars[v] is Unbound by {
        assert(b.vars[v] is Unbound);
    }
    assert forall|m: spec_fn(i32) -> Shape| solves(c, m) implies #[trigger] solves(a, m) by {
        assert(solves(b, m));
    }
    assert forall|v: i32| var_in(c, v) && c.vars[v as int] is Unbound implies #[trigger] level_follows(
        a,
        c,
        v,
    ) by {
        lemma_levels_trans(a, b, c, v);
    }
}

proof fn lemma_levels_trans(a: Store, b: Store, c: Store, v: i32)
    requires
        store_ok(a),
        step(a, b),
        step(b, c),
        var_in(c, v),
        c.vars[v as int] is Unbound,
    ensures
        level_follows(a, c, v),
{
    assert(level_follows(b, c, v));
    assert forall|u: i32| #[trigger] leads(a, c, u, v) implies level_of(c.vars[v as int])
        <= level_of(a.vars[u as int]) by {
        assert(var_term(c, u) == replaced(var_terms(c), var_term(b, u)));
        lemma_replaced_occurs(var_terms(c), var_term(b, u), v);
        let w = choose|w: i32| #[trigger]
            occurs(w, var_term(b, u)) && occurs(v, var_terms(c)(w));
        lemma_var_term_vars(b, u, w);
        if b.vars[w as int] is Generic {
            assert(c.vars[w as int] is Generic);
            assert(false);
        }
        assert(leads(b, c, w, v));
        assert(level_follows(a, b, w));
        assert(leads(a, b, u, w));
    }
    let w = choose|w: i32| #[trigger]
        leads(b, c, w, v) && level_of(c.vars[v as int]) == level_of(b.vars[w as int]);
    assert(level_follows(a, b, w));
    let u = choose|u: i32| #[trigger]
        leads(a, b, u, w) && level_of(b.vars[w as int]) == level_of(a.vars[u as int]);
    assert(var_term(c, u) == replaced(var_terms(c), var_term(b, u)));
    lemma_replaced_occurs(var_terms(c), var_term(b, u), v);
    assert(occurs(w, var_term(b, u)) && occurs(v, var_terms(c)(w)));
    assert(leads(a, c, u, v));
}

/// Shortening links is a step that changes nothing.
pub proof fn lemma_compressed_step(a: Store, b: Store)
    requires
        store_ok(a),
        store_ok(b),
        compressed(a, b),
    ensures
        step(a, b),
        unbound(b.vars) == unbound(a.vars),
        forall|t: Ty| in_arena(a, t) ==> #[trigger] term(b, t) == term(a, t) && root(b, t) == root(a, t),
        forall|v: i32| var_in(a, v) ==> #[trigger] var_term(b, v) == var_term(a, v),
        forall|m: spec_fn(i32) -> Shape| #![auto] solves(b, m) <==> solves(a, m),
{
    assert forall|t: Ty| in_arena(a, t) implies #[trigger] term(b, t) == term(a, t) && root(b, t)
        == root(a, t) by {
        lemma_same_links_term(a, b, t);
    }
    assert forall|v: i32| var_in(a, v) implies #[trigger] var_term(b, v) == var_term(a, v) by {
        assert(same_link(a, b, v as int));
        assert(state_ok(a, v as int));
        match b.vars[v as int] {
            TyVarState::Link { ty } => {
                lemma_same_links_term(a, b, ty);
            },
            _ => {},
        }
    }
    assert forall|m: spec_fn(i32) -> Shape| #![auto] solves(b, m) <==> solves(a, m) by {
        lemma_compressed_solves(a, b, m);
    }
    lemma_unchanged_terms_refine(a, b);
    lemma_same_unbound(a.vars, b.vars);
    assert forall|v: i32| var_in(b, v) && b.vars[v as int] is Unbound implies #[trigger] level_follows(
        a,
        b,
        v,
    ) by {
        assert(same_link(a, b, v as int));
        assert(b.vars[v as int] == a.vars[v as int]);
        assert(leads(a, b, v, v));
        assert forall|u: i32| #[trigger] leads(a, b, u, v) implies level_of(b.vars[v as int])
            <= level_of(a.vars[u as int]) by {
            assert(var_term(b, u) == var_term(a, u));
            assert(same_link(a, b, u as int));
        }
    }
}

/// A store whose types all read the same refines.
proof fn lemma_unchanged_terms_refine(a: Store, b: Store)
    requires
        store_ok(a),
        store_ok(b),
        same_links(a, b),
        forall|v: int|
            0 <= v < a.vars.len() && a.vars[v] is Generic ==> #[trigger] b.vars[v] == a.vars[v],
        forall|v: int|
            0 <= v < a.vars.len() && a.vars[v] is Unbound ==> #[trigger] b.vars[v] is Unbound,
        forall|t: Ty| in_arena(a, t) ==> #[trigger] term(b, t) == term(a, t),
        forall|v: i32| var_in(a, v) ==> #[trigger] var_term(b, v) == var_term(a, v),
    ensures
        refines(a, b),
{
    assert(same_rigid(a, b)) by {
        assert forall|u: int|
            #![trigger a.vars[u]]
            #![trigger b.vars[u]]
            0 <= u < a.vars.len() implies (a.vars[u] is Generic <==> b.vars[u] is Generic) && (
        a.vars[u] is Generic ==> b.vars[u] == a.vars[u]) by {
            assert(same_link(a, b, u));
        }
    }
    assert forall|v: int| 0 <= v < a.vars.len() && #[trigger] b.vars[v] is Unbound implies a.vars[v] is Unbound by {
        assert(same_link(a, b, v));
    }
    assert forall|t: Ty| in_arena(a, t) implies #[trigger] term(b, t) == replaced(
        var_terms(b),
        term(a, t),
    ) by {
        assert forall|v: i32| #[trigger] occurs(v, term(a, t)) implies var_terms(b)(v) == as_is()(
            v,
        ) by {
            lemma_term_vars(a, t, v);
            assert(var_term(b, v) == var_term(a, v));
        }
        lemma_replaced_same(var_terms(b), as_is(), term(a, t));
        lemma_replaced_as_is(term(a, t));
    }
    assert forall|u: i32| var_in(a, u) implies #[trigger] var_term(b, u) == replaced(
        var_terms(b),
        var_term(a, u),
    ) by {
        assert forall|v: i32| #[trigger] occurs(v, var_term(a, u)) implies var_terms(b)(v)
            == as_is()(v) by {
            lemma_var_term_vars(a, u, v);
            assert(var_term(b, v) == var_term(a, v));
        }
        lemma_replaced_same(var_terms(b), as_is(), var_term(a, u));
        lemma_replaced_as_is(var_term(a, u));
    }
}

proof fn lemma_same_unbound(a: Seq<TyVarState>, b: Seq<TyVarState>)
    requires
        a.len() == b.len(),
        forall|v: int| 0 <= v < a.len() ==> (#[trigger] a[v] is Unbound <==> b[v] is Unbound),
    ensures
        unbound(a) == unbound(b),
    decreases a.len(),
{
    if a.len() > 0 {
        assert(a.last() is Unbound <==> b.last() is Unbound);
        assert forall|v: int| 0 <= v < a.drop_last().len() implies (#[trigger] a.drop_last()[v] is Unbound
            <==> b.drop_last()[v] is Unbound) by {
            assert(a[v] is Unbound <==> b[v] is Unbound);
        }
        lemma_same_unbound(a.drop_last(), b.drop_last());
    }
}

/// `b` is `a` with links shortened and the levels of the variables in `t`
/// brought down to `lvl`; constraints are free to differ.
pub open spec fn lowered(a: Store, b: Store, lvl: int, t: Term) -> bool {
    &&& same_links(a, b)
    &&& forall|v: int| 0 <= v < a.vars.len() ==> #[trigger] lowered_at(a, b, lvl, t, v)
}

pub open spec fn lowered_at(a: Store, b: Store, lvl: int, t: Term, v: int) -> bool {
    match a.vars[v] {
        TyVarState::Unbound { level, constraint } => b.vars[v] is Unbound && level_of(b.vars[v])
            == (if occurs(v as i32, t) && level > lvl {
            lvl
        } else {
            level as int
        }),
        TyVarState::Generic { id, constraint } => b.vars[v] == a.vars[v],
        _ => true,
    }
}

/// Lowering the levels in a type and then linking a variable to it.
pub proof fn lemma_link_step(a: Store, b: Store, v: i32, ty: Ty)
    requires
        store_ok(a),
        store_ok(b),
        var_in(a, v),
        a.vars[v as int] is Unbound,
        in_arena(a, ty),
        !occurs(v, term(a, ty)),
        lowered(a, b, level_of(a.vars[v as int]), term(a, ty)),
        forall|m: spec_fn(i32) -> Shape|
            solves(linked(b, v, ty), m) ==> #[trigger] solves(a, m),
    ensures
        step(a, linked(b, v, ty)),
        unbound(linked(b, v, ty).vars) < unbound(a.vars),
        forall|t: Ty|
            in_arena(a, t) ==> #[trigger] term(linked(b, v, ty), t) == replaced(
                one(v, term(a, ty)),
                term(a, t),
            ),
{
    let c = linked(b, v, ty);
    assert forall|t: Ty| in_arena(a, t) implies #[trigger] term(b, t) == term(a, t) by {
        lemma_same_links_term(a, b, t);
    }
    assert(lowered_at(a, b, level_of(a.vars[v as int]), term(a, ty), v as int));
    lemma_linked(b, v, ty);
    let f = one(v, term(a, ty));
    assert(same_rigid(a, c)) by {
        assert forall|u: int|
            #![trigger a.vars[u]]
            #![trigger c.vars[u]]
            0 <= u < a.vars.len() implies (a.vars[u] is Generic <==> c.vars[u] is Generic) && (
        a.vars[u] is Generic ==> c.vars[u] == a.vars[u]) by {
            assert(same_link(a, b, u));
            assert(lowered_at(a, b, level_of(a.vars[v as int]), term(a, ty), u));
        }
    }
    assert forall|u: int| 0 <= u < a.vars.len() && #[trigger] c.vars[u] is Unbound implies a.vars[u] is Unbound by {
        assert(same_link(a, b, u));
        assert(lowered_at(a, b, level_of(a.vars[v as int]), term(a, ty), u));
    }
    // The new variables' terms are the old ones with `v` replaced.
    assert forall|u: i32| var_in(a, u) implies #[trigger] var_term(c, u) == replaced(
        f,
        var_term(a, u),
    ) by {
        assert(same_link(a, b, u as int));
        assert(state_ok(a, u as int));
        assert(state_ok(b, u as int));
        if u == v {
            assert(term(c, ty) == term(a, ty)) by {
                assert forall|w: i32| #[trigger] occurs(w, term(a, ty)) implies f(w) == as_is()(
                    w,
                ) by {}
                lemma_replaced_same(f, as_is(), term(a, ty));
                lemma_replaced_as_is(term(a, ty));
            }
        } else {
            match b.vars[u as int] {
                TyVarState::Link { ty: ty2 } => {
                    assert(term(b, ty2) == term(a, ty2));
                },
                _ => {},
            }
        }
    }
    assert forall|t: Ty| in_arena(a, t) implies #[trigger] term(c, t) == replaced(
        var_terms(c),
        term(a, t),
    ) by {
        assert forall|w: i32| #[trigger] occurs(w, term(a, t)) implies f(w) == var_terms(c)(w) by {
            lemma_term_vars(a, t, w);
            assert(var_term(c, w) == replaced(f, var_term(a, w)));
        }
        lemma_replaced_same(f, var_terms(c), term(a, t));
    }
    assert forall|u: i32| var_in(a, u) implies #[trigger] var_term(c, u) == replaced(
        var_terms(c),
        var_term(a, u),
    ) by {
        assert(var_term(c, u) == replaced(f, var_term(a, u)));
        assert forall|w: i32| #[trigger] occurs(w, var_term(a, u)) implies f(w) == var_terms(c)(
            w,
        ) by {
            lemma_var_term_vars(a, u, w);
            assert(var_term(c, w) == replaced(f, var_term(a, w)));
        }
        lemma_replaced_same(f, var_terms(c), var_term(a, u));
    }
    assert forall|w: i32| var_in(c, w) && c.vars[w as int] is Unbound implies #[trigger] level_follows(
        a,
        c,
        w,
    ) by {
        lemma_link_levels(a, b, v, ty, w);
    }
    assert forall|u: int| 0 <= u < a.vars.len() implies (#[trigger] a.vars[u] is Unbound
        <==> b.vars[u] is Unbound) by {
        assert(same_link(a, b, u));
        assert(lowered_at(a, b, level_of(a.vars[v as int]), term(a, ty), u));
    }
    lemma_same_unbound(a.vars, b.vars);
    lemma_unbound_update(b.vars, v as int, TyVarState::Link { ty });
}

proof fn lemma_link_levels(a: Store, b: Store, v: i32, ty: Ty, w: i32)
    requires
        store_ok(a),
        store_ok(b),
        var_in(a, v),
        a.vars[v as int] is Unbound,
        in_arena(a, ty),
        !occurs(v, term(a, ty)),
        lowered(a, b, level_of(a.vars[v as int]), term(a, ty)),
        var_in(a, w),
        linked(b, v, ty).vars[w as int] is Unbound,
        forall|u: i32|
            var_in(a, u) ==> #[trigger] var_term(linked(b, v, ty), u) == replaced(
                one(v, term(a, ty)),
                var_term(a, u),
            ),
    ensures
        level_follows(a, linked(b, v, ty), w),
{
    let c = linked(b, v, ty);
    let lvl = level_of(a.vars[v as int]);
    assert(w != v);
    assert(same_link(a, b, w as int));
    assert(lowered_at(a, b, lvl, term(a, ty), w as int));
    assert(var_term(c, w) == Term::Var(w));
    assert(var_term(c, v) == term(a, ty)) by {
        assert(var_term(a, v) == Term::Var(v));
        assert(one(v, term(a, ty))(v) == term(a, ty));
    }
    assert forall|u: i32| #[trigger] leads(a, c, u, w) implies level_of(c.vars[w as int])
        <= level_of(a.vars[u as int]) by {
        assert(var_term(c, u) == replaced(one(v, term(a, ty)), var_term(a, u)));
        if u != v {
            assert(var_term(a, u) == Term::Var(u));
            assert(u == w);
        }
    }
    if occurs(w, term(a, ty)) && level_of(a.vars[w as int]) > lvl {
        assert(leads(a, c, v, w));
    } else {
        assert(leads(a, c, w, w));
    }
}

/// Two terms are the same type: display names aside, they are equal.
pub open spec fn same_type(t: Term, u: Term) -> bool {
    shape(t) == shape(u)
}

pub open spec fn shape(t: Term) -> Shape {
    eval(|v: i32| Shape::Var(v), t)
}

/// The same type has the same shape under every assignment.
pub proof fn lemma_same_type_eval(m: spec_fn(i32) -> Shape, t: Term, u: Term)
    requires
        same_type(t, u),
    ensures
        eval(m, t) == eval(m, u),
    decreases t,
{
    let id = |v: i32| Shape::Var(v);
    match (t, u) {
        (Term::Con { id: i1, name: n1, args: a1 }, Term::Con { id: i2, name: n2, args: a2 }) => {
            lemma_same_types_eval(m, a1, a2, t);
        },
        (Term::Fun { params: p1, ret: r1 }, Term::Fun { params: p2, ret: r2 }) => {
            lemma_same_types_eval(m, p1, p2, t);
            lemma_same_type_eval(m, *r1, *r2);
        },
        (Term::Tuple { elems: e1 }, Term::Tuple { elems: e2 }) => {
            lemma_same_types_eval(m, e1, e2, t);
        },
        _ => {},
    }
}

proof fn lemma_same_types_eval(m: spec_fn(i32) -> Shape, ts: Seq<Term>, us: Seq<Term>, whole: Term)
    requires
        eval_all(|v: i32| Shape::Var(v), ts) == eval_all(|v: i32| Shape::Var(v), us),
        forall|i: int| 0 <= i < ts.len() ==> decreases_to!(whole => #[trigger] ts[i]),
    ensures
        eval_all(m, ts) == eval_all(m, us),
    decreases whole, 0nat,
{
    let id = |v: i32| Shape::Var(v);
    assert(eval_all(id, ts).len() == eval_all(id, us).len());
    assert forall|i: int| 0 <= i < ts.len() implies eval_all(m, ts)[i] == eval_all(m, us)[i] by {
        assert(eval_all(id, ts)[i] == eval_all(id, us)[i]);
        lemma_same_type_eval(m, ts[i], us[i]);
    }
    assert(eval_all(m, ts) =~= eval_all(m, us));
}

/// Evaluating after replacing is evaluating with each variable's replacement
/// evaluated.
pub proof fn lemma_eval_of_replaced(m: spec_fn(i32) -> Shape, f: spec_fn(i32) -> Term, t: Term)
    ensures
        eval(m, replaced(f, t)) == eval(|v: i32| eval(m, f(v)), t),
    decreases t,
{
    let h = |v: i32| eval(m, f(v));
    match t {
        Term::Con { id, name, args } => {
            assert forall|i: int| 0 <= i < args.len() implies eval_all(m, replaced_all(f, args))[i]
                == eval_all(h, args)[i] by {
                lemma_eval_of_replaced(m, f, args[i]);
            }
            assert(eval_all(m, replaced_all(f, args)) =~= eval_all(h, args));
        },
        Term::Fun { params, ret } => {
            assert forall|i: int| 0 <= i < params.len() implies eval_all(
                m,
                replaced_all(f, params),
            )[i] == eval_all(h, params)[i] by {
                lemma_eval_of_replaced(m, f, params[i]);
            }
            assert(eval_all(m, replaced_all(f, params)) =~= eval_all(h, params));
            lemma_eval_of_replaced(m, f, *ret);
        },
        Term::Tuple { elems } => {
            assert forall|i: int| 0 <= i < elems.len() implies eval_all(
                m,
                replaced_all(f, elems),
            )[i] == eval_all(h, elems)[i] by {
                lemma_eval_of_replaced(m, f, elems[i]);
            }
            assert(eval_all(m, replaced_all(f, elems)) =~= eval_all(h, elems));
        },
        _ => {},
    }
}

/// What is one type stays one type as variables are solved.
pub proof fn lemma_same_type_refines(a: Store, b: Store, t: Ty, u: Ty)
    requires
        refines(a, b),
        in_arena(a, t),
        in_arena(a, u),
        same_type(term(a, t), term(a, u)),
    ensures
        same_type(term(b, t), term(b, u)),
{
    let id = |v: i32| Shape::Var(v);
    let f = var_terms(b);
    assert(term(b, t) == replaced(f, term(a, t)));
    assert(term(b, u) == replaced(f, term(a, u)));
    lemma_eval_of_replaced(id, f, term(a, t));
    lemma_eval_of_replaced(id, f, term(a, u));
    lemma_same_type_eval(|v: i32| eval(id, f(v)), term(a, t), term(a, u));
}

/// `b` is `a` with nodes, children and variables added at the ends, and links
/// perhaps shortened: every type of `a` reads in `b` as it did.
pub open spec fn grows(a: Store, b: Store) -> bool {
    &&& store_ok(a)
    &&& store_ok(b)
    &&& a.nodes.is_prefix_of(b.nodes)
    &&& a.kids.is_prefix_of(b.kids)
    &&& a.live.is_prefix_of(b.live)
    &&& a.rank.is_prefix_of(b.rank)
    &&& a.vars.len() <= b.vars.len()
    &&& a.prims == b.prims
    &&& forall|v: int|
        0 <= v < a.vars.len() ==> (#[trigger] a.vars[v] is Link <==> b.vars[v] is Link) && (!(
        a.vars[v] is Link) ==> b.vars[v] == a.vars[v])
    &&& forall|t: Ty|
        in_arena(a, t) ==> #[trigger] term(b, t) == term(a, t) && root(b, t) == root(a, t)
    &&& forall|v: i32| var_in(a, v) ==> #[trigger] var_term(b, v) == var_term(a, v)
}

pub proof fn lemma_grows_trans(a: Store, b: Store, c: Store)
    requires
        grows(a, b),
        grows(b, c),
    ensures
        grows(a, c),
{
    assert forall|v: int| 0 <= v < a.vars.len() implies (#[trigger] a.vars[v] is Link
        <==> c.vars[v] is Link) && (!(a.vars[v] is Link) ==> c.vars[v] == a.vars[v]) by {
        assert(b.vars[v] is Link <==> c.vars[v] is Link);
    }
    assert forall|t: Ty| in_arena(a, t) implies #[trigger] term(c, t) == term(a, t) && root(c, t)
        == root(a, t) by {
        assert(in_arena(b, t));
        assert(term(b, t) == term(a, t));
    }
    assert forall|v: i32| var_in(a, v) implies #[trigger] var_term(c, v) == var_term(a, v) by {
        assert(var_in(b, v));
        assert(var_term(b, v) == var_term(a, v));
    }
    assert(a.nodes.is_prefix_of(c.nodes));
    assert(a.kids.is_prefix_of(c.kids));
    assert(a.rank.is_prefix_of(c.rank));
    assert(a.live.is_prefix_of(c.live));
}

pub proof fn lemma_compressed_grows(a: Store, b: Store)
    requires
        store_ok(a),
        store_ok(b),
        compressed(a, b),
    ensures
        grows(a, b),
{
    lemma_compressed_step(a, b);
    assert forall|v: int| 0 <= v < a.vars.len() implies (#[trigger] a.vars[v] is Link
        <==> b.vars[v] is Link) && (!(a.vars[v] is Link) ==> b.vars[v] == a.vars[v]) by {
        assert(same_link(a, b, v));
    }
}

/// `b` adds to `a` at the ends and changes nothing else.
pub open spec fn appended(a: Store, b: Store) -> bool {
    &&& a.nodes.is_prefix_of(b.nodes)
    &&& a.kids.is_prefix_of(b.kids)
    &&& a.live.is_prefix_of(b.live)
    &&& a.rank.is_prefix_of(b.rank)
    &&& a.vars.is_prefix_of(b.vars)
    &&& a.prims == b.prims
}

proof fn lemma_appended_term(a: Store, b: Store, t: Ty)
    requires
        store_ok(a),
        store_ok(b),
        appended(a, b),
        in_arena(a, t),
    ensures
        term(b, t) == term(a, t),
        root(b, t) == root(a, t),
    decreases a.rank[t.0 as int],
{
    lemma_term(a, t);
    lemma_term(b, t);
    assert(b.nodes[t.0 as int] == a.nodes[t.0 as int]);
    match a.nodes[t.0 as int] {
        TypeNode::Var(v) => {
            assert(b.vars[v as int] == a.vars[v as int]);
            match a.vars[v as int] {
                TyVarState::Link { ty } => {
                    lemma_appended_term(a, b, ty);
                },
                _ => {},
            }
        },
        TypeNode::Bound(_) => {},
        TypeNode::Con { id, name, args } => {
            lemma_appended_terms(a, b, args, t);
        },
        TypeNode::Fun { params, ret } => {
            lemma_appended_terms(a, b, params, t);
            lemma_appended_term(a, b, ret);
        },
        TypeNode::Tuple { elems } => {
            lemma_appended_terms(a, b, elems, t);
        },
    }
}

proof fn lemma_appended_terms(a: Store, b: Store, sl: ArenaSlice<Children>, whole: Ty)
    requires
        store_ok(a),
        store_ok(b),
        appended(a, b),
        in_arena(a, whole),
        slice_ok(a, sl, a.rank[whole.0 as int]),
    ensures
        covered(b.kids, sl) == covered(a.kids, sl),
        terms(b, covered(b.kids, sl)) == terms(a, covered(a.kids, sl)),
    decreases a.rank[whole.0 as int], 0nat,
{
    let ka = covered(a.kids, sl);
    let kb = covered(b.kids, sl);
    assert forall|i: int| 0 <= i < sl.len implies ka[i] == kb[i] by {
        assert(a.kids[sl.start + i] == b.kids[sl.start + i]);
    }
    assert(ka =~= kb);
    assert forall|i: int| 0 <= i < sl.len implies terms(b, kb)[i] == terms(a, ka)[i] by {
        assert(ka[i] == a.kids[sl.start + i]);
        lemma_appended_term(a, b, ka[i]);
    }
    assert(terms(b, kb) =~= terms(a, ka));
}

pub proof fn lemma_appended_grows(a: Store, b: Store)
    requires
        store_ok(a),
        store_ok(b),
        appended(a, b),
    ensures
        grows(a, b),
{
    assert forall|v: int| 0 <= v < a.vars.len() implies (#[trigger] a.vars[v] is Link
        <==> b.vars[v] is Link) && (!(a.vars[v] is Link) ==> b.vars[v] == a.vars[v]) by {
        assert(b.vars[v] == a.vars[v]);
    }
    assert forall|t: Ty| in_arena(a, t) implies #[trigger] term(b, t) == term(a, t) && root(b, t)
        == root(a, t) by {
        lemma_appended_term(a, b, t);
    }
    assert forall|v: i32| var_in(a, v) implies #[trigger] var_term(b, v) == var_term(a, v) by {
        assert(b.vars[v as int] == a.vars[v as int]);
        assert(state_ok(a, v as int));
        match a.vars[v as int] {
            TyVarState::Link { ty } => {
                lemma_appended_term(a, b, ty);
            },
            _ => {},
        }
    }
}

/// Everything a node refers to is there.
pub open spec fn node_fits(s: Store, n: TypeNode) -> bool {
    match n {
        TypeNode::Var(v) => var_in(s, v),
        TypeNode::Bound(_) => true,
        TypeNode::Con { id, name, args } => slice_fits(s, args),
        TypeNode::Fun { params, ret } => slice_fits(s, params) && in_arena(s, ret),
        TypeNode::Tuple { elems } => slice_fits(s, elems),
    }
}

pub open spec fn slice_fits(s: Store, sl: ArenaSlice<Children>) -> bool {
    &&& sl.start + sl.len <= s.kids.len()
    &&& forall|i: int| sl.start <= i < sl.start + sl.len ==> in_arena(s, #[trigger] s.kids[i])
}

/// A rank above all others.
pub open spec fn above(rank: Seq<nat>) -> nat
    decreases rank.len(),
{
    if rank.len() == 0 {
        0
    } else {
        let r = above(rank.drop_last());
        if rank.last() + 1 > r {
            rank.last() + 1
        } else {
            r
        }
    }
}

pub proof fn lemma_above(rank: Seq<nat>, i: int)
    requires
        0 <= i < rank.len(),
    ensures
        rank[i] < above(rank),
    decreases rank.len(),
{
    if i < rank.len() - 1 {
        assert(rank.drop_last()[i] == rank[i]);
        lemma_above(rank.drop_last(), i);
    }
}

pub open spec fn with_node(s: Store, n: TypeNode) -> Store {
    Store {
        nodes: s.nodes.push(n),
        live: s.live.push(true),
        rank: s.rank.push(above(s.rank)),
        ..s
    }
}

/// A node whose parts are there can be added.
pub proof fn lemma_with_node(s: Store, n: TypeNode)
    requires
        store_ok(s),
        node_fits(s, n),
        s.nodes.len() + 1 < 0xFFFF_FFFF,
    ensures
        store_ok(with_node(s, n)),
        grows(s, with_node(s, n)),
        term(with_node(s, n), Ty(s.nodes.len() as u32)) == node_term(s, n),
{
    let b = with_node(s, n);
    let at = s.nodes.len() as int;
    assert forall|t: int| live(b, t) implies #[trigger] node_ok(b, t) by {
        if t < at {
            assert(node_ok(s, t));
            match s.nodes[t] {
                TypeNode::Con { id, name, args } => {
                    lemma_slice_pushed(s, n, args, t);
                },
                TypeNode::Fun { params, ret } => {
                    lemma_slice_pushed(s, n, params, t);
                },
                TypeNode::Tuple { elems } => {
                    lemma_slice_pushed(s, n, elems, t);
                },
                _ => {},
            }
        } else {
            match n {
                TypeNode::Var(v) => {
                    assert(state_ok(s, v as int));
                    match s.vars[v as int] {
                        TyVarState::Link { ty } => {
                            lemma_above(s.rank, ty.0 as int);
                        },
                        _ => {},
                    }
                },
                TypeNode::Bound(_) => {},
                TypeNode::Con { id, name, args } => {
                    lemma_slice_above(s, n, args);
                },
                TypeNode::Fun { params, ret } => {
                    lemma_slice_above(s, n, params);
                    lemma_above(s.rank, ret.0 as int);
                },
                TypeNode::Tuple { elems } => {
                    lemma_slice_above(s, n, elems);
                },
            }
        }
    }
    assert forall|v: int| 0 <= v < b.vars.len() implies #[trigger] state_ok(b, v) by {
        assert(state_ok(s, v));
    }
    lemma_appended_grows(s, b);
    lemma_term(b, Ty(at as u32));
    match n {
        TypeNode::Var(v) => {
            assert(var_term(b, v) == var_term(s, v));
        },
        TypeNode::Bound(_) => {},
        TypeNode::Con { id, name, args } => {
            lemma_kid_terms_grow(s, b, args);
        },
        TypeNode::Fun { params, ret } => {
            lemma_kid_terms_grow(s, b, params);
            assert(term(b, ret) == term(s, ret));
        },
        TypeNode::Tuple { elems } => {
            lemma_kid_terms_grow(s, b, elems);
        },
    }
}

/// A child list reads the same in a grown store.
pub proof fn lemma_kid_terms_grow(a: Store, b: Store, sl: ArenaSlice<Children>)
    requires
        grows(a, b),
        slice_fits(a, sl),
    ensures
        slice_fits(b, sl),
        covered(b.kids, sl) == covered(a.kids, sl),
        terms(b, covered(b.kids, sl)) == terms(a, covered(a.kids, sl)),
{
    let ka = covered(a.kids, sl);
    assert forall|i: int| 0 <= i < sl.len implies ka[i] == covered(b.kids, sl)[i] by {
        assert(a.kids[sl.start + i] == b.kids[sl.start + i]);
    }
    assert(covered(b.kids, sl) =~= ka);
    assert forall|i: int| 0 <= i < sl.len implies terms(b, ka)[i] == terms(a, ka)[i] by {
        assert(ka[i] == a.kids[sl.start + i]);
        assert(term(b, ka[i]) == term(a, ka[i]));
    }
    assert(terms(b, ka) =~= terms(a, ka));
    assert forall|i: int| sl.start <= i < sl.start + sl.len implies in_arena(
        b,
        #[trigger] b.kids[i],
    ) by {
        assert(a.kids[i] == b.kids[i]);
    }
}

proof fn lemma_slice_pushed(s: Store, n: TypeNode, sl: ArenaSlice<Children>, t: int)
    requires
        store_ok(s),
        0 <= t < s.nodes.len(),
        slice_ok(s, sl, s.rank[t]),
    ensures
        slice_ok(with_node(s, n), sl, s.rank[t]),
{
    let b = with_node(s, n);
    assert forall|i: int| sl.start <= i < sl.start + sl.len implies in_arena(
        b,
        #[trigger] b.kids[i],
    ) && b.rank[b.kids[i].0 as int] < s.rank[t] by {
        assert(in_arena(s, s.kids[i]));
    }
}

proof fn lemma_slice_above(s: Store, n: TypeNode, sl: ArenaSlice<Children>)
    requires
        store_ok(s),
        slice_fits(s, sl),
    ensures
        slice_ok(with_node(s, n), sl, above(s.rank)),
{
    let b = with_node(s, n);
    assert forall|i: int| sl.start <= i < sl.start + sl.len implies in_arena(
        b,
        #[trigger] b.kids[i],
    ) && b.rank[b.kids[i].0 as int] < above(s.rank) by {
        assert(in_arena(s, s.kids[i]));
        lemma_above(s.rank, s.kids[i].0 as int);
    }
}

/// Children can be added.
pub proof fn lemma_with_kids(s: Store, ts: Seq<Ty>)
    requires
        store_ok(s),
        s.kids.len() + ts.len() <= 0xFFFF_FFFF,
        forall|i: int| 0 <= i < ts.len() ==> in_arena(s, #[trigger] ts[i]),
    ensures
        store_ok(Store { kids: s.kids + ts, ..s }),
        grows(s, Store { kids: s.kids + ts, ..s }),
{
    let b = Store { kids: s.kids + ts, ..s };
    assert forall|t: int| live(b, t) implies #[trigger] node_ok(b, t) by {
        assert(node_ok(s, t));
        match s.nodes[t] {
            TypeNode::Con { id, name, args } => {
                lemma_slice_more_kids(s, b, args, t);
            },
            TypeNode::Fun { params, ret } => {
                lemma_slice_more_kids(s, b, params, t);
            },
            TypeNode::Tuple { elems } => {
                lemma_slice_more_kids(s, b, elems, t);
            },
            _ => {},
        }
    }
    assert forall|v: int| 0 <= v < b.vars.len() implies #[trigger] state_ok(b, v) by {
        assert(state_ok(s, v));
    }
    assert(s.kids.is_prefix_of(b.kids));
    lemma_appended_grows(s, b);
}

proof fn lemma_slice_more_kids(s: Store, b: Store, sl: ArenaSlice<Children>, t: int)
    requires
        store_ok(s),
        0 <= t < s.nodes.len(),
        slice_ok(s, sl, s.rank[t]),
        b.nodes == s.nodes,
        b.live == s.live,
        b.rank == s.rank,
        s.kids.is_prefix_of(b.kids),
    ensures
        slice_ok(b, sl, s.rank[t]),
{
    assert forall|i: int| sl.start <= i < sl.start + sl.len implies in_arena(
        b,
        #[trigger] b.kids[i],
    ) && b.rank[b.kids[i].0 as int] < s.rank[t] by {
        assert(b.kids[i] == s.kids[i]);
    }
}

/// A variable can be added.
pub proof fn lemma_with_var(s: Store, x: TyVarState)
    requires
        store_ok(s),
        s.vars.len() < i32::MAX,
        match x {
            TyVarState::Unbound { level, constraint } => true,
            TyVarState::Generic { id, constraint } => id == s.vars.len(),
            TyVarState::Link { ty } => false,
        },
    ensures
        store_ok(Store { vars: s.vars.push(x), ..s }),
        grows(s, Store { vars: s.vars.push(x), ..s }),
{
    let b = Store { vars: s.vars.push(x), ..s };
    assert forall|t: int| live(b, t) implies #[trigger] node_ok(b, t) by {
        assert(node_ok(s, t));
    }
    assert forall|v: int| 0 <= v < b.vars.len() implies #[trigger] state_ok(b, v) by {
        if v < s.vars.len() {
            assert(state_ok(s, v));
        }
    }
    lemma_appended_grows(s, b);
}

/// Every nominal type's display name lies below `n`.
pub open spec fn names_below(s: Store, n: int) -> bool {
    forall|t: int| live(s, t) ==> #[trigger] name_below(s.nodes[t], n)
}

pub open spec fn name_below(node: TypeNode, n: int) -> bool {
    match node {
        TypeNode::Con { id, name, args } => name.0 < n,
        _ => true,
    }
}

/// `b` brings in no display name that `a` has not.
pub open spec fn no_new_names(a: Store, b: Store) -> bool {
    forall|n: int| #[trigger] names_below(a, n) ==> names_below(b, n)
}

/// One more node, whose name was there already if it has one.
pub proof fn lemma_one_more_node(a: Store, b: Store)
    requires
        grows(a, b),
        b.nodes.len() == a.nodes.len() + 1,
        match b.nodes.last() {
            TypeNode::Con { id, name, args } => exists|t: int|
                live(a, t) && (#[trigger] a.nodes[t] matches TypeNode::Con {
                    id: i2,
                    name: n2,
                    args: a2,
                } && n2 == name),
            _ => true,
        },
    ensures
        no_new_names(a, b),
{
    assert forall|n: int| #[trigger] names_below(a, n) implies names_below(b, n) by {
        assert forall|t: int| live(b, t) implies #[trigger] name_below(b.nodes[t], n) by {
            if t < a.nodes.len() {
                assert(a.nodes[t] == b.nodes[t]);
                assert(a.live[t] == b.live[t]);
                assert(name_below(a.nodes[t], n));
            } else {
                match b.nodes.last() {
                    TypeNode::Con { id, name, args } => {
                        let u = choose|t: int|
                            live(a, t) && (#[trigger] a.nodes[t] matches TypeNode::Con {
                                id: i2,
                                name: n2,
                                args: a2,
                            } && n2 == name);
                        assert(name_below(a.nodes[u], n));
                    },
                    _ => {},
                }
            }
        }
    }
}

pub proof fn lemma_names_more(s: Store, n: int, m: int)
    requires
        names_below(s, n),
        n <= m,
    ensures
        names_below(s, m),
{
    assert forall|t: int| live(s, t) implies #[trigger] name_below(s.nodes[t], m) by {
        assert(name_below(s.nodes[t], n));
    }
}

/// The same nodes have the same names.
pub proof fn lemma_same_nodes_names(a: Store, b: Store)
    requires
        a.nodes == b.nodes,
        a.live == b.live,
    ensures
        no_new_names(a, b),
{
    assert forall|n: int| #[trigger] names_below(a, n) implies names_below(b, n) by {
        assert forall|t: int| live(b, t) implies #[trigger] name_below(b.nodes[t], n) by {
            assert(live(a, t));
            assert(name_below(a.nodes[t], n));
        }
    }
}

} // verus!
