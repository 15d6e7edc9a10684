//! Generalization and instantiation.

use crate::names::{IdTable, lemma_with, position, with};
use crate::types::arena::{claimed, closed};
use crate::types::environment::TypeParam;
use crate::types::infer::InferEngine;
use crate::types::naming::{lemma_naming_strings, Naming};
use crate::types::node::{
    ArenaSlice, Constraint, covered, QuantVar, RootVarState, Scheme, StrId, Ty, TyVarState,
    TypeNode, ValueKind,
};
use crate::types::pool::{Children, TypeParams};
use crate::types::rewrite::{
    bounds_below, closing, closing_body, Leaves, lemma_args_grow, lemma_rewritten_same,
    lemma_solid_closed, opening, Rewrite, rewritten, rewritten_all, solid, substituting, weight,
};
use crate::types::term::{
    compressed, grows, in_arena, lemma_compressed_grows, lemma_compressed_step, lemma_grows_trans,
    lemma_occurs, lemma_root, lemma_same_links_term, lemma_term, lemma_term_vars, live, no_new_names, node_ok,
    occurs, occurs_any, root, same_link, same_links, slice_fits, slice_ok, state_ok, Store,
    store_ok, Term, term, terms, var_in, var_term,
};
use crate::types::unify::lemma_same_links_trans;
use std::collections::HashSet;
use vstd::prelude::*;

verus! {

broadcast use vstd::std_specs::hash::group_hash_axioms;

/// `v` must stay weak: it is reachable through one of the restricted
/// constructors. Once inside, a function no longer shields; outside, a function
/// has not built the value yet, so nothing below it is weak.
pub open spec fn weak_in(v: i32, t: Term, restricted: Set<i32>, inside: bool) -> bool
    decreases t,
{
    match t {
        Term::Var(u) => inside && u == v,
        Term::Bound(_) => false,
        Term::Con { id, name, args } => exists|i: int|
            0 <= i < args.len() && weak_in(
                v,
                #[trigger] args[i],
                restricted,
                inside || restricted.contains(id.0),
            ),
        Term::Fun { params, ret } => inside && ((exists|i: int|
            0 <= i < params.len() && weak_in(v, #[trigger] params[i], restricted, true)) || weak_in(
            v,
            *ret,
            restricted,
            true,
        )),
        Term::Tuple { elems } => exists|i: int|
            0 <= i < elems.len() && weak_in(v, #[trigger] elems[i], restricted, inside),
    }
}

pub open spec fn weak_in_any(v: i32, ts: Seq<Term>, restricted: Set<i32>, inside: bool) -> bool {
    exists|i: int| 0 <= i < ts.len() && weak_in(v, #[trigger] ts[i], restricted, inside)
}

proof fn lemma_weak_in(v: i32, t: Term, restricted: Set<i32>, inside: bool)
    ensures
        match t {
            Term::Con { id, name, args } => weak_in(v, t, restricted, inside) == weak_in_any(
                v,
                args,
                restricted,
                inside || restricted.contains(id.0),
            ),
            Term::Fun { params, ret } => weak_in(v, t, restricted, inside) == (inside && (
            weak_in_any(v, params, restricted, true) || weak_in(v, *ret, restricted, true))),
            Term::Tuple { elems } => weak_in(v, t, restricted, inside) == weak_in_any(
                v,
                elems,
                restricted,
                inside,
            ),
            _ => true,
        },
{
    match t {
        Term::Con { id, name, args } => {
            let deep = inside || restricted.contains(id.0);
            if weak_in_any(v, args, restricted, deep) {
                let i = choose|i: int|
                    0 <= i < args.len() && weak_in(v, #[trigger] args[i], restricted, deep);
                assert(weak_in(v, args[i], restricted, deep));
            }
            if weak_in(v, t, restricted, inside) {
                let i = choose|i: int|
                    0 <= i < args.len() && weak_in(v, #[trigger] args[i], restricted, deep);
                assert(weak_in(v, args[i], restricted, deep));
            }
        },
        Term::Fun { params, ret } => {
            if weak_in_any(v, params, restricted, true) {
                let i = choose|i: int|
                    0 <= i < params.len() && weak_in(v, #[trigger] params[i], restricted, true);
                assert(weak_in(v, params[i], restricted, true));
            }
            if weak_in(v, t, restricted, inside) && !weak_in(v, *ret, restricted, true) {
                let i = choose|i: int|
                    0 <= i < params.len() && weak_in(v, #[trigger] params[i], restricted, true);
                assert(weak_in(v, params[i], restricted, true));
            }
        },
        Term::Tuple { elems } => {
            if weak_in_any(v, elems, restricted, inside) {
                let i = choose|i: int|
                    0 <= i < elems.len() && weak_in(v, #[trigger] elems[i], restricted, inside);
                assert(weak_in(v, elems[i], restricted, inside));
            }
            if weak_in(v, t, restricted, inside) {
                let i = choose|i: int|
                    0 <= i < elems.len() && weak_in(v, #[trigger] elems[i], restricted, inside);
                assert(weak_in(v, elems[i], restricted, inside));
            }
        },
        _ => {},
    }
}

/// Which variables generalization may quantify: rigid ones, and unsolved ones
/// of a deeper level (or any, at the top), unless they must stay weak.
pub open spec fn eligible(s: Store, level: int, ignore_level: bool, weak: Set<i32>) -> spec_fn(
    i32,
) -> bool {
    |v: i32|
        var_in(s, v) && !weak.contains(v) && match s.vars[v as int] {
            TyVarState::Unbound { level: l, constraint } => ignore_level || l > level,
            TyVarState::Generic { id, constraint } => true,
            TyVarState::Link { ty } => false,
        }
}

/// The variables of a term that `p` picks, each once, in the order they are
/// first met, after those in `acc`.
pub open spec fn gathered(p: spec_fn(i32) -> bool, t: Term, acc: Seq<i32>) -> Seq<i32>
    decreases t,
{
    match t {
        Term::Var(v) => if p(v) {
            with(acc, v)
        } else {
            acc
        },
        Term::Bound(_) => acc,
        Term::Con { id, name, args } => gathered_all(p, args, acc),
        Term::Fun { params, ret } => gathered(p, *ret, gathered_all(p, params, acc)),
        Term::Tuple { elems } => gathered_all(p, elems, acc),
    }
}

pub open spec fn gathered_all(p: spec_fn(i32) -> bool, ts: Seq<Term>, acc: Seq<i32>) -> Seq<i32>
    decreases ts,
{
    if ts.len() == 0 {
        acc
    } else {
        gathered(p, ts.last(), gathered_all(p, ts.drop_last(), acc))
    }
}

/// What is gathered: what was there, and the picked variables that occur.
pub proof fn lemma_gathered(p: spec_fn(i32) -> bool, t: Term, acc: Seq<i32>)
    requires
        acc.no_duplicates(),
    ensures
        gathered(p, t, acc).no_duplicates(),
        forall|v: i32| #[trigger]
            gathered(p, t, acc).contains(v) <==> acc.contains(v) || (p(v) && occurs(v, t)),
    decreases t,
{
    match t {
        Term::Var(u) => {
            lemma_with(acc, u);
            assert forall|v: i32| #[trigger] gathered(p, t, acc).contains(v) <==> acc.contains(v)
                || (p(v) && occurs(v, t)) by {
                if p(u) {
                    lemma_with_contains(acc, u, v);
                }
            }
        },
        Term::Bound(_) => {},
        Term::Con { id, name, args } => {
            lemma_gathered_all(p, args, acc);
            assert forall|v: i32| #[trigger] gathered(p, t, acc).contains(v) <==> acc.contains(v)
                || (p(v) && occurs(v, t)) by {
                lemma_occurs(v, t);
            }
        },
        Term::Fun { params, ret } => {
            lemma_gathered_all(p, params, acc);
            lemma_gathered(p, *ret, gathered_all(p, params, acc));
            assert forall|v: i32| #[trigger] gathered(p, t, acc).contains(v) <==> acc.contains(v)
                || (p(v) && occurs(v, t)) by {
                lemma_occurs(v, t);
                assert(gathered_all(p, params, acc).contains(v) <==> acc.contains(v) || (p(v)
                    && occurs_any(v, params)));
            }
        },
        Term::Tuple { elems } => {
            lemma_gathered_all(p, elems, acc);
            assert forall|v: i32| #[trigger] gathered(p, t, acc).contains(v) <==> acc.contains(v)
                || (p(v) && occurs(v, t)) by {
                lemma_occurs(v, t);
            }
        },
    }
}

proof fn lemma_with_contains(acc: Seq<i32>, u: i32, v: i32)
    ensures
        with(acc, u).contains(v) <==> acc.contains(v) || u == v,
{
    let w = with(acc, u);
    if acc.contains(v) {
        let i = acc.index_of(v);
        assert(w[i] == v);
    }
    if u == v && !acc.contains(u) {
        assert(w[acc.len() as int] == v);
    }
    if w.contains(v) && !acc.contains(v) {
        let i = w.index_of(v);
        assert(i == acc.len());
    }
}

proof fn lemma_gathered_all(p: spec_fn(i32) -> bool, ts: Seq<Term>, acc: Seq<i32>)
    requires
        acc.no_duplicates(),
    ensures
        gathered_all(p, ts, acc).no_duplicates(),
        forall|v: i32| #[trigger]
            gathered_all(p, ts, acc).contains(v) <==> acc.contains(v) || (p(v) && occurs_any(
                v,
                ts,
            )),
    decreases ts,
{
    if ts.len() > 0 {
        let init = ts.drop_last();
        lemma_gathered_all(p, init, acc);
        lemma_gathered(p, ts.last(), gathered_all(p, init, acc));
        assert forall|v: i32| #[trigger] gathered_all(p, ts, acc).contains(v) <==> acc.contains(v)
            || (p(v) && occurs_any(v, ts)) by {
            assert(gathered_all(p, init, acc).contains(v) <==> acc.contains(v) || (p(v)
                && occurs_any(v, init)));
            if occurs_any(v, init) {
                let i = choose|i: int| 0 <= i < init.len() && occurs(v, #[trigger] init[i]);
                assert(occurs(v, ts[i]));
            }
            if occurs_any(v, ts) {
                let i = choose|i: int| 0 <= i < ts.len() && occurs(v, #[trigger] ts[i]);
                if i < init.len() {
                    assert(occurs(v, init[i]));
                }
            }
            if occurs(v, ts.last()) {
                assert(occurs(v, ts[ts.len() - 1]));
            }
        }
    }
}

/// `b` is `a` with links shortened and the unsolved variables that `p` picks
/// made rigid.
pub open spec fn flipped(a: Store, b: Store, p: spec_fn(i32) -> bool) -> bool {
    &&& same_links(a, b)
    &&& forall|v: i32| var_in(a, v) ==> #[trigger] flipped_at(a, b, p, v)
}

pub open spec fn flipped_at(a: Store, b: Store, p: spec_fn(i32) -> bool, v: i32) -> bool {
    match a.vars[v as int] {
        TyVarState::Unbound { level, constraint } => if p(v) {
            b.vars[v as int] == (TyVarState::Generic { id: v, constraint })
        } else {
            b.vars[v as int] == a.vars[v as int]
        },
        TyVarState::Generic { id, constraint } => b.vars[v as int] == a.vars[v as int],
        TyVarState::Link { ty } => true,
    }
}

/// `p` and occurring in a term.
pub open spec fn and_in(p: spec_fn(i32) -> bool, t: Term) -> spec_fn(i32) -> bool {
    |v: i32| p(v) && occurs(v, t)
}

pub open spec fn and_in_any(p: spec_fn(i32) -> bool, ts: Seq<Term>) -> spec_fn(i32) -> bool {
    |v: i32| p(v) && occurs_any(v, ts)
}

pub open spec fn none_at_all() -> spec_fn(i32) -> bool {
    |v: i32| false
}

proof fn lemma_flipped_trans(
    a: Store,
    b: Store,
    c: Store,
    p: spec_fn(i32) -> bool,
    q: spec_fn(i32) -> bool,
    r: spec_fn(i32) -> bool,
)
    requires
        store_ok(a),
        store_ok(b),
        store_ok(c),
        flipped(a, b, p),
        flipped(b, c, q),
        forall|v: i32| #[trigger] r(v) == (p(v) || q(v)),
    ensures
        flipped(a, c, r),
{
    lemma_same_links_trans(a, b, c);
    assert forall|v: i32| var_in(a, v) implies #[trigger] flipped_at(a, c, r, v) by {
        assert(flipped_at(a, b, p, v));
        assert(flipped_at(b, c, q, v));
        assert(r(v) == (p(v) || q(v)));
    }
}

/// Making eligible variables rigid changes nobody's eligibility.
proof fn lemma_flipped_eligible(
    a: Store,
    b: Store,
    p: spec_fn(i32) -> bool,
    level: int,
    ignore_level: bool,
    weak: Set<i32>,
)
    requires
        store_ok(a),
        store_ok(b),
        flipped(a, b, p),
        forall|v: i32| #[trigger] p(v) ==> eligible(a, level, ignore_level, weak)(v),
    ensures
        eligible(b, level, ignore_level, weak) == eligible(a, level, ignore_level, weak),
{
    let x = eligible(a, level, ignore_level, weak);
    let y = eligible(b, level, ignore_level, weak);
    assert forall|v: i32| #[trigger] x(v) == y(v) by {
        if var_in(a, v) {
            assert(flipped_at(a, b, p, v));
            assert(same_link(a, b, v as int));
        }
    }
    assert(x =~= y);
}

proof fn lemma_compressed_flipped(a: Store, b: Store)
    requires
        compressed(a, b),
    ensures
        flipped(a, b, none_at_all()),
{
    assert forall|v: i32| var_in(a, v) implies #[trigger] flipped_at(a, b, none_at_all(), v) by {
        assert(same_link(a, b, v as int));
    }
}

impl InferEngine {
    /// Mark every variable of `ty` that must stay weak.
    fn collect_weak_vars(
        &mut self,
        ty: Ty,
        restricted: &HashSet<i32>,
        inside: bool,
        weak: &mut HashSet<i32>,
    )
        requires
            old(self).wf(),
            old(self).has(ty),
        ensures
            final(self).wf(),
            final(self).only_vars(old(self)),
            final(self).rank == old(self).rank,
            grows(old(self).store(), final(self).store()),
            forall|v: i32| #[trigger]
                final(weak)@.contains(v) <==> old(weak)@.contains(v) || weak_in(
                    v,
                    old(self).term(ty),
                    restricted@,
                    inside,
                ),
        decreases old(self).rank@[ty.0 as int], 1nat,
    {
        let ghost a = self.store();
        let ghost w0 = weak@;
        let r = self.find(ty);
        let ghost b = self.store();
        proof {
            lemma_root(a, ty);
            lemma_compressed_grows(a, b);
            assert(term(b, r) == term(a, r));
            lemma_term(b, r);
        }
        match self.node(r) {
            TypeNode::Var(id) => {
                proof {
                    lemma_root(b, r);
                    assert(root(b, r) == r);
                    assert(state_ok(b, id as int));
                }
                if inside {
                    let v = match self.root_var(id) {
                        RootVarState::Generic { id: gid, constraint } => gid,
                        RootVarState::Unbound { level, constraint } => id,
                    };
                    weak.insert(v);
                }
            },
            TypeNode::Con { id, name, args } => {
                let deep = inside || restricted.contains(&id.0);
                self.collect_weak_slice(args, restricted, deep, weak, r);
                proof {
                    lemma_grows_trans(a, b, self.store());
                    assert forall|v: i32| #[trigger] weak@.contains(v) <==> w0.contains(v)
                        || weak_in(v, term(a, ty), restricted@, inside) by {
                        lemma_weak_in(v, term(a, ty), restricted@, inside);
                    }
                }
            },
            TypeNode::Fun { params, ret } => {
                if inside {
                    self.collect_weak_slice(params, restricted, true, weak, r);
                    let ghost c = self.store();
                    let ghost w1 = weak@;
                    proof {
                        assert(c.live[ret.0 as int] == b.live[ret.0 as int]);
                        assert(term(c, ret) == term(b, ret));
                        lemma_grows_trans(a, b, c);
                    }
                    self.collect_weak_vars(ret, restricted, true, weak);
                    proof {
                        lemma_grows_trans(a, c, self.store());
                        assert forall|v: i32| #[trigger] weak@.contains(v) <==> w0.contains(v)
                            || weak_in(v, term(a, ty), restricted@, inside) by {
                            lemma_weak_in(v, term(a, ty), restricted@, inside);
                            assert(w1.contains(v) <==> w0.contains(v) || weak_in_any(
                                v,
                                terms(b, covered(b.kids, params)),
                                restricted@,
                                true,
                            ));
                        }
                    }
                }
            },
            TypeNode::Tuple { elems } => {
                self.collect_weak_slice(elems, restricted, inside, weak, r);
                proof {
                    lemma_grows_trans(a, b, self.store());
                    assert forall|v: i32| #[trigger] weak@.contains(v) <==> w0.contains(v)
                        || weak_in(v, term(a, ty), restricted@, inside) by {
                        lemma_weak_in(v, term(a, ty), restricted@, inside);
                    }
                }
            },
            TypeNode::Bound(_) => {},
        }
    }

    fn collect_weak_slice(
        &mut self,
        sl: ArenaSlice<Children>,
        restricted: &HashSet<i32>,
        inside: bool,
        weak: &mut HashSet<i32>,
        whole: Ty,
    )
        requires
            old(self).wf(),
            old(self).has(whole),
            slice_ok(old(self).store(), sl, old(self).rank@[whole.0 as int]),
        ensures
            final(self).wf(),
            final(self).only_vars(old(self)),
            final(self).rank == old(self).rank,
            grows(old(self).store(), final(self).store()),
            forall|v: i32| #[trigger]
                final(weak)@.contains(v) <==> old(weak)@.contains(v) || weak_in_any(
                    v,
                    terms(old(self).store(), covered(old(self).children@, sl)),
                    restricted@,
                    inside,
                ),
        decreases old(self).rank@[whole.0 as int], 0nat,
    {
        let ghost a = self.store();
        let ghost ks = covered(a.kids, sl);
        let ghost ts = terms(a, ks);
        let start: usize = sl.start as usize;
        let mut i: usize = 0;
        proof {
            assert(grows(a, a));
        }
        while i < sl.len as usize
            invariant
                0 <= i <= sl.len,
                start == sl.start,
                a == old(self).store(),
                self.wf(),
                self.only_vars(old(self)),
                self.rank == old(self).rank,
                grows(a, self.store()),
                in_arena(a, whole),
                slice_ok(a, sl, a.rank[whole.0 as int]),
                ks == covered(a.kids, sl),
                ts == terms(a, ks),
                ts.len() == sl.len,
                forall|v: i32| #[trigger]
                    weak@.contains(v) <==> old(weak)@.contains(v) || weak_in_any(
                        v,
                        ts.take(i as int),
                        restricted@,
                        inside,
                    ),
            decreases sl.len - i,
        {
            let kid = self.children[start + i];
            let ghost b = self.store();
            let ghost w1 = weak@;
            proof {
                assert(a.kids[start + i] == kid);
                assert(ks[i as int] == kid);
                assert(ts[i as int] == term(a, kid));
                assert(b.live[kid.0 as int] == a.live[kid.0 as int]);
                assert(term(b, kid) == term(a, kid));
            }
            self.collect_weak_vars(kid, restricted, inside, weak);
            proof {
                lemma_grows_trans(a, b, self.store());
                assert forall|v: i32| #[trigger] weak@.contains(v) <==> old(weak)@.contains(v)
                    || weak_in_any(v, ts.take(i + 1), restricted@, inside) by {
                    assert(w1.contains(v) <==> old(weak)@.contains(v) || weak_in_any(
                        v,
                        ts.take(i as int),
                        restricted@,
                        inside,
                    ));
                    lemma_weak_any_take(v, ts, i as int, restricted@, inside);
                }
            }
            i += 1;
        }
        proof {
            assert(ts.take(i as int) =~= ts);
        }
    }

    /// Make every variable of `ty` that may be quantified rigid, and list them.
    fn collect_generalizable(
        &mut self,
        ty: Ty,
        ignore_level: bool,
        weak: &HashSet<i32>,
        quantified: &mut IdTable,
    )
        requires
            old(self).wf(),
            old(self).has(ty),
            old(quantified).wf(),
        ensures
            final(self).wf(),
            final(self).only_vars(old(self)),
            final(self).rank == old(self).rank,
            final(quantified).wf(),
            final(quantified)@ == gathered(
                eligible(
                    old(self).store(),
                    old(self).current_level as int,
                    ignore_level,
                    weak@,
                ),
                old(self).term(ty),
                old(quantified)@,
            ),
            flipped(
                old(self).store(),
                final(self).store(),
                and_in(
                    eligible(
                        old(self).store(),
                        old(self).current_level as int,
                        ignore_level,
                        weak@,
                    ),
                    old(self).term(ty),
                ),
            ),
        decreases old(self).rank@[ty.0 as int], 1nat,
    {
        let ghost a = self.store();
        let ghost lvl = self.current_level as int;
        let ghost p = eligible(a, lvl, ignore_level, weak@);
        let ghost t = term(a, ty);
        let ghost q0 = quantified@;
        let r = self.find(ty);
        let ghost b = self.store();
        proof {
            lemma_root(a, ty);
            lemma_compressed_step(a, b);
            lemma_compressed_flipped(a, b);
            lemma_flipped_eligible(a, b, none_at_all(), lvl, ignore_level, weak@);
            assert(term(b, r) == term(a, r));
            lemma_term(b, r);
        }
        match self.node(r) {
            TypeNode::Var(id) => {
                proof {
                    lemma_root(b, r);
                    assert(root(b, r) == r);
                    assert(state_ok(b, id as int));
                    assert(same_link(a, b, id as int));
                    assert(flipped_at(a, b, none_at_all(), id));
                    assert forall|v: i32| #[trigger] and_in(p, t)(v) == (v == id && p(id)) by {}
                }
                match self.root_var(id) {
                    RootVarState::Unbound { level, constraint } => {
                        if (ignore_level || level > self.current_level) && !weak.contains(&id) {
                            self.vars.set(id as usize, TyVarState::Generic { id, constraint });
                            quantified.insert(id);
                            proof {
                                let c = self.store();
                                lemma_store_flip(b, c, id);
                                lemma_flip_one(b, c, id);
                                lemma_flipped_trans(
                                    a,
                                    b,
                                    c,
                                    none_at_all(),
                                    |v: i32| v == id,
                                    and_in(p, t),
                                );
                            }
                        } else {
                            proof {
                                lemma_flipped_same(a, b, none_at_all(), and_in(p, t));
                            }
                        }
                    },
                    RootVarState::Generic { id: gid, constraint } => {
                        if !weak.contains(&gid) {
                            quantified.insert(gid);
                        }
                        proof {
                            assert forall|v: i32| var_in(a, v) implies #[trigger] flipped_at(
                                a,
                                b,
                                and_in(p, t),
                                v,
                            ) by {
                                assert(flipped_at(a, b, none_at_all(), v));
                            }
                        }
                    },
                }
            },
            TypeNode::Con { id, name, args } => {
                self.collect_slice(args, ignore_level, weak, quantified, r);
                proof {
                    lemma_through_slice(
                        a,
                        b,
                        self.store(),
                        p,
                        t,
                        terms(b, covered(b.kids, args)),
                    );
                }
            },
            TypeNode::Fun { params, ret } => {
                self.collect_slice(params, ignore_level, weak, quantified, r);
                let ghost c = self.store();
                let ghost ts = terms(b, covered(b.kids, params));
                proof {
                    lemma_same_links_term(b, c, ret);
                    lemma_flipped_eligible(b, c, and_in_any(p, ts), lvl, ignore_level, weak@);
                    lemma_flipped_trans(
                        a,
                        b,
                        c,
                        none_at_all(),
                        and_in_any(p, ts),
                        and_in_any(p, ts),
                    );
                }
                self.collect_generalizable(ret, ignore_level, weak, quantified);
                proof {
                    assert forall|v: i32| #[trigger] and_in(p, t)(v) == (and_in_any(p, ts)(v)
                        || and_in(p, term(c, ret))(v)) by {
                        lemma_occurs(v, t);
                    }
                    lemma_flipped_trans(
                        a,
                        c,
                        self.store(),
                        and_in_any(p, ts),
                        and_in(p, term(c, ret)),
                        and_in(p, t),
                    );
                }
            },
            TypeNode::Tuple { elems } => {
                self.collect_slice(elems, ignore_level, weak, quantified, r);
                proof {
                    lemma_through_slice(
                        a,
                        b,
                        self.store(),
                        p,
                        t,
                        terms(b, covered(b.kids, elems)),
                    );
                }
            },
            TypeNode::Bound(_) => {
                proof {
                    lemma_flipped_same(a, b, none_at_all(), and_in(p, t));
                }
            },
        }
    }

    fn collect_slice(
        &mut self,
        sl: ArenaSlice<Children>,
        ignore_level: bool,
        weak: &HashSet<i32>,
        quantified: &mut IdTable,
        whole: Ty,
    )
        requires
            old(self).wf(),
            old(self).has(whole),
            slice_ok(old(self).store(), sl, old(self).rank@[whole.0 as int]),
            old(quantified).wf(),
        ensures
            final(self).wf(),
            final(self).only_vars(old(self)),
            final(self).rank == old(self).rank,
            final(quantified).wf(),
            final(quantified)@ == gathered_all(
                eligible(
                    old(self).store(),
                    old(self).current_level as int,
                    ignore_level,
                    weak@,
                ),
                terms(old(self).store(), covered(old(self).children@, sl)),
                old(quantified)@,
            ),
            flipped(
                old(self).store(),
                final(self).store(),
                and_in_any(
                    eligible(
                        old(self).store(),
                        old(self).current_level as int,
                        ignore_level,
                        weak@,
                    ),
                    terms(old(self).store(), covered(old(self).children@, sl)),
                ),
            ),
        decreases old(self).rank@[whole.0 as int], 0nat,
    {
        let ghost a = self.store();
        let ghost lvl = self.current_level as int;
        let ghost p = eligible(a, lvl, ignore_level, weak@);
        let ghost ks = covered(a.kids, sl);
        let ghost ts = terms(a, ks);
        let start: usize = sl.start as usize;
        let mut i: usize = 0;
        proof {
            assert(ts.take(0) =~= Seq::empty());
            assert forall|v: i32| var_in(a, v) implies #[trigger] flipped_at(
                a,
                a,
                and_in_any(p, ts.take(0)),
                v,
            ) by {}
            assert forall|v: int| 0 <= v < a.vars.len() implies #[trigger] same_link(a, a, v) by {
                assert(state_ok(a, v));
            }
        }
        while i < sl.len as usize
            invariant
                0 <= i <= sl.len,
                start == sl.start,
                a == old(self).store(),
                lvl == old(self).current_level,
                store_ok(a),
                self.wf(),
                self.only_vars(old(self)),
                self.rank == old(self).rank,
                in_arena(a, whole),
                slice_ok(a, sl, a.rank[whole.0 as int]),
                ks == covered(a.kids, sl),
                ts == terms(a, ks),
                ts.len() == sl.len,
                p == eligible(a, lvl, ignore_level, weak@),
                quantified.wf(),
                quantified@ == gathered_all(p, ts.take(i as int), old(quantified)@),
                flipped(a, self.store(), and_in_any(p, ts.take(i as int))),
            decreases sl.len - i,
        {
            let kid = self.children[start + i];
            let ghost b = self.store();
            proof {
                assert(a.kids[start + i] == kid);
                assert(ks[i as int] == kid);
                lemma_same_links_term(a, b, kid);
                lemma_flipped_eligible(
                    a,
                    b,
                    and_in_any(p, ts.take(i as int)),
                    lvl,
                    ignore_level,
                    weak@,
                );
            }
            self.collect_generalizable(kid, ignore_level, weak, quantified);
            proof {
                let next = ts.take(i + 1);
                assert(next.drop_last() =~= ts.take(i as int));
                assert(next.last() == ts[i as int]);
                assert forall|v: i32| #[trigger] and_in_any(p, next)(v) == (and_in_any(
                    p,
                    ts.take(i as int),
                )(v) || and_in(p, term(b, kid))(v)) by {
                    lemma_occurs_any_take(v, ts, i as int);
                }
                lemma_flipped_trans(
                    a,
                    b,
                    self.store(),
                    and_in_any(p, ts.take(i as int)),
                    and_in(p, term(b, kid)),
                    and_in_any(p, next),
                );
            }
            i += 1;
        }
        proof {
            assert(ts.take(i as int) =~= ts);
        }
    }
}

proof fn lemma_weak_any_take(v: i32, ts: Seq<Term>, i: int, restricted: Set<i32>, inside: bool)
    requires
        0 <= i < ts.len(),
    ensures
        weak_in_any(v, ts.take(i + 1), restricted, inside) <==> weak_in_any(
            v,
            ts.take(i),
            restricted,
            inside,
        ) || weak_in(v, ts[i], restricted, inside),
{
    let x = ts.take(i + 1);
    let y = ts.take(i);
    if weak_in_any(v, x, restricted, inside) {
        let k = choose|k: int| 0 <= k < x.len() && weak_in(v, #[trigger] x[k], restricted, inside);
        if k < i {
            assert(weak_in(v, y[k], restricted, inside));
        }
    }
    if weak_in_any(v, y, restricted, inside) {
        let k = choose|k: int| 0 <= k < y.len() && weak_in(v, #[trigger] y[k], restricted, inside);
        assert(weak_in(v, x[k], restricted, inside));
    }
    if weak_in(v, ts[i], restricted, inside) {
        assert(weak_in(v, x[i], restricted, inside));
    }
}

proof fn lemma_occurs_any_take(v: i32, ts: Seq<Term>, i: int)
    requires
        0 <= i < ts.len(),
    ensures
        occurs_any(v, ts.take(i + 1)) <==> occurs_any(v, ts.take(i)) || occurs(v, ts[i]),
{
    let x = ts.take(i + 1);
    let y = ts.take(i);
    if occurs_any(v, x) {
        let k = choose|k: int| 0 <= k < x.len() && occurs(v, #[trigger] x[k]);
        if k < i {
            assert(occurs(v, y[k]));
        }
    }
    if occurs_any(v, y) {
        let k = choose|k: int| 0 <= k < y.len() && occurs(v, #[trigger] y[k]);
        assert(occurs(v, x[k]));
    }
    if occurs(v, ts[i]) {
        assert(occurs(v, x[i]));
    }
}

proof fn lemma_flipped_same(
    a: Store,
    b: Store,
    p: spec_fn(i32) -> bool,
    q: spec_fn(i32) -> bool,
)
    requires
        flipped(a, b, p),
        forall|v: i32| #[trigger] q(v) == p(v),
    ensures
        flipped(a, b, q),
{
    assert forall|v: i32| var_in(a, v) implies #[trigger] flipped_at(a, b, q, v) by {
        assert(flipped_at(a, b, p, v));
        assert(q(v) == p(v));
    }
}

/// A nominal type or a tuple is done when its children are.
proof fn lemma_through_slice(
    a: Store,
    b: Store,
    c: Store,
    p: spec_fn(i32) -> bool,
    t: Term,
    ts: Seq<Term>,
)
    requires
        store_ok(a),
        store_ok(b),
        store_ok(c),
        flipped(a, b, none_at_all()),
        flipped(b, c, and_in_any(p, ts)),
        match t {
            Term::Con { id, name, args } => args == ts,
            Term::Tuple { elems } => elems == ts,
            _ => false,
        },
    ensures
        flipped(a, c, and_in(p, t)),
{
    assert forall|v: i32| #[trigger] and_in(p, t)(v) == (none_at_all()(v) || and_in_any(p, ts)(
        v,
    )) by {
        lemma_occurs(v, t);
    }
    lemma_flipped_trans(a, b, c, none_at_all(), and_in_any(p, ts), and_in(p, t));
}

/// Making a variable rigid leaves the store in order.
proof fn lemma_store_flip(a: Store, b: Store, v: i32)
    requires
        store_ok(a),
        var_in(a, v),
        a.vars[v as int] is Unbound,
        b.nodes == a.nodes,
        b.live == a.live,
        b.kids == a.kids,
        b.rank == a.rank,
        b.prims == a.prims,
        b.vars.len() == a.vars.len(),
        b.vars[v as int] matches TyVarState::Generic { id, constraint } && id == v,
        forall|u: int| 0 <= u < a.vars.len() && u != v ==> #[trigger] b.vars[u] == a.vars[u],
    ensures
        store_ok(b),
        same_links(a, b),
{
    assert forall|t: int| live(b, t) implies #[trigger] node_ok(b, t) by {
        assert(node_ok(a, t));
    }
    assert forall|u: int| 0 <= u < b.vars.len() implies #[trigger] state_ok(b, u) by {
        assert(state_ok(a, u));
    }
    assert forall|u: int| 0 <= u < a.vars.len() implies #[trigger] same_link(a, b, u) by {
        assert(state_ok(a, u));
    }
}

proof fn lemma_flip_one(a: Store, b: Store, v: i32)
    requires
        var_in(a, v),
        same_links(a, b),
        a.vars[v as int] matches TyVarState::Unbound { level, constraint } && b.vars[v as int] == (
        TyVarState::Generic { id: v, constraint }),
        forall|u: int| 0 <= u < a.vars.len() && u != v ==> #[trigger] b.vars[u] == a.vars[u],
    ensures
        flipped(a, b, |u: i32| u == v),
{
    let p = |u: i32| u == v;
    assert forall|u: i32| var_in(a, u) implies #[trigger] flipped_at(a, b, p, u) by {}
}

/// The variables of a term that must stay weak.
pub open spec fn weak_set(t: Term, restricted: Option<Set<i32>>) -> Set<i32> {
    Set::new(
        |v: i32|
            match restricted {
                Some(r) => weak_in(v, t, r, false),
                None => false,
            },
    )
}

/// The variables that generalizing the type at `ty` quantifies, in order.
pub open spec fn quantifiable(
    e: &InferEngine,
    ty: Ty,
    ignore_level: bool,
    restricted: Option<Set<i32>>,
) -> Seq<i32> {
    gathered(may_quantify(e, ty, ignore_level, restricted), e.term(ty), Seq::empty())
}

pub open spec fn may_quantify(
    e: &InferEngine,
    ty: Ty,
    ignore_level: bool,
    restricted: Option<Set<i32>>,
) -> spec_fn(i32) -> bool {
    eligible(
        e.store(),
        e.current_level as int,
        ignore_level,
        weak_set(e.term(ty), restricted),
    )
}

/// Variables among the ids become quantified ones, by position.
pub open spec fn binding_ids(ids: Seq<i32>) -> Leaves {
    Leaves {
        var: |v: i32|
            match position(ids, v) {
                Some(i) => Some(Term::Bound(i as u32)),
                None => None,
            },
        bound: |i: u32| None,
    }
}

pub open spec fn constraint_of(s: TyVarState) -> Option<Constraint> {
    match s {
        TyVarState::Unbound { level, constraint } => constraint,
        TyVarState::Generic { id, constraint } => constraint,
        TyVarState::Link { ty } => None,
    }
}

/// The record of a quantified variable.
pub open spec fn quant_of(a: &InferEngine, b: &InferEngine, v: i32) -> QuantVar {
    QuantVar {
        constraint: constraint_of(a.vars@[v as int]),
        name: b.var_names@[v],
        origin_id: Some(v),
        epoch: a.var_epoch,
    }
}

/// What generalizing leaves behind: the scheme quantifies over the picked
/// variables in order, its type has them by position, they are rigid and named
/// from here on, and every other type reads as before.
pub open spec fn generalized(
    a: &InferEngine,
    b: &InferEngine,
    ty: Ty,
    ignore_level: bool,
    restricted: Option<Set<i32>>,
    r: Scheme,
) -> bool {
    let ids = quantifiable(a, ty, ignore_level, restricted);
    let p = may_quantify(a, ty, ignore_level, restricted);
    &&& b.wf()
    &&& r.def is None
    &&& r.quantified.start == a.quants@.len()
    &&& r.quantified.len == ids.len()
    &&& b.quants@ == a.quants@ + Seq::new(ids.len(), |i: int| quant_of(a, b, ids[i]))
    &&& b.has(r.ty)
    &&& b.term(r.ty) == rewritten(binding_ids(ids), a.term(ty))
    &&& solid(b.store(), r.ty)
    &&& b.naming() == a.naming().named_all(ids)
    &&& forall|t: Ty| a.has(t) ==> b.has(t) && #[trigger] b.term(t) == a.term(t)
    &&& b.vars@.len() == a.vars@.len()
    &&& states_flipped(a.store(), b.store(), and_in(p, a.term(ty)))
    &&& b.current_level == a.current_level
    &&& b.var_epoch == a.var_epoch
    &&& b.prim_ids == a.prim_ids
    &&& b.diagnostics == a.diagnostics
    &&& a.strings@.is_prefix_of(b.strings@)
    &&& b.type_params == a.type_params
    &&& b.variant_fields == a.variant_fields
    &&& b.variants == a.variants
    &&& b.str_slices == a.str_slices
}

/// Solved variables are solved still, and of the others those that `p` picks
/// are rigid.
pub open spec fn states_flipped(a: Store, b: Store, p: spec_fn(i32) -> bool) -> bool {
    forall|v: i32| var_in(a, v) ==> #[trigger] state_flipped(a, b, p, v)
}

pub open spec fn state_flipped(a: Store, b: Store, p: spec_fn(i32) -> bool, v: i32) -> bool {
    (a.vars[v as int] is Link <==> b.vars[v as int] is Link) && flipped_at(a, b, p, v)
}

/// When every variable of a type may be quantified, its scheme holds no
/// variable at all: nothing in it depends on the engine's variables, so it
/// outlives them.
pub proof fn law_scheme_is_closed(
    a: &InferEngine,
    b: &InferEngine,
    ty: Ty,
    ignore_level: bool,
    restricted: Option<Set<i32>>,
    r: Scheme,
)
    requires
        generalized(a, b, ty, ignore_level, restricted, r),
        forall|v: i32| #[trigger]
            occurs(v, a.term(ty)) ==> may_quantify(a, ty, ignore_level, restricted)(v),
    ensures
        closed(b.store(), r.ty),
{
    let ids = quantifiable(a, ty, ignore_level, restricted);
    let p = may_quantify(a, ty, ignore_level, restricted);
    lemma_gathered(p, a.term(ty), Seq::empty());
    assert forall|v: i32| !#[trigger] occurs(v, b.term(r.ty)) by {
        assert forall|w: i32| #[trigger] occurs(w, a.term(ty)) implies (binding_ids(ids).var)(
            w,
        ) is Some by {
            assert(p(w));
            assert(ids.contains(w));
        }
        lemma_rewritten_no_var(binding_ids(ids), a.term(ty), v);
    }
    lemma_solid_closed(b.store(), r.ty);
}

/// A rewrite that turns every variable of a term into a quantified one leaves
/// none.
proof fn lemma_rewritten_no_var(l: Leaves, t: Term, v: i32)
    requires
        forall|w: i32| #[trigger] occurs(w, t) ==> (l.var)(w) is Some,
        forall|w: i32| #[trigger] (l.var)(w) matches Some(x) ==> x is Bound,
        forall|i: u32| #[trigger] (l.bound)(i) matches Some(x) ==> x is Bound,
    ensures
        !occurs(v, rewritten(l, t)),
    decreases t,
{
    match t {
        Term::Var(w) => {
            assert(occurs(w, t));
            assert((l.var)(w) is Some);
        },
        Term::Bound(i) => {
            match (l.bound)(i) {
                Some(x) => {},
                None => {},
            }
        },
        Term::Con { id, name, args } => {
            assert forall|i: int| 0 <= i < args.len() implies !occurs(
                v,
                #[trigger] rewritten_all(l, args)[i],
            ) by {
                assert forall|w: i32| #[trigger] occurs(w, args[i]) implies (l.var)(w) is Some by {
                    assert(occurs(w, t));
                }
                lemma_rewritten_no_var(l, args[i], v);
            }
            assert(!occurs_any(v, rewritten_all(l, args)));
            lemma_occurs(v, rewritten(l, t));
        },
        Term::Fun { params, ret } => {
            assert forall|i: int| 0 <= i < params.len() implies !occurs(
                v,
                #[trigger] rewritten_all(l, params)[i],
            ) by {
                assert forall|w: i32| #[trigger] occurs(w, params[i]) implies (l.var)(w) is Some by {
                    assert(occurs(w, t));
                }
                lemma_rewritten_no_var(l, params[i], v);
            }
            assert forall|w: i32| #[trigger] occurs(w, *ret) implies (l.var)(w) is Some by {
                assert(occurs(w, t));
            }
            lemma_rewritten_no_var(l, *ret, v);
            assert(!occurs_any(v, rewritten_all(l, params)));
            lemma_occurs(v, rewritten(l, t));
        },
        Term::Tuple { elems } => {
            assert forall|i: int| 0 <= i < elems.len() implies !occurs(
                v,
                #[trigger] rewritten_all(l, elems)[i],
            ) by {
                assert forall|w: i32| #[trigger] occurs(w, elems[i]) implies (l.var)(w) is Some by {
                    assert(occurs(w, t));
                }
                lemma_rewritten_no_var(l, elems[i], v);
            }
            assert(!occurs_any(v, rewritten_all(l, elems)));
            lemma_occurs(v, rewritten(l, t));
        },
    }
}

impl InferEngine {
    /// There is room for everything generalizing the type may add.
    pub open spec fn room_to_generalize(
        &self,
        ty: Ty,
        ignore_level: bool,
        restricted: Option<Set<i32>>,
    ) -> bool {
        let n = quantifiable(self, ty, ignore_level, restricted).len();
        &&& n <= 0xFFFF
        &&& self.quants@.len() + n <= 0xFFFF_FFFF
        &&& self.strings@.len() + n <= 0xFFFF_FFFF
        &&& self.room(weight(self.term(ty)), weight(self.term(ty)))
    }

    fn generalize_impl(
        &mut self,
        ty: Ty,
        ignore_level: bool,
        kind: ValueKind,
        restricted: Option<&HashSet<i32>>,
    ) -> (r: Scheme)
        requires
            old(self).wf(),
            old(self).has(ty),
            old(self).room_to_generalize(
                ty,
                ignore_level,
                match restricted {
                    Some(h) => Some(h@),
                    None => None,
                },
            ),
        ensures
            r.kind == kind,
            generalized(
                old(self),
                final(self),
                ty,
                ignore_level,
                match restricted {
                    Some(h) => Some(h@),
                    None => None,
                },
                r,
            ),
    {
        let ghost a = self.store();
        let ghost t = term(a, ty);
        let ghost lvl = self.current_level as int;
        let ghost rs = match restricted {
            Some(h) => Some(h@),
            None => None,
        };
        let ghost p = may_quantify(self, ty, ignore_level, rs);
        let mut weak: HashSet<i32> = HashSet::new();
        proof {
            assert(grows(a, a));
        }
        if let Some(cons) = restricted {
            self.collect_weak_vars(ty, cons, false, &mut weak);
        }
        let ghost a1 = self.store();
        proof {
            assert(weak@ =~= weak_set(t, rs));
            lemma_eligible_grows(a, a1, lvl, ignore_level, weak@);
            assert(term(a1, ty) == t);
            assert(a1.live[ty.0 as int] == a.live[ty.0 as int]);
        }
        let mut ids = IdTable::new();
        self.collect_generalizable(ty, ignore_level, &weak, &mut ids);
        let ghost e2 = *self;
        let ghost a2 = self.store();
        proof {
            lemma_gathered(p, t, Seq::empty());
            lemma_same_links_term(a1, a2, ty);
            assert forall|i: int| 0 <= i < ids@.len() implies var_in(a2, #[trigger] ids@[i])
                && a2.vars[ids@[i] as int] is Generic && constraint_of(a2.vars[ids@[i] as int])
                == constraint_of(a.vars[ids@[i] as int]) by {
                let v = ids@[i];
                assert(ids@.contains(v));
                assert(p(v) && occurs(v, t));
                assert(flipped_at(a1, a2, and_in(p, t), v));
                assert(a1.vars[v as int] == a.vars[v as int]);
                assert(state_ok(a, v as int));
            }
        }
        self.assign_names(&ids);
        let ghost e3 = *self;
        let n: usize = ids.len();
        let mut quantified: Vec<QuantVar> = Vec::new();
        let mut i: usize = 0;
        while i < n
            invariant
                i <= n,
                n == ids@.len(),
                *self == e3,
                self.wf(),
                self.store() == a2,
                self.var_epoch == old(self).var_epoch,
                a == old(self).store(),
                forall|k: int|
                    0 <= k < ids@.len() ==> var_in(a2, #[trigger] ids@[k])
                        && a2.vars[ids@[k] as int] is Generic && constraint_of(
                        a2.vars[ids@[k] as int],
                    ) == constraint_of(a.vars[ids@[k] as int]),
                forall|k: int|
                    0 <= k < ids@.len() ==> self.var_names@.contains_key(#[trigger] ids@[k]),
                quantified@.len() == i,
                forall|k: int|
                    0 <= k < i ==> #[trigger] quantified@[k] == quant_of(old(self), self, ids@[k]),
            decreases n - i,
        {
            let v = ids.get(i);
            let constraint = match self.root_var(v) {
                RootVarState::Generic { id, constraint } => constraint,
                RootVarState::Unbound { level, constraint } => constraint,
            };
            let name = match self.var_names.get(&v) {
                Some(s) => *s,
                None => StrId::none(),
            };
            quantified.push(
                QuantVar { constraint, name, origin_id: Some(v), epoch: self.var_epoch },
            );
            i += 1;
        }
        proof {
            assert(term(a2, ty) == t);
        }
        let ghost rw = Rewrite::CloseOver(&ids);
        let closed_ty = self.close_over(ty, &ids);
        let ghost e4 = *self;
        let sl = self.push_quants(quantified.as_slice());
        proof {
            assert(e4.quants@ == old(self).quants@);
            assert(quantified@ =~= Seq::new(
                ids@.len(),
                |k: int| quant_of(old(self), self, ids@[k]),
            ));
            lemma_generalized(old(self), &e2, &e3, &e4, self, a1, ty, p, ids@);
            lemma_naming_strings(&e4, self);
            lemma_naming_strings(&e3, &e4);
            lemma_naming_same(old(self), &e2);
        }
        Scheme { quantified: sl, ty: closed_ty, kind, def: None }
    }

    /// Replace every rigid variable in `ids` by the quantified one of its
    /// position.
    pub(crate) fn close_over(&mut self, ty: Ty, ids: &IdTable) -> (r: Ty)
        requires
            old(self).wf(),
            old(self).has(ty),
            ids.wf(),
            ids@.len() <= u32::MAX,
            old(self).room(weight(old(self).term(ty)), weight(old(self).term(ty))),
        ensures
            final(self).wf(),
            final(self).only_nodes(old(self)),
            final(self).has(r),
            final(self).term(r) == rewritten(closing(old(self).store(), ids@), old(self).term(ty)),
            solid(final(self).store(), r),
    {
        let rw = Rewrite::CloseOver(ids);
        self.rewrite(ty, &rw)
    }
}

proof fn lemma_naming_same(a: &InferEngine, b: &InferEngine)
    requires
        a.wf(),
        b.same_names(a),
        b.strings == a.strings,
    ensures
        b.naming() == a.naming(),
{
    lemma_naming_strings(a, b);
}

/// Shortened links change nobody's eligibility.
proof fn lemma_eligible_grows(a: Store, b: Store, level: int, ignore_level: bool, weak: Set<i32>)
    requires
        grows(a, b),
        a.vars.len() == b.vars.len(),
    ensures
        eligible(a, level, ignore_level, weak) == eligible(b, level, ignore_level, weak),
{
    let x = eligible(a, level, ignore_level, weak);
    let y = eligible(b, level, ignore_level, weak);
    assert forall|v: i32| #[trigger] x(v) == y(v) by {
        if var_in(a, v) {
            assert(a.vars[v as int] is Link <==> b.vars[v as int] is Link);
        }
    }
    assert(x =~= y);
}

/// The pieces of a generalization put together.
proof fn lemma_generalized(
    e0: &InferEngine,
    e2: &InferEngine,
    e3: &InferEngine,
    e4: &InferEngine,
    e5: &InferEngine,
    a1: Store,
    ty: Ty,
    p: spec_fn(i32) -> bool,
    ids: Seq<i32>,
)
    requires
        e0.wf(),
        e2.wf(),
        e4.wf(),
        e0.has(ty),
        grows(e0.store(), a1),
        a1.vars.len() == e0.vars@.len(),
        flipped(a1, e2.store(), and_in(p, e0.term(ty))),
        e3.store() == e2.store(),
        grows(e3.store(), e4.store()),
        e4.vars@.len() == e3.vars@.len(),
        e5.store() == e4.store(),
        ids.no_duplicates(),
        ids.len() <= 0xFFFF,
        forall|v: i32| #[trigger] ids.contains(v) <==> p(v) && occurs(v, e0.term(ty)),
        forall|i: int|
            0 <= i < ids.len() ==> var_in(e2.store(), #[trigger] ids[i])
                && e2.vars@[ids[i] as int] is Generic,
    ensures
        forall|t: Ty| e0.has(t) ==> e5.has(t) && #[trigger] e5.term(t) == e0.term(t),
        states_flipped(e0.store(), e5.store(), and_in(p, e0.term(ty))),
        rewritten(closing(e3.store(), ids), e0.term(ty)) == rewritten(
            binding_ids(ids),
            e0.term(ty),
        ),
{
    let a = e0.store();
    let a2 = e2.store();
    let a5 = e5.store();
    assert forall|t: Ty| e0.has(t) implies e5.has(t) && #[trigger] e5.term(t) == e0.term(t) by {
        assert(term(a1, t) == term(a, t));
        assert(a1.live[t.0 as int] == a.live[t.0 as int]);
        lemma_same_links_term(a1, a2, t);
        assert(term(a5, t) == term(a2, t));
        assert(a2.live[t.0 as int] == a5.live[t.0 as int]);
    }
    assert forall|v: i32| var_in(a, v) implies #[trigger] state_flipped(
        a,
        a5,
        and_in(p, e0.term(ty)),
        v,
    ) by {
        assert(a.vars[v as int] is Link <==> a1.vars[v as int] is Link);
        assert(same_link(a1, a2, v as int));
        assert(a2.vars[v as int] is Link <==> a5.vars[v as int] is Link);
        assert(flipped_at(a1, a2, and_in(p, e0.term(ty)), v));
    }
    let l = closing(e3.store(), ids);
    let m = binding_ids(ids);
    assert forall|v: i32| #[trigger] occurs(v, e0.term(ty)) implies (l.var)(v) == (m.var)(v) by {
        if ids.contains(v) {
            let i = ids.index_of(v);
            assert(ids[i] == v);
            assert(var_in(a2, ids[i]));
        }
    }
    lemma_rewritten_same(l, m, e0.term(ty));
}

impl InferEngine {
    /// Quantify over every unsolved variable of a deeper level than the
    /// current one.
    pub fn generalize(&mut self, ty: Ty) -> (r: Scheme)
        requires
            old(self).wf(),
            old(self).has(ty),
            old(self).room_to_generalize(ty, false, None),
        ensures
            r.kind is Local,
            generalized(old(self), final(self), ty, false, None, r),
    {
        self.generalize_impl(ty, false, ValueKind::Local, None)
    }

    /// Module-scope generalization: every unsolved variable, whatever its
    /// level.
    pub fn generalize_top(&mut self, ty: Ty) -> (r: Scheme)
        requires
            old(self).wf(),
            old(self).has(ty),
            old(self).room_to_generalize(ty, true, None),
        ensures
            r.kind matches ValueKind::ModuleFn { param_labels } && param_labels.len == 0,
            generalized(old(self), final(self), ty, true, None, r),
    {
        self.generalize_impl(
            ty,
            true,
            ValueKind::ModuleFn { param_labels: ArenaSlice::new(0, 0) },
            None,
        )
    }

    /// [`generalize`](Self::generalize) under the relaxed value restriction: a
    /// variable reachable under one of the `restricted` constructors stays
    /// unquantified, unless the constructor itself sits under a function. For
    /// a mutable reference, quantifying its parameter would let one live value
    /// be written at one type and read at another.
    pub fn generalize_restricted(&mut self, ty: Ty, restricted: &HashSet<i32>) -> (r: Scheme)
        requires
            old(self).wf(),
            old(self).has(ty),
            old(self).room_to_generalize(ty, false, Some(restricted@)),
        ensures
            r.kind is Local,
            generalized(old(self), final(self), ty, false, Some(restricted@), r),
    {
        self.generalize_impl(ty, false, ValueKind::Local, Some(restricted))
    }

    /// [`generalize_top`](Self::generalize_top) under the relaxed value
    /// restriction.
    pub fn generalize_top_restricted(&mut self, ty: Ty, restricted: &HashSet<i32>) -> (r: Scheme)
        requires
            old(self).wf(),
            old(self).has(ty),
            old(self).room_to_generalize(ty, true, Some(restricted@)),
        ensures
            r.kind matches ValueKind::ModuleFn { param_labels } && param_labels.len == 0,
            generalized(old(self), final(self), ty, true, Some(restricted@), r),
    {
        self.generalize_impl(
            ty,
            true,
            ValueKind::ModuleFn { param_labels: ArenaSlice::new(0, 0) },
            Some(restricted),
        )
    }
}

/// A quantified variable stands for the rigid variable it came from: it was
/// minted in this epoch and that variable is being checked.
pub open spec fn stays_rigid(q: QuantVar, epoch: u32, rigid: Set<i32>) -> bool {
    q.epoch == epoch && match q.origin_id {
        Some(id) => rigid.contains(id),
        None => false,
    }
}

/// How many of the quantified variables need a fresh one.
pub open spec fn fresh_count(qs: Seq<QuantVar>, epoch: u32, rigid: Set<i32>) -> nat
    decreases qs.len(),
{
    if qs.len() == 0 {
        0
    } else {
        fresh_count(qs.drop_last(), epoch, rigid) + if stays_rigid(qs.last(), epoch, rigid) {
            0nat
        } else {
            1nat
        }
    }
}

/// What stands in each quantified variable's place: its rigid variable, or the
/// next fresh one, counting from `base`.
pub open spec fn placed(qs: Seq<QuantVar>, epoch: u32, rigid: Set<i32>, base: nat) -> Seq<Term>
    decreases qs.len(),
{
    if qs.len() == 0 {
        Seq::empty()
    } else {
        let init = qs.drop_last();
        placed(init, epoch, rigid, base).push(
            Term::Var(
                if stays_rigid(qs.last(), epoch, rigid) {
                    qs.last().origin_id->0
                } else {
                    (base + fresh_count(init, epoch, rigid)) as i32
                },
            ),
        )
    }
}

/// The states of the fresh variables.
pub open spec fn fresh_states(
    qs: Seq<QuantVar>,
    epoch: u32,
    rigid: Set<i32>,
    level: i32,
) -> Seq<TyVarState>
    decreases qs.len(),
{
    if qs.len() == 0 {
        Seq::empty()
    } else {
        let init = fresh_states(qs.drop_last(), epoch, rigid, level);
        if stays_rigid(qs.last(), epoch, rigid) {
            init
        } else {
            init.push(TyVarState::Unbound { level, constraint: qs.last().constraint })
        }
    }
}

/// The fresh variables take over the display names.
pub open spec fn passed_on(
    n: Naming,
    strings: Seq<Seq<char>>,
    qs: Seq<QuantVar>,
    epoch: u32,
    rigid: Set<i32>,
    base: nat,
) -> Naming
    decreases qs.len(),
{
    if qs.len() == 0 {
        n
    } else {
        let init = qs.drop_last();
        let m = passed_on(n, strings, init, epoch, rigid, base);
        let q = qs.last();
        if stays_rigid(q, epoch, rigid) || q.name == StrId(0xFFFF_FFFF) {
            m
        } else {
            m.called(
                (base + fresh_count(init, epoch, rigid)) as i32,
                strings[q.name.0 as int],
            )
        }
    }
}

proof fn lemma_fresh_count(qs: Seq<QuantVar>, epoch: u32, rigid: Set<i32>)
    ensures
        fresh_count(qs, epoch, rigid) <= qs.len(),
        forall|level: i32| #[trigger]
            fresh_states(qs, epoch, rigid, level).len() == fresh_count(qs, epoch, rigid),
        forall|base: nat| #[trigger] placed(qs, epoch, rigid, base).len() == qs.len(),
    decreases qs.len(),
{
    if qs.len() > 0 {
        let init = qs.drop_last();
        lemma_fresh_count(init, epoch, rigid);
        assert forall|level: i32| #[trigger] fresh_states(qs, epoch, rigid, level).len()
            == fresh_count(qs, epoch, rigid) by {
            assert(fresh_states(init, epoch, rigid, level).len() == fresh_count(
                init,
                epoch,
                rigid,
            ));
        }
        assert forall|base: nat| #[trigger] placed(qs, epoch, rigid, base).len() == qs.len() by {
            assert(placed(init, epoch, rigid, base).len() == init.len());
        }
    }
}

/// What instantiating a scheme promises.
pub open spec fn instantiated(
    a: &InferEngine,
    b: &InferEngine,
    scheme: Scheme,
    rigid: Set<i32>,
    r: Ty,
) -> bool {
    let qs = covered(a.quants@, scheme.quantified);
    let fresh = fresh_states(qs, a.var_epoch, rigid, a.current_level);
    &&& b.wf()
    &&& grows(a.store(), b.store())
    &&& b.has(r)
    &&& b.term(r) == rewritten(
        opening(placed(qs, a.var_epoch, rigid, a.vars@.len())),
        a.term(scheme.ty),
    )
    &&& b.vars@.len() == a.vars@.len() + fresh.len()
    &&& forall|k: int| 0 <= k < fresh.len() ==> b.vars@[a.vars@.len() + k] == #[trigger] fresh[k]
    &&& b.naming() == passed_on(
        a.naming(),
        a.strings@,
        qs,
        a.var_epoch,
        rigid,
        a.vars@.len(),
    )
    &&& b.strings == a.strings
    &&& b.only_types(a)
    &&& b.current_level == a.current_level
    &&& b.prim_ids == a.prim_ids
    &&& b.diagnostics == a.diagnostics
}

impl InferEngine {
    /// A scheme's type with fresh variables in the place of quantified ones,
    /// which carry on their constraints and display names. While a body is
    /// being checked, a recursive reference to it gets its own rigid variables
    /// back instead.
    pub fn instantiate(&mut self, scheme: &Scheme, rigid_ids: &HashSet<i32>) -> (r: Ty)
        requires
            old(self).wf(),
            old(self).has(scheme.ty),
            scheme.quantified.start + scheme.quantified.len <= old(self).quants@.len(),
            scheme.quantified.len == 0 || bounds_below(
                old(self).term(scheme.ty),
                scheme.quantified.len as int,
            ),
            forall|v: i32| #[trigger]
                rigid_ids@.contains(v) ==> var_in(old(self).store(), v)
                    && old(self).vars@[v as int] is Generic,
            forall|i: int|
                0 <= i < scheme.quantified.len ==> {
                    let q = #[trigger] covered(old(self).quants@, scheme.quantified)[i];
                    q.name == StrId(0xFFFF_FFFF) || q.name.0 < old(self).strings@.len()
                },
            old(self).vars@.len() + scheme.quantified.len <= i32::MAX,
            old(self).room(
                scheme.quantified.len as nat + weight(old(self).term(scheme.ty)),
                weight(old(self).term(scheme.ty)),
            ),
        ensures
            scheme.quantified.len == 0 ==> *final(self) == *old(self) && r == scheme.ty,
            scheme.quantified.len > 0 ==> instantiated(
                old(self),
                final(self),
                *scheme,
                rigid_ids@,
                r,
            ),
    {
        if scheme.quantified.len == 0 {
            return scheme.ty;
        }
        let start: usize = scheme.quantified.start as usize;
        let count: usize = scheme.quantified.len as usize;
        let ghost qs = covered(self.quants@, scheme.quantified);
        let ghost a = *self;
        let ghost s0 = self.store();
        let ghost epoch = self.var_epoch;
        let ghost rigid = rigid_ids@;
        let ghost base = self.vars@.len();
        let mut subst: Vec<Ty> = Vec::new();
        let mut i: usize = 0;
        proof {
            assert(qs.take(0) =~= Seq::empty());
            assert(grows(s0, s0));
            assert(placed(qs.take(0), epoch, rigid, base) =~= Seq::empty());
        }
        while i < count
            invariant
                i <= count,
                count == scheme.quantified.len,
                start == scheme.quantified.start,
                a == *old(self),
                s0 == a.store(),
                a.wf(),
                qs == covered(a.quants@, scheme.quantified),
                qs.len() == count,
                scheme.quantified.start + scheme.quantified.len <= a.quants@.len(),
                epoch == a.var_epoch,
                rigid == rigid_ids@,
                base == a.vars@.len(),
                a.vars@.len() + count <= i32::MAX,
                a.nodes@.len() + count < 0xFFFF_FFFF,
                forall|v: i32| #[trigger]
                    rigid.contains(v) ==> var_in(s0, v) && s0.vars[v as int] is Generic,
                forall|k: int|
                    0 <= k < count ==> (#[trigger] qs[k]).name == StrId(0xFFFF_FFFF)
                        || qs[k].name.0 < a.strings@.len(),
                self.wf(),
                grows(s0, self.store()),
                self.strings == a.strings,
                self.only_types(&a),
                self.current_level == a.current_level,
                self.prim_ids == a.prim_ids,
                self.diagnostics == a.diagnostics,
                self.children == a.children,
                self.nodes@.len() == a.nodes@.len() + i,
                self.vars@.len() == base + fresh_count(qs.take(i as int), epoch, rigid),
                self.vars@.skip(base as int) == fresh_states(
                    qs.take(i as int),
                    epoch,
                    rigid,
                    a.current_level,
                ),
                self.naming() == passed_on(
                    a.naming(),
                    a.strings@,
                    qs.take(i as int),
                    epoch,
                    rigid,
                    base,
                ),
                subst@.len() == i,
                forall|k: int| 0 <= k < i ==> self.has(#[trigger] subst@[k]),
                terms(self.store(), subst@) == placed(qs.take(i as int), epoch, rigid, base),
            decreases count - i,
        {
            proof {
                assert(self.quants@.len() == self.quants.len());
            }
            let q = self.quants[start + i];
            let ghost e1 = *self;
            let ghost s1 = self.store();
            let ghost sub0 = subst@;
            let ghost init = qs.take(i as int);
            let ghost next = qs.take(i + 1);
            proof {
                assert(q == qs[i as int]);
                assert(next.drop_last() =~= init);
                assert(next.last() == q);
                lemma_fresh_count(init, epoch, rigid);
            }
            let rigid_id = match q.origin_id {
                Some(id) => if q.epoch == self.var_epoch && rigid_ids.contains(&id) {
                    Some(id)
                } else {
                    None
                },
                None => None,
            };
            if let Some(id) = rigid_id {
                proof {
                    assert(stays_rigid(q, epoch, rigid));
                    assert(var_in(s0, id));
                }
                let t = self.push(TypeNode::Var(id));
                subst.push(t);
                proof {
                    assert(var_term(s1, id) == var_term(s0, id));
                    lemma_naming_strings(&e1, self);
                }
            } else {
                proof {
                    assert(!stays_rigid(q, epoch, rigid));
                }
                let t = match q.constraint {
                    Some(c) => self.fresh_constrained_var(c),
                    None => self.fresh_var(),
                };
                let ghost e2 = *self;
                proof {
                    lemma_naming_strings(&e1, self);
                    assert(self.vars@.skip(base as int) =~= s1.vars.skip(base as int).push(
                        self.vars@.last(),
                    ));
                }
                if q.name != StrId::none() {
                    self.name_var(t, q.name);
                    proof {
                        lemma_called(&e2, self, (base + fresh_count(init, epoch, rigid)) as i32, q.name);
                    }
                }
                subst.push(t);
            }
            proof {
                let s2 = self.store();
                lemma_grows_trans(s0, s1, s2);
                lemma_args_grow(s1, s2, sub0);
                assert(terms(s2, subst@) =~= terms(s2, sub0).push(term(s2, subst@[i as int])));
                assert forall|k: int| 0 <= k < i + 1 implies self.has(#[trigger] subst@[k]) by {
                    if k < i {
                        assert(subst@[k] == sub0[k]);
                    }
                }
            }
            i += 1;
        }
        proof {
            assert(qs.take(count as int) =~= qs);
            lemma_fresh_count(qs, epoch, rigid);
            let s1 = self.store();
            assert(term(s1, scheme.ty) == term(s0, scheme.ty));
            assert(s1.live[scheme.ty.0 as int] == s0.live[scheme.ty.0 as int]);
        }
        let ghost e1 = *self;
        let ghost s1 = self.store();
        let r = self.open_with(scheme.ty, subst.as_slice());
        proof {
            let s2 = self.store();
            lemma_grows_trans(s0, s1, s2);
            lemma_naming_strings(&e1, self);
            let fresh = fresh_states(qs, epoch, rigid, a.current_level);
            assert forall|k: int| 0 <= k < fresh.len() implies self.vars@[base + k]
                == #[trigger] fresh[k] by {
                assert(s1.vars.skip(base as int)[k] == fresh[k]);
                lemma_fresh_unbound(qs, epoch, rigid, a.current_level, k);
                assert(!(s1.vars[base + k] is Link));
            }
        }
        r
    }

    /// Quantified variables replaced by the types at their index.
    pub(crate) fn open_with(&mut self, ty: Ty, subst: &[Ty]) -> (r: Ty)
        requires
            old(self).wf(),
            old(self).has(ty),
            bounds_below(old(self).term(ty), subst@.len() as int),
            forall|i: int| 0 <= i < subst@.len() ==> old(self).has(#[trigger] subst@[i]),
            old(self).room(weight(old(self).term(ty)), weight(old(self).term(ty))),
        ensures
            final(self).wf(),
            final(self).only_nodes(old(self)),
            final(self).has(r),
            final(self).term(r) == rewritten(
                opening(terms(old(self).store(), subst@)),
                old(self).term(ty),
            ),
    {
        let rw = Rewrite::Open(subst);
        self.rewrite(ty, &rw)
    }

    /// A type body's parameters replaced by `args`, in the order of `params`.
    /// A body refers to a parameter by its variable while it is open, by index
    /// once it is closed; both become the argument.
    pub fn substitute_type_vars(
        &mut self,
        ty: Ty,
        params: ArenaSlice<TypeParams>,
        args: &[Ty],
    ) -> (r: Ty)
        requires
            old(self).wf(),
            old(self).has(ty),
            params.start + params.len <= old(self).type_params@.len(),
            forall|i: int| 0 <= i < args@.len() ==> old(self).has(#[trigger] args@[i]),
            old(self).room(weight(old(self).term(ty)), weight(old(self).term(ty))),
        ensures
            final(self).wf(),
            final(self).only_nodes(old(self)),
            final(self).nodes@.len() <= old(self).nodes@.len() + weight(old(self).term(ty)),
            final(self).children@.len() <= old(self).children@.len() + weight(old(self).term(ty)),
            no_new_names(old(self).store(), final(self).store()),
            final(self).has(r),
            final(self).term(r) == rewritten(
                substituting(
                    covered(old(self).type_params@, params),
                    terms(old(self).store(), args@),
                ),
                old(self).term(ty),
            ),
    {
        let ps = self.params_copy(params);
        let rw = Rewrite::Substitute { params: ps.as_slice(), args };
        self.rewrite(ty, &rw)
    }

    /// As [`substitute_type_vars`](Self::substitute_type_vars), with the
    /// arguments in the children pool.
    pub(crate) fn substitute_type_vars_slice(
        &mut self,
        ty: Ty,
        params: ArenaSlice<TypeParams>,
        args: ArenaSlice<Children>,
    ) -> (r: Ty)
        requires
            old(self).wf(),
            old(self).has(ty),
            params.start + params.len <= old(self).type_params@.len(),
            slice_fits(old(self).store(), args),
            old(self).room(weight(old(self).term(ty)), weight(old(self).term(ty))),
        ensures
            final(self).wf(),
            final(self).only_nodes(old(self)),
            final(self).nodes@.len() <= old(self).nodes@.len() + weight(old(self).term(ty)),
            final(self).children@.len() <= old(self).children@.len() + weight(old(self).term(ty)),
            no_new_names(old(self).store(), final(self).store()),
            final(self).has(r),
            final(self).term(r) == rewritten(
                substituting(
                    covered(old(self).type_params@, params),
                    terms(old(self).store(), covered(old(self).children@, args)),
                ),
                old(self).term(ty),
            ),
    {
        let mut list: Vec<Ty> = Vec::new();
        let part = self.children_of(args);
        let mut i: usize = 0;
        proof {
            assert(part@.take(0) =~= Seq::empty());
        }
        while i < part.len()
            invariant
                i <= part@.len(),
                list@ == part@.take(i as int),
            decreases part@.len() - i,
        {
            list.push(part[i]);
            proof {
                assert(part@.take(i + 1) =~= part@.take(i as int).push(part@[i as int]));
            }
            i += 1;
        }
        proof {
            assert(part@.take(i as int) =~= part@);
            assert forall|k: int| 0 <= k < list@.len() implies self.has(#[trigger] list@[k]) by {
                assert(list@[k] == self.children@[args.start + k]);
            }
        }
        self.substitute_type_vars(ty, params, list.as_slice())
    }

    fn params_copy(&self, params: ArenaSlice<TypeParams>) -> (r: Vec<TypeParam>)
        requires
            params.start + params.len <= self.type_params@.len(),
        ensures
            r@ == covered(self.type_params@, params),
    {
        let part = self.type_params_of(params);
        let mut out: Vec<TypeParam> = Vec::new();
        let mut i: usize = 0;
        proof {
            assert(part@.take(0) =~= Seq::empty());
        }
        while i < part.len()
            invariant
                i <= part@.len(),
                out@ == part@.take(i as int),
            decreases part@.len() - i,
        {
            out.push(part[i]);
            proof {
                assert(part@.take(i + 1) =~= part@.take(i as int).push(part@[i as int]));
            }
            i += 1;
        }
        proof {
            assert(part@.take(i as int) =~= part@);
        }
        out
    }

    /// A type body with its parameters' variables replaced by their indices,
    /// so that it refers to no variable of the engine.
    pub fn close_body(&mut self, ty: Ty, params: ArenaSlice<TypeParams>) -> (r: Ty)
        requires
            old(self).wf(),
            old(self).has(ty),
            params.start + params.len <= old(self).type_params@.len(),
            old(self).room(weight(old(self).term(ty)), weight(old(self).term(ty))),
        ensures
            final(self).wf(),
            final(self).only_nodes(old(self)),
            final(self).has(r),
            final(self).term(r) == rewritten(
                closing_body(covered(old(self).type_params@, params)),
                old(self).term(ty),
            ),
            solid(final(self).store(), r),
    {
        let ps = self.params_copy(params);
        let rw = Rewrite::CloseBody { params: ps.as_slice() };
        self.rewrite(ty, &rw)
    }
}

proof fn lemma_fresh_unbound(qs: Seq<QuantVar>, epoch: u32, rigid: Set<i32>, level: i32, k: int)
    requires
        0 <= k < fresh_states(qs, epoch, rigid, level).len(),
    ensures
        fresh_states(qs, epoch, rigid, level)[k] is Unbound,
    decreases qs.len(),
{
    if qs.len() > 0 {
        let init = fresh_states(qs.drop_last(), epoch, rigid, level);
        if k < init.len() {
            lemma_fresh_unbound(qs.drop_last(), epoch, rigid, level, k);
        }
    }
}

/// A name given is a name given.
proof fn lemma_called(a: &InferEngine, b: &InferEngine, v: i32, name: StrId)
    requires
        a.wf(),
        b.strings == a.strings,
        name.0 < a.strings@.len(),
        b.var_names@ == a.var_names@.insert(v, name),
        b.used_names@ == a.used_names@.insert(name.0),
        b.next_name_uid == a.next_name_uid,
    ensures
        b.naming() == a.naming().called(v, a.strings@[name.0 as int]),
{
    let n = a.naming();
    let text = a.strings@[name.0 as int];
    assert(b.naming().names =~= n.called(v, text).names);
    assert forall|x: Seq<char>| b.naming().used.contains(x) <==> n.called(v, text).used.contains(
        x,
    ) by {
        if claimed(b.strings@, b.used_names@, x) {
            let m = choose|m: u32| #[trigger]
                b.used_names@.contains(m) && b.strings@[m as int] == x;
            if m != name.0 {
                assert(a.used_names@.contains(m) && a.strings@[m as int] == x);
            }
        }
        if n.called(v, text).used.contains(x) {
            if x == text {
                assert(b.used_names@.contains(name.0) && b.strings@[name.0 as int] == x);
            } else {
                let m = choose|m: u32| #[trigger]
                    a.used_names@.contains(m) && a.strings@[m as int] == x;
                assert(b.used_names@.contains(m) && b.strings@[m as int] == x);
            }
        }
    }
    assert(b.naming().used =~= n.called(v, text).used);
}

/// What stands in the place of quantified variables is rigid or counted from
/// `base`.
proof fn lemma_placed(qs: Seq<QuantVar>, epoch: u32, rigid: Set<i32>, base: nat)
    requires
        base + qs.len() <= i32::MAX,
    ensures
        forall|i: int|
            0 <= i < placed(qs, epoch, rigid, base).len() ==> (#[trigger] placed(
                qs,
                epoch,
                rigid,
                base,
            )[i] matches Term::Var(w) && (rigid.contains(w) || w >= base)),
    decreases qs.len(),
{
    if qs.len() > 0 {
        let init = qs.drop_last();
        lemma_placed(init, epoch, rigid, base);
        lemma_fresh_count(init, epoch, rigid);
        let all = placed(qs, epoch, rigid, base);
        assert forall|i: int| 0 <= i < all.len() implies (#[trigger] all[i] matches Term::Var(w)
            && (rigid.contains(w) || w >= base)) by {
            if i < all.len() - 1 {
                assert(all[i] == placed(init, epoch, rigid, base)[i]);
            }
        }
    }
}

/// A variable of an opened term was there or stands for a quantified one.
proof fn lemma_opened_occurs(subst: Seq<Term>, t: Term, v: i32)
    requires
        occurs(v, rewritten(opening(subst), t)),
    ensures
        occurs(v, t) || exists|i: int| 0 <= i < subst.len() && occurs(v, #[trigger] subst[i]),
    decreases t,
{
    let l = opening(subst);
    match t {
        Term::Var(_) => {},
        Term::Bound(i) => {
            if i < subst.len() {
                assert(occurs(v, subst[i as int]));
            }
        },
        Term::Con { id, name, args } => {
            let rs = rewritten_all(l, args);
            let k = choose|k: int| 0 <= k < rs.len() && occurs(v, #[trigger] rs[k]);
            lemma_opened_occurs(subst, args[k], v);
        },
        Term::Fun { params, ret } => {
            if occurs(v, rewritten(l, *ret)) {
                lemma_opened_occurs(subst, *ret, v);
            } else {
                let rs = rewritten_all(l, params);
                let k = choose|k: int| 0 <= k < rs.len() && occurs(v, #[trigger] rs[k]);
                lemma_opened_occurs(subst, params[k], v);
            }
        },
        Term::Tuple { elems } => {
            let rs = rewritten_all(l, elems);
            let k = choose|k: int| 0 <= k < rs.len() && occurs(v, #[trigger] rs[k]);
            lemma_opened_occurs(subst, elems[k], v);
        },
    }
}

/// Two instances share no fresh variable: a variable of both is older than
/// either. The engine went from `a` to `b` by the first instantiation and from
/// `c` to `d` by the second; the second scheme's own variables, and the rigid
/// ones, were there before the first.
pub proof fn law_instances_share_no_fresh_variable(
    a: &InferEngine,
    b: &InferEngine,
    c: &InferEngine,
    d: &InferEngine,
    first: (Scheme, Set<i32>, Ty),
    second: (Scheme, Set<i32>, Ty),
    v: i32,
)
    requires
        instantiated(a, b, first.0, first.1, first.2),
        b.vars@.len() <= c.vars@.len(),
        instantiated(c, d, second.0, second.1, second.2),
        second.0.quantified.start + second.0.quantified.len <= c.quants@.len(),
        c.vars@.len() + second.0.quantified.len <= i32::MAX,
        occurs(v, c.term(second.0.ty)) ==> v < a.vars@.len(),
        second.1.contains(v) ==> v < a.vars@.len(),
        occurs(v, b.term(first.2)),
        occurs(v, d.term(second.2)),
    ensures
        v < a.vars@.len(),
{
    let qs = covered(c.quants@, second.0.quantified);
    let subst = placed(qs, c.var_epoch, second.1, c.vars@.len());
    lemma_term_vars(b.store(), first.2, v);
    lemma_placed(qs, c.var_epoch, second.1, c.vars@.len());
    lemma_opened_occurs(subst, c.term(second.0.ty), v);
    if !occurs(v, c.term(second.0.ty)) {
        let i = choose|i: int| 0 <= i < subst.len() && occurs(v, #[trigger] subst[i]);
        assert(subst[i] == Term::Var(v));
    }
}

} // verus!
