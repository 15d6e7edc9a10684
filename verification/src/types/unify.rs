//! Unification: the occurs check with its level bookkeeping, and the solving
//! of variables.

use crate::types::infer::InferEngine;
use crate::types::node::{
    ArenaSlice, Constraint, could_not_unify, covered, enclosed, Prim, RootVarState, Ty, TyVarState,
    TypeNode, unify_enclosed, UnifyError, UnifyErrorSituation,
};
use crate::types::pool::Children;
use crate::types::term::{
    all_bound_free, as_is, bound_free, compressed, eval, eval_all, in_arena, lemma_bound_free,
    lemma_bound_free_replaced, lemma_compressed_step, lemma_eval_replaced, lemma_link_step,
    lemma_linked, lemma_linked_solves, lemma_meets_frame, lemma_occurs, lemma_occurs_size,
    lemma_replaced_as_is, lemma_replaced_same, lemma_root, lemma_same_links_term,
    lemma_same_type_refines, lemma_step_trans, lemma_term, lemma_term_vars, level_of, linked, live,
    lowered, lowered_at, meets, node_ok, occurs, occurs_any, one, replaced, root, same_link,
    same_links, same_rigid, same_type, Shape, slice_ok, solves, state_ok, step, Store, store_ok,
    Term, term, terms, unbound, var_fits, var_in, var_terms,
};
use vstd::prelude::*;

verus! {

/// The states of the variables that are no link.
pub open spec fn tops(vars: Seq<TyVarState>) -> Seq<Option<TyVarState>> {
    Seq::new(
        vars.len(),
        |v: int|
            if vars[v] is Link {
                None
            } else {
                Some(vars[v])
            },
    )
}

pub open spec fn with_level(s: TyVarState, level: i32) -> TyVarState {
    match s {
        TyVarState::Unbound { level: _, constraint } => TyVarState::Unbound { level, constraint },
        _ => s,
    }
}

/// One entry of the log undone.
pub open spec fn undone(ts: Seq<Option<TyVarState>>, e: (i32, i32)) -> Seq<Option<TyVarState>> {
    match ts[e.0 as int] {
        Some(s) => ts.update(e.0 as int, Some(with_level(s, e.1))),
        None => ts,
    }
}

/// A log of `(variable, level before)` undone, newest first.
pub open spec fn restored(
    ts: Seq<Option<TyVarState>>,
    log: Seq<(i32, i32)>,
) -> Seq<Option<TyVarState>>
    decreases log.len(),
{
    if log.len() == 0 {
        ts
    } else {
        restored(undone(ts, log.last()), log.drop_last())
    }
}

pub open spec fn log_ok(log: Seq<(i32, i32)>, n: int) -> bool {
    forall|i: int| 0 <= i < log.len() ==> 0 <= (#[trigger] log[i]).0 < n
}

proof fn lemma_restored_concat(
    ts: Seq<Option<TyVarState>>,
    l1: Seq<(i32, i32)>,
    l2: Seq<(i32, i32)>,
)
    ensures
        restored(ts, l1 + l2) == restored(restored(ts, l2), l1),
    decreases l2.len(),
{
    if l2.len() == 0 {
        assert(l1 + l2 =~= l1);
    } else {
        assert((l1 + l2).drop_last() =~= l1 + l2.drop_last());
        assert((l1 + l2).last() == l2.last());
        lemma_restored_concat(undone(ts, l2.last()), l1, l2.drop_last());
    }
}

/// The variables of a term.
pub open spec fn in_term(t: Term) -> spec_fn(i32) -> bool {
    |v: i32| occurs(v, t)
}

/// The variables of some terms.
pub open spec fn in_terms(ts: Seq<Term>) -> spec_fn(i32) -> bool {
    |v: i32| occurs_any(v, ts)
}

/// The variables of the first `n` terms.
pub open spec fn in_first(ts: Seq<Term>, n: int) -> spec_fn(i32) -> bool {
    |v: i32| exists|k: int| 0 <= k < n && occurs(v, #[trigger] ts[k])
}

pub open spec fn nowhere() -> spec_fn(i32) -> bool {
    |v: i32| false
}

/// The level of each unsolved variable that `p` picks is brought down to
/// `lvl`; nothing else about the variables that are no link changed.
pub open spec fn adjusted(a: Store, b: Store, lvl: i32, p: spec_fn(i32) -> bool) -> bool {
    forall|v: i32| var_in(a, v) ==> #[trigger] adjusted_at(a, b, lvl, p, v)
}

pub open spec fn adjusted_at(
    a: Store,
    b: Store,
    lvl: i32,
    p: spec_fn(i32) -> bool,
    v: i32,
) -> bool {
    match a.vars[v as int] {
        TyVarState::Unbound { level, constraint } => b.vars[v as int] == (TyVarState::Unbound {
            level: if p(v) && level > lvl {
                lvl
            } else {
                level
            },
            constraint,
        }),
        TyVarState::Generic { id, constraint } => b.vars[v as int] == a.vars[v as int],
        TyVarState::Link { ty } => true,
    }
}

/// What the occurs check promises: links say the same, and the log undoes
/// whatever levels were lowered.
pub open spec fn logged(a: Store, b: Store, before: Seq<(i32, i32)>, after: Seq<(i32, i32)>) -> bool {
    &&& same_links(a, b)
    &&& before.len() <= after.len()
    &&& after.subrange(0, before.len() as int) == before
    &&& log_ok(after.skip(before.len() as int), a.vars.len() as int)
    &&& restored(tops(b.vars), after.skip(before.len() as int)) == tops(a.vars)
}

pub proof fn lemma_same_links_trans(a: Store, b: Store, c: Store)
    requires
        store_ok(a),
        store_ok(b),
        store_ok(c),
        same_links(a, b),
        same_links(b, c),
    ensures
        same_links(a, c),
{
    assert forall|v: int| 0 <= v < a.vars.len() implies #[trigger] same_link(a, c, v) by {
        assert(same_link(a, b, v));
        assert(same_link(b, c, v));
        assert(state_ok(a, v));
        match c.vars[v] {
            TyVarState::Link { ty } => {
                match b.vars[v] {
                    TyVarState::Link { ty: ty1 } => {
                        lemma_same_links_term(a, b, ty);
                        lemma_same_links_term(a, b, ty1);
                    },
                    _ => {},
                }
            },
            _ => {},
        }
    }
}

proof fn lemma_logged_trans(
    a: Store,
    b: Store,
    c: Store,
    l0: Seq<(i32, i32)>,
    l1: Seq<(i32, i32)>,
    l2: Seq<(i32, i32)>,
)
    requires
        store_ok(a),
        store_ok(b),
        store_ok(c),
        logged(a, b, l0, l1),
        logged(b, c, l1, l2),
    ensures
        logged(a, c, l0, l2),
{
    lemma_same_links_trans(a, b, c);
    let n0 = l0.len() as int;
    let n1 = l1.len() as int;
    let x = l1.skip(n0);
    let y = l2.skip(n1);
    assert(l2.skip(n0) =~= x + y) by {
        assert forall|i: int| 0 <= i < l2.len() - n0 implies l2.skip(n0)[i] == (x + y)[i] by {
            if i < x.len() {
                assert(l2.subrange(0, n1)[n0 + i] == l1[n0 + i]);
            }
        }
    }
    assert(l2.subrange(0, n0) =~= l0) by {
        assert forall|i: int| 0 <= i < n0 implies l2.subrange(0, n0)[i] == l0[i] by {
            assert(l2.subrange(0, n1)[i] == l1[i]);
            assert(l1.subrange(0, n0)[i] == l0[i]);
        }
    }
    lemma_restored_concat(tops(c.vars), x, y);
}

/// Compressing paths twice is compressing them.
proof fn lemma_compressed_trans(a: Store, b: Store, c: Store)
    requires
        store_ok(a),
        store_ok(b),
        store_ok(c),
        compressed(a, b),
        compressed(b, c),
    ensures
        compressed(a, c),
{
    lemma_same_links_trans(a, b, c);
    assert forall|v: int| 0 <= v < a.vars.len() && !(a.vars[v] is Link) implies #[trigger] c.vars[v]
        == a.vars[v] by {
        assert(b.vars[v] == a.vars[v]);
    }
}

/// Shortened links log nothing and lower nothing.
proof fn lemma_compressed_logged(a: Store, b: Store, log: Seq<(i32, i32)>)
    requires
        store_ok(a),
        store_ok(b),
        compressed(a, b),
    ensures
        logged(a, b, log, log),
{
    assert(log.skip(log.len() as int) =~= Seq::empty());
    assert(log.subrange(0, log.len() as int) =~= log);
    assert(tops(b.vars) =~= tops(a.vars)) by {
        assert forall|v: int| 0 <= v < a.vars.len() implies tops(b.vars)[v] == tops(a.vars)[v] by {
            assert(same_link(a, b, v));
        }
    }
}

impl InferEngine {
    /// State of a variable that is no link.
    pub fn root_var(&self, id: i32) -> (r: RootVarState)
        requires
            0 <= id < self.vars@.len(),
            !(self.vars@[id as int] is Link),
        ensures
            match r {
                RootVarState::Unbound { level, constraint } => self.vars@[id as int]
                    == (TyVarState::Unbound { level, constraint }),
                RootVarState::Generic { id: g, constraint } => self.vars@[id as int]
                    == (TyVarState::Generic { id: g, constraint }),
            },
    {
        match self.vars[id as usize] {
            TyVarState::Unbound { level, constraint } => RootVarState::Unbound { level, constraint },
            TyVarState::Generic { id, constraint } => RootVarState::Generic { id, constraint },
            TyVarState::Link { ty } => RootVarState::Unbound { level: 0, constraint: None },
        }
    }

    /// Undo the level lowering a failed unification performed. Left in place, a
    /// lowered level makes a later generalization skip a variable it should
    /// have quantified.
    fn restore_levels(&mut self, log: &Vec<(i32, i32)>)
        requires
            old(self).wf(),
            log_ok(log@, old(self).vars@.len() as int),
        ensures
            final(self).wf(),
            final(self).only_vars(old(self)),
            final(self).rank == old(self).rank,
            tops(final(self).vars@) == restored(tops(old(self).vars@), log@),
            forall|v: int|
                0 <= v < old(self).vars@.len() && old(self).vars@[v] is Link ==> #[trigger] final(self).vars@[v]
                    == old(self).vars@[v],
    {
        let mut i: usize = log.len();
        proof {
            assert(log@.subrange(0, i as int) =~= log@);
        }
        while i > 0
            invariant
                i <= log@.len(),
                self.wf(),
                self.only_vars(old(self)),
                self.rank == old(self).rank,
                log_ok(log@, old(self).vars@.len() as int),
                restored(tops(self.vars@), log@.subrange(0, i as int)) == restored(
                    tops(old(self).vars@),
                    log@,
                ),
                forall|v: int|
                    0 <= v < old(self).vars@.len() && old(self).vars@[v] is Link
                        ==> #[trigger] self.vars@[v] == old(self).vars@[v],
                forall|v: int|
                    0 <= v < old(self).vars@.len() && !(old(self).vars@[v] is Link) ==> !(
                    #[trigger] self.vars@[v] is Link),
            decreases i,
        {
            i -= 1;
            let (id, old_level) = log[i];
            let ghost pre = self.vars@;
            let ghost part = log@.subrange(0, i + 1);
            proof {
                assert(part.last() == log@[i as int]);
                assert(part.drop_last() =~= log@.subrange(0, i as int));
                assert(log@[i as int].0 < self.vars@.len());
            }
            let ghost before = self.store();
            match self.vars[id as usize] {
                TyVarState::Unbound { level, constraint } => {
                    self.vars.set(id as usize, TyVarState::Unbound { level: old_level, constraint });
                    proof {
                        lemma_store_states(before, self.store());
                    }
                },
                _ => {},
            }
            proof {
                assert(tops(self.vars@) =~= undone(tops(pre), log@[i as int]));
            }
        }
        proof {
            assert(log@.subrange(0, 0) =~= Seq::empty());
        }
    }

    /// Whether `var_id` occurs in `t`, lowering every unsolved variable in `t`
    /// to `var_level` on the way: binding a variable at some level to a type
    /// must lower what is inside it, or an inner variable observable from an
    /// outer scope gets quantified at the wrong level. What was lowered goes to
    /// the log.
    fn occurs_and_adjust_logged(
        &mut self,
        var_id: i32,
        var_level: i32,
        t: Ty,
        log: &mut Vec<(i32, i32)>,
    ) -> (r: bool)
        requires
            old(self).wf(),
            old(self).has(t),
        ensures
            final(self).wf(),
            final(self).only_vars(old(self)),
            final(self).rank == old(self).rank,
            r == occurs(var_id, old(self).term(t)),
            logged(old(self).store(), final(self).store(), old(log)@, final(log)@),
            !r ==> adjusted(
                old(self).store(),
                final(self).store(),
                var_level,
                in_term(old(self).term(t)),
            ),
        decreases old(self).rank@[t.0 as int], 1nat,
    {
        let ghost a = self.store();
        let r = self.find(t);
        let ghost b = self.store();
        let ghost log0 = log@;
        proof {
            lemma_root(a, t);
            lemma_compressed_step(a, b);
            lemma_compressed_logged(a, b, log0);
            assert(root(a, t) == r);
            assert(term(b, r) == term(a, t));
            lemma_term(b, r);
            assert forall|v: i32| var_in(a, v) implies #[trigger] adjusted_at(
                a,
                b,
                var_level,
                nowhere(),
                v,
            ) by {
                assert(same_link(a, b, v as int));
            }
        }
        match self.node(r) {
            TypeNode::Var(id) => {
                proof {
                    assert(same_link(a, b, id as int));
                }
                if id == var_id {
                    return true;
                }
                if let RootVarState::Unbound { level, constraint } = self.root_var(id) {
                    if level > var_level {
                        log.push((id, level));
                        self.vars.set(
                            id as usize,
                            TyVarState::Unbound { level: var_level, constraint },
                        );
                        proof {
                            let c = self.store();
                            lemma_store_states(b, c);
                            let ext = log@.skip(log0.len() as int);
                            assert(ext =~= seq![(id, level)]);
                            assert(ext.drop_last() =~= Seq::empty());
                            assert(log@.subrange(0, log0.len() as int) =~= log0);
                            assert(restored(tops(c.vars), ext) == restored(
                                undone(tops(c.vars), ext.last()),
                                Seq::<(i32, i32)>::empty(),
                            ));
                            assert(undone(tops(c.vars), ext.last()) =~= tops(b.vars));
                            assert(same_links(b, c)) by {
                                assert forall|v: int| 0 <= v < b.vars.len() implies #[trigger] same_link(
                                    b,
                                    c,
                                    v,
                                ) by {
                                    assert(state_ok(b, v));
                                }
                            }
                            assert(logged(b, c, log0, log@));
                            lemma_logged_trans(a, b, c, log0, log0, log@);
                        }
                    }
                }
                proof {
                    assert forall|v: i32| var_in(a, v) implies #[trigger] adjusted_at(
                        a,
                        self.store(),
                        var_level,
                        in_term(old(self).term(t)),
                        v,
                    ) by {
                        assert(same_link(a, b, v as int));
                        assert(occurs(v, term(a, t)) == (v == id));
                    }
                }
                false
            },
            TypeNode::Bound(_) => {
                proof {
                    assert forall|v: i32| var_in(a, v) implies #[trigger] adjusted_at(
                        a,
                        self.store(),
                        var_level,
                        in_term(old(self).term(t)),
                        v,
                    ) by {
                        assert(adjusted_at(a, b, var_level, nowhere(), v));
                    }
                }
                false
            },
            TypeNode::Con { id, name, args } => {
                let o = self.occurs_slice(var_id, var_level, args, log, r);
                proof {
                    lemma_slice_in(a, b, self.store(), t, terms(b, covered(b.kids, args)), var_level, log0, log@);
                    lemma_occurs(var_id, term(a, t));
                    if !o {
                        lemma_adjusted_same(
                            a,
                            self.store(),
                            var_level,
                            in_terms(terms(b, covered(b.kids, args))),
                            in_term(old(self).term(t)),
                            term(a, t),
                        );
                    }
                }
                o
            },
            TypeNode::Fun { params, ret } => {
                if self.occurs_slice(var_id, var_level, params, log, r) {
                    proof {
                        lemma_slice_in(a, b, self.store(), t, terms(b, covered(b.kids, params)), var_level, log0, log@);
                        lemma_occurs(var_id, term(a, t));
                    }
                    return true;
                }
                let ghost c = self.store();
                let ghost log1 = log@;
                proof {
                    lemma_same_links_term(b, c, ret);
                }
                let o = self.occurs_and_adjust_logged(var_id, var_level, ret, log);
                proof {
                    let d = self.store();
                    lemma_logged_trans(a, b, c, log0, log0, log1);
                    lemma_logged_trans(a, c, d, log0, log1, log@);
                    lemma_occurs(var_id, term(a, t));
                    if !o {
                        let p = in_terms(terms(b, covered(b.kids, params)));
                        let q = in_term(term(c, ret));
                        assert forall|v: i32| var_in(a, v) implies #[trigger] adjusted_at(
                            a,
                            d,
                            var_level,
                            in_term(old(self).term(t)),
                            v,
                        ) by {
                            lemma_occurs(v, term(a, t));
                            assert(same_link(a, b, v as int));
                            assert(same_link(b, c, v as int));
                            assert(adjusted_at(b, c, var_level, p, v));
                            assert(adjusted_at(c, d, var_level, q, v));
                        }
                    }
                }
                o
            },
            TypeNode::Tuple { elems } => {
                let o = self.occurs_slice(var_id, var_level, elems, log, r);
                proof {
                    lemma_slice_in(a, b, self.store(), t, terms(b, covered(b.kids, elems)), var_level, log0, log@);
                    lemma_occurs(var_id, term(a, t));
                    if !o {
                        lemma_adjusted_same(
                            a,
                            self.store(),
                            var_level,
                            in_terms(terms(b, covered(b.kids, elems))),
                            in_term(old(self).term(t)),
                            term(a, t),
                        );
                    }
                }
                o
            },
        }
    }

    fn occurs_slice(
        &mut self,
        var_id: i32,
        var_level: i32,
        sl: ArenaSlice<Children>,
        log: &mut Vec<(i32, i32)>,
        whole: Ty,
    ) -> (r: bool)
        requires
            old(self).wf(),
            old(self).has(whole),
            slice_ok(old(self).store(), sl, old(self).rank@[whole.0 as int]),
        ensures
            final(self).wf(),
            final(self).only_vars(old(self)),
            final(self).rank == old(self).rank,
            r == occurs_any(var_id, terms(old(self).store(), covered(old(self).children@, sl))),
            logged(old(self).store(), final(self).store(), old(log)@, final(log)@),
            !r ==> adjusted(
                old(self).store(),
                final(self).store(),
                var_level,
                in_terms(terms(old(self).store(), covered(old(self).children@, sl))),
            ),
        decreases old(self).rank@[whole.0 as int], 0nat,
    {
        let ghost a = self.store();
        let ghost log0 = log@;
        let ghost ks = covered(a.kids, sl);
        let ghost ts = terms(a, ks);
        let start: usize = sl.start as usize;
        let mut i: usize = 0;
        proof {
            assert(compressed(a, a)) by {
                assert forall|v: int| 0 <= v < a.vars.len() implies #[trigger] same_link(a, a, v) by {
                    assert(state_ok(a, v));
                }
            }
            lemma_compressed_logged(a, a, log0);
        }
        while i < sl.len as usize
            invariant
                0 <= i <= sl.len,
                start == sl.start,
                a == old(self).store(),
                store_ok(a),
                self.wf(),
                self.only_vars(old(self)),
                self.rank == old(self).rank,
                in_arena(a, whole),
                slice_ok(a, sl, a.rank[whole.0 as int]),
                ks == covered(a.kids, sl),
                ts == terms(a, ks),
                log0 == old(log)@,
                logged(a, self.store(), log0, log@),
                forall|k: int| 0 <= k < i ==> !occurs(var_id, #[trigger] ts[k]),
                adjusted(
                    a,
                    self.store(),
                    var_level,
                    in_first(ts, i as int),
                ),
            decreases sl.len - i,
        {
            let kid = self.children[start + i];
            let ghost b = self.store();
            let ghost log1 = log@;
            proof {
                assert(a.kids[start + i] == kid);
                assert(ks[i as int] == kid);
                lemma_same_links_term(a, b, kid);
            }
            if self.occurs_and_adjust_logged(var_id, var_level, kid, log) {
                proof {
                    lemma_logged_trans(a, b, self.store(), log0, log1, log@);
                    assert(occurs(var_id, ts[i as int]));
                }
                return true;
            }
            proof {
                let c = self.store();
                lemma_logged_trans(a, b, c, log0, log1, log@);
                let p = in_first(ts, i as int);
                let p2 = in_first(ts, i + 1);
                let q = in_term(term(b, kid));
                assert forall|v: i32| var_in(a, v) implies #[trigger] adjusted_at(
                    a,
                    c,
                    var_level,
                    p2,
                    v,
                ) by {
                    assert(same_link(a, b, v as int));
                    assert(adjusted_at(a, b, var_level, p, v));
                    assert(adjusted_at(b, c, var_level, q, v));
                    assert(ts[i as int] == term(b, kid));
                    assert(p2(v) == (p(v) || q(v))) by {
                        if p2(v) {
                            let k = choose|k: int| 0 <= k < i + 1 && occurs(v, #[trigger] ts[k]);
                            if k < i {
                                assert(p(v));
                            }
                        }
                        if p(v) {
                            let k = choose|k: int| 0 <= k < i && occurs(v, #[trigger] ts[k]);
                            assert(0 <= k < i + 1 && occurs(v, ts[k]));
                        }
                        if q(v) {
                            assert(occurs(v, ts[i as int]));
                        }
                    }
                }
            }
            i += 1;
        }
        proof {
            let p = in_first(ts, i as int);
            assert forall|v: i32| var_in(a, v) implies #[trigger] adjusted_at(
                a,
                self.store(),
                var_level,
                in_terms(terms(old(self).store(), covered(old(self).children@, sl))),
                v,
            ) by {
                assert(adjusted_at(a, self.store(), var_level, p, v));
                assert(p(v) == occurs_any(v, ts));
            }
        }
        false
    }
}

/// Lowering through a node's children after its links were shortened.
proof fn lemma_slice_in(
    a: Store,
    b: Store,
    c: Store,
    t: Ty,
    ts: Seq<Term>,
    lvl: i32,
    log0: Seq<(i32, i32)>,
    log1: Seq<(i32, i32)>,
)
    requires
        store_ok(a),
        store_ok(b),
        store_ok(c),
        compressed(a, b),
        logged(b, c, log0, log1),
    ensures
        logged(a, c, log0, log1),
        adjusted(b, c, lvl, in_terms(ts)) ==> adjusted(
            a,
            c,
            lvl,
            in_terms(ts),
        ),
{
    lemma_compressed_logged(a, b, log0);
    lemma_logged_trans(a, b, c, log0, log0, log1);
    let p = in_terms(ts);
    if adjusted(b, c, lvl, p) {
        assert forall|v: i32| var_in(a, v) implies #[trigger] adjusted_at(a, c, lvl, p, v) by {
            assert(same_link(a, b, v as int));
            assert(adjusted_at(b, c, lvl, p, v));
        }
    }
}

proof fn lemma_adjusted_same(
    a: Store,
    b: Store,
    lvl: i32,
    p: spec_fn(i32) -> bool,
    q: spec_fn(i32) -> bool,
    t: Term,
)
    requires
        adjusted(a, b, lvl, p),
        forall|v: i32| #[trigger] q(v) == occurs(v, t),
        match t {
            Term::Con { id, name, args } => forall|v: i32| #[trigger] p(v) == occurs_any(v, args),
            Term::Tuple { elems } => forall|v: i32| #[trigger] p(v) == occurs_any(v, elems),
            _ => false,
        },
    ensures
        adjusted(a, b, lvl, q),
{
    assert forall|v: i32| var_in(a, v) implies #[trigger] adjusted_at(a, b, lvl, q, v) by {
        assert(adjusted_at(a, b, lvl, p, v));
        lemma_occurs(v, t);
        assert(q(v) == p(v));
    }
}

/// Changing levels and constraints leaves the store in order.
pub proof fn lemma_store_states(a: Store, b: Store)
    requires
        store_ok(a),
        b.nodes == a.nodes,
        b.live == a.live,
        b.kids == a.kids,
        b.rank == a.rank,
        b.vars.len() == a.vars.len(),
        forall|v: int|
            0 <= v < a.vars.len() ==> #[trigger] b.vars[v] == a.vars[v] || (b.vars[v] is Unbound
                && !(a.vars[v] is Link)),
    ensures
        store_ok(b),
{
    assert forall|t: int| live(b, t) implies #[trigger] node_ok(b, t) by {
        assert(node_ok(a, t));
    }
    assert forall|v: int| 0 <= v < b.vars.len() implies #[trigger] state_ok(b, v) by {
        assert(state_ok(a, v));
    }
}

/// The store `b` is the store `a` with the types at `t` and `u` made one: its
/// solutions are the solutions of `a` that give the two one shape, no more and
/// no fewer.
pub open spec fn unified(a: Store, b: Store, t: Ty, u: Ty) -> bool {
    &&& forall|m: spec_fn(i32) -> Shape| #[trigger]
        solves(b, m) <==> solves(a, m) && eval(m, term(a, t)) == eval(m, term(a, u))
    &&& same_type(term(b, t), term(b, u))
}

/// No solution gives the types at `t` and `u` one shape.
pub open spec fn apart(a: Store, t: Ty, u: Ty) -> bool {
    forall|m: spec_fn(i32) -> Shape| #[trigger]
        solves(a, m) ==> eval(m, term(a, t)) != eval(m, term(a, u))
}

pub open spec fn keeps_bound_free(a: Store, b: Store) -> bool {
    forall|t: Ty|
        in_arena(a, t) && bound_free(term(a, t)) ==> bound_free(#[trigger] term(b, t))
}

/// Why two types that are no variables cannot be one at the outermost level.
pub open spec fn clash(s: Store, t: Ty, u: Ty) -> Option<UnifyError> {
    let plain = Some(
        UnifyError::CouldNotUnify { expected: root(s, t), given: root(s, u), situation: None },
    );
    match (s.nodes[root(s, t).0 as int], s.nodes[root(s, u).0 as int]) {
        (
            TypeNode::Con { id: ia, name: na, args: aa },
            TypeNode::Con { id: ib, name: nb, args: ab },
        ) => if ia != ib || aa.len != ab.len {
            plain
        } else {
            None
        },
        (
            TypeNode::Fun { params: pa, ret: ra },
            TypeNode::Fun { params: pb, ret: rb },
        ) => if pa.len != pb.len {
            Some(
                UnifyError::CouldNotUnify {
                    expected: root(s, t),
                    given: root(s, u),
                    situation: Some(
                        UnifyErrorSituation::FunctionArity {
                            expected: pa.len as usize,
                            given: pb.len as usize,
                        },
                    ),
                },
            )
        } else {
            None
        },
        (TypeNode::Tuple { elems: ea }, TypeNode::Tuple { elems: eb }) => if ea.len != eb.len {
            plain
        } else {
            None
        },
        _ => plain,
    }
}

/// One of the two types is an unsolved variable that the other, a larger type,
/// mentions.
pub open spec fn recursive(s: Store, t: Ty, u: Ty) -> bool {
    match (term(s, t), term(s, u)) {
        (Term::Var(v), w) => s.vars[v as int] is Unbound && w != Term::Var(v) && occurs(v, w),
        (w, Term::Var(v)) => s.vars[v as int] is Unbound && occurs(v, w),
        _ => false,
    }
}

/// The types a type is made of at the outermost level, a function's result
/// after its parameters.
pub open spec fn parts(s: Store, t: Ty) -> Seq<Ty> {
    match s.nodes[root(s, t).0 as int] {
        TypeNode::Con { id, name, args } => covered(s.kids, args),
        TypeNode::Fun { params, ret } => covered(s.kids, params).push(ret),
        TypeNode::Tuple { elems } => covered(s.kids, elems),
        _ => Seq::empty(),
    }
}

/// The store `c` is the store `a` with the first `k` pairs made one: its
/// solutions are those of `a` that give each of these pairs one shape.
pub open spec fn reached(a: Store, c: Store, ka: Seq<Ty>, kb: Seq<Ty>, k: int) -> bool {
    &&& step(a, c)
    &&& forall|m: spec_fn(i32) -> Shape| #[trigger]
        solves(c, m) <==> solves(a, m) && agree_first(m, a, ka, kb, k)
}

/// How a unification failed, `deep` levels in, and what it left behind.
///
/// With a variable on either side the error tells a recursive type from any
/// other mismatch; with a clash at the outermost level it is that clash; and
/// nothing was solved. Otherwise the parts before some pair were made one, that
/// pair failed, and its error is told of the outermost types.
pub open spec fn failed(a: Store, b: Store, t: Ty, u: Ty, e: UnifyError, deep: nat) -> bool
    decreases deep,
{
    if term(a, t) is Var || term(a, u) is Var {
        &&& deep == 0
        &&& compressed(a, b)
        &&& e == if recursive(a, t, u) {
            UnifyError::RecursiveType
        } else {
            mismatch(root(a, t), root(a, u))
        }
    } else if clash(a, t, u) is Some {
        &&& deep == 0
        &&& compressed(a, b)
        &&& clash(a, t, u) == Some(e)
    } else {
        &&& deep > 0
        &&& exists|c: Store, k: int, inner: UnifyError|
            #![trigger reached(a, c, parts(a, t), parts(a, u), k), enclosed(inner, root(a, t), root(a, u))]
            {
                &&& 0 <= k < parts(a, t).len()
                &&& reached(a, c, parts(a, t), parts(a, u), k)
                &&& failed(c, b, parts(a, t)[k], parts(a, u)[k], inner, (deep - 1) as nat)
                &&& e == enclosed(inner, root(a, t), root(a, u))
            }
    }
}

/// The error of two types that cannot be one, with nothing more to tell.
pub open spec fn mismatch(expected: Ty, given: Ty) -> UnifyError {
    UnifyError::CouldNotUnify { expected, given, situation: None }
}

/// The type at `t` is a variable still to be solved.
pub open spec fn open_at(s: Store, t: Ty) -> bool {
    term(s, t) matches Term::Var(v) && s.vars[v as int] is Unbound
}

/// The variable that the type at `t` is, when it is still to be solved and asks
/// for nothing.
pub open spec fn free_at(s: Store, t: Ty) -> Option<i32> {
    match term(s, t) {
        Term::Var(v) => match s.vars[v as int] {
            TyVarState::Unbound { level, constraint: None } => Some(v),
            _ => None,
        },
        _ => None,
    }
}

/// Types with one representative keep one.
pub open spec fn keeps_roots(a: Store, c: Store) -> bool {
    forall|t: Ty| in_arena(a, t) ==> #[trigger] root(c, t) == root(c, root(a, t))
}

/// The store `c` is the store `a` with the variable `v` bound to the type at
/// `ty`: it stands for that type wherever it stood, and the variables of that
/// type are lowered to its level. Nothing else changed.
pub open spec fn bound_to(a: Store, c: Store, v: i32, ty: Ty) -> bool {
    &&& c.vars.len() == a.vars.len()
    &&& c.vars[v as int] == (TyVarState::Link { ty: root(a, ty) })
    &&& forall|u: i32|
        var_in(a, u) && u != v ==> #[trigger] adjusted_at(
            a,
            c,
            level_of(a.vars[v as int]) as i32,
            in_term(term(a, ty)),
            u,
        )
    &&& forall|t: Ty|
        in_arena(a, t) ==> #[trigger] term(c, t) == replaced(one(v, term(a, ty)), term(a, t))
}

/// A mismatch is told of the representatives of the two types.
pub proof fn law_mismatch_names_the_representatives(a: Store, b: Store, t: Ty, u: Ty, e: UnifyError, deep: nat)
    requires
        failed(a, b, t, u, e, deep),
    ensures
        e matches UnifyError::CouldNotUnify { expected, given, situation } ==> expected == root(a, t)
            && given == root(a, u),
{
}

/// What unification leaves behind, whether it succeeded or not.
pub open spec fn unify_result(
    a: Store,
    b: Store,
    t: Ty,
    u: Ty,
    r: Result<(), UnifyError>,
) -> bool {
    &&& step(a, b)
    &&& keeps_bound_free(a, b)
    &&& match r {
        Ok(_) => unified(a, b, t, u),
        Err(e) => apart(a, t, u) && exists|deep: nat| #[trigger] failed(a, b, t, u, e, deep),
    }
}

/// Some solution gives the types at `t` and `u` one shape.
pub open spec fn unifiable(s: Store, t: Ty, u: Ty) -> bool {
    exists|m: spec_fn(i32) -> Shape| #[trigger]
        solves(s, m) && eval(m, term(s, t)) == eval(m, term(s, u))
}

/// The shape a type has when every unsolved variable is taken for the plainest
/// thing it allows.
spec fn plain(s: Store, t: Ty) -> Shape
    decreases s.rank[t.0 as int], 1nat,
    when store_ok(s) && in_arena(s, t)
{
    proof {
        assert(node_ok(s, t.0 as int));
    }
    match s.nodes[t.0 as int] {
        TypeNode::Var(v) => match s.vars[v as int] {
            TyVarState::Link { ty } => plain(s, ty),
            _ => plain_var(s, v),
        },
        TypeNode::Bound(i) => Shape::Bound(i),
        TypeNode::Con { id, name, args } => Shape::Con {
            id,
            args: plains(s, covered(s.kids, args), s.rank[t.0 as int]),
        },
        TypeNode::Fun { params, ret } => Shape::Fun {
            params: plains(s, covered(s.kids, params), s.rank[t.0 as int]),
            ret: Box::new(plain(s, ret)),
        },
        TypeNode::Tuple { elems } => Shape::Tuple {
            elems: plains(s, covered(s.kids, elems), s.rank[t.0 as int]),
        },
    }
}

spec fn plains(s: Store, ts: Seq<Ty>, below: nat) -> Seq<Shape>
    decreases below, 0nat,
    when store_ok(s)
{
    Seq::new(
        ts.len(),
        |i: int|
            if 0 <= i < ts.len() && in_arena(s, ts[i]) && s.rank[ts[i].0 as int] < below {
                plain(s, ts[i])
            } else {
                Shape::Bound(0)
            },
    )
}

spec fn plain_var(s: Store, v: i32) -> Shape {
    match s.vars[v as int] {
        TyVarState::Unbound { level, constraint: Some(c) } => Shape::Con {
            id: s.prims.int,
            args: Seq::empty(),
        },
        TyVarState::Generic { id, constraint } => Shape::Var(v),
        _ => Shape::Tuple { elems: Seq::empty() },
    }
}

spec fn plain_solution(s: Store) -> spec_fn(i32) -> Shape {
    |v: i32|
        match s.vars[v as int] {
            TyVarState::Link { ty } => plain(s, ty),
            _ => plain_var(s, v),
        }
}

proof fn lemma_plain(s: Store, t: Ty)
    requires
        store_ok(s),
        in_arena(s, t),
    ensures
        eval(plain_solution(s), term(s, t)) == plain(s, t),
    decreases s.rank[t.0 as int], 1nat,
{
    lemma_term(s, t);
    match s.nodes[t.0 as int] {
        TypeNode::Var(v) => match s.vars[v as int] {
            TyVarState::Link { ty } => lemma_plain(s, ty),
            _ => {},
        },
        TypeNode::Bound(_) => {},
        TypeNode::Con { id, name, args } => lemma_plains(s, args, t),
        TypeNode::Fun { params, ret } => {
            lemma_plains(s, params, t);
            lemma_plain(s, ret);
        },
        TypeNode::Tuple { elems } => lemma_plains(s, elems, t),
    }
}

proof fn lemma_plains(s: Store, sl: ArenaSlice<Children>, whole: Ty)
    requires
        store_ok(s),
        in_arena(s, whole),
        slice_ok(s, sl, s.rank[whole.0 as int]),
    ensures
        eval_all(plain_solution(s), terms(s, covered(s.kids, sl))) == plains(
            s,
            covered(s.kids, sl),
            s.rank[whole.0 as int],
        ),
    decreases s.rank[whole.0 as int], 0nat,
{
    let ks = covered(s.kids, sl);
    let x = eval_all(plain_solution(s), terms(s, ks));
    let y = plains(s, ks, s.rank[whole.0 as int]);
    assert forall|i: int| 0 <= i < ks.len() implies x[i] == y[i] by {
        assert(ks[i] == s.kids[sl.start + i]);
        lemma_plain(s, ks[i]);
    }
    assert(x =~= y);
}

/// What the engine knows never contradicts itself: there is always a solution.
pub proof fn law_solvable(s: Store)
    requires
        store_ok(s),
    ensures
        exists|m: spec_fn(i32) -> Shape| #[trigger] solves(s, m),
{
    let m = plain_solution(s);
    assert forall|v: i32| var_in(s, v) implies #[trigger] var_fits(s, m, v) by {
        assert(state_ok(s, v as int));
        match s.vars[v as int] {
            TyVarState::Link { ty } => {
                lemma_plain(s, ty);
            },
            TyVarState::Unbound { level, constraint } => match constraint {
                Some(c) => {
                    assert(s.prims.spec_prim_of(s.prims.int) == Some(Prim::Int));
                },
                None => {},
            },
            _ => {},
        }
    }
    assert(solves(s, m));
}

/// Unification succeeds exactly when some solution makes the two types one.
pub proof fn law_unify_iff_unifiable(
    a: Store,
    b: Store,
    t: Ty,
    u: Ty,
    r: Result<(), UnifyError>,
)
    requires
        unify_result(a, b, t, u, r),
    ensures
        r is Ok <==> unifiable(a, t, u),
{
    if r is Ok {
        law_solvable(b);
        let m = choose|m: spec_fn(i32) -> Shape| #[trigger] solves(b, m);
        assert(solves(a, m) && eval(m, term(a, t)) == eval(m, term(a, u)));
    } else if unifiable(a, t, u) {
        let m = choose|m: spec_fn(i32) -> Shape| #[trigger]
            solves(a, m) && eval(m, term(a, t)) == eval(m, term(a, u));
        assert(solves(a, m));
    }
}

/// An unsolved variable that asks for nothing goes with any type that does not
/// mention it, and one that asks for a primitive goes with no function.
pub proof fn law_variable_unifies(s: Store, v: i32, t: Ty, u: Ty)
    requires
        store_ok(s),
        in_arena(s, t),
        in_arena(s, u),
        term(s, t) == Term::Var(v),
        s.vars[v as int] is Unbound,
    ensures
        s.vars[v as int]->Unbound_constraint is None && !occurs(v, term(s, u)) ==> unifiable(
            s,
            t,
            u,
        ),
        s.vars[v as int]->Unbound_constraint is Some && term(s, u) is Fun ==> !unifiable(s, t, u),
{
    lemma_term_vars(s, t, v);
    if s.vars[v as int]->Unbound_constraint is None && !occurs(v, term(s, u)) {
        lemma_linked(s, v, u);
        let c = linked(s, v, u);
        law_solvable(c);
        let m = choose|m: spec_fn(i32) -> Shape| #[trigger] solves(c, m);
        lemma_linked_solves(s, v, u, m);
        assert(var_fits(s, m, v));
        assert(solves(s, m)) by {
            assert forall|w: i32| var_in(s, w) implies #[trigger] var_fits(s, m, w) by {}
        }
        assert(solves(s, m) && eval(m, term(s, t)) == eval(m, term(s, u)));
    }
    if s.vars[v as int]->Unbound_constraint is Some && term(s, u) is Fun && unifiable(s, t, u) {
        let m = choose|m: spec_fn(i32) -> Shape| #[trigger]
            solves(s, m) && eval(m, term(s, t)) == eval(m, term(s, u));
        assert(var_fits(s, m, v));
    }
}

/// What a variable with a constraint can become. A numeric one unifies with Int
/// and with Float, an addable one with String too, and neither with any other
/// nominal type, a tuple or a function. It does not matter which side it is on.
pub proof fn law_constrained_variable_takes(
    a: Store,
    b: Store,
    t: Ty,
    u: Ty,
    swapped: bool,
    r: Result<(), UnifyError>,
    v: i32,
    c: Constraint,
)
    requires
        store_ok(a),
        in_arena(a, t),
        in_arena(a, u),
        if swapped {
            unify_result(a, b, u, t, r)
        } else {
            unify_result(a, b, t, u, r)
        },
        term(a, t) == Term::Var(v),
        a.vars[v as int] matches TyVarState::Unbound { level, constraint } && constraint == Some(c),
    ensures
        term(a, u) matches Term::Con { id, name, args } ==> {
            &&& args.len() == 0 && id == a.prims.int ==> r is Ok
            &&& args.len() == 0 && id == a.prims.float ==> r is Ok
            &&& args.len() == 0 && id == a.prims.string && c is Addable ==> r is Ok
            &&& id == a.prims.string && id != a.prims.int && id != a.prims.float
                && c is Numeric ==> r is Err
            &&& id != a.prims.int && id != a.prims.float && id != a.prims.string ==> r is Err
        },
        term(a, u) is Tuple || term(a, u) is Fun ==> r is Err,
{
    lemma_term_vars(a, t, v);
    if swapped {
        law_unify_iff_unifiable(a, b, u, t, r);
    } else {
        law_unify_iff_unifiable(a, b, t, u, r);
    }
    if unifiable(a, t, u) || unifiable(a, u, t) {
        let m = choose|m: spec_fn(i32) -> Shape| #[trigger]
            solves(a, m) && (eval(m, term(a, t)) == eval(m, term(a, u)));
        assert(var_fits(a, m, v));
        assert(solves(a, m) && eval(m, term(a, u)) == eval(m, term(a, t)));
    }
    if let Term::Con { id, name, args } = term(a, u) {
        let taken = id == a.prims.int || id == a.prims.float || id == a.prims.string && c is Addable;
        if args.len() == 0 && taken {
            lemma_linked(a, v, u);
            let d = linked(a, v, u);
            law_solvable(d);
            let m = choose|m: spec_fn(i32) -> Shape| #[trigger] solves(d, m);
            lemma_linked_solves(a, v, u, m);
            assert(var_fits(a, m, v));
            assert(solves(a, m)) by {
                assert forall|w: i32| var_in(a, w) implies #[trigger] var_fits(a, m, w) by {}
            }
            assert(solves(a, m) && eval(m, term(a, t)) == eval(m, term(a, u)));
            assert(solves(a, m) && eval(m, term(a, u)) == eval(m, term(a, t)));
        }
    }
}

/// Levels do not matter to solutions.
proof fn lemma_adjusted_fits(a: Store, b: Store, lvl: i32, p: spec_fn(i32) -> bool)
    requires
        store_ok(a),
        store_ok(b),
        same_links(a, b),
        adjusted(a, b, lvl, p),
    ensures
        same_rigid(a, b),
        forall|m: spec_fn(i32) -> Shape, v: i32|
            var_in(a, v) ==> #[trigger] var_fits(b, m, v) == var_fits(a, m, v),
{
    assert(same_rigid(a, b)) by {
        assert forall|v: int|
            #![trigger a.vars[v]]
            #![trigger b.vars[v]]
            0 <= v < a.vars.len() implies (a.vars[v] is Generic <==> b.vars[v] is Generic) && (
        a.vars[v] is Generic ==> b.vars[v] == a.vars[v]) by {
            assert(same_link(a, b, v));
            assert(var_in(a, v as i32));
            assert(adjusted_at(a, b, lvl, p, v as i32));
        }
    }
    assert forall|m: spec_fn(i32) -> Shape, v: i32| var_in(a, v) implies #[trigger] var_fits(
        b,
        m,
        v,
    ) == var_fits(a, m, v) by {
        assert(same_link(a, b, v as int));
        assert(state_ok(a, v as int));
        assert(adjusted_at(a, b, lvl, p, v));
        match b.vars[v as int] {
            TyVarState::Link { ty } => {
                lemma_same_links_term(a, b, ty);
            },
            TyVarState::Unbound { level, constraint } => {
                match constraint {
                    Some(c) => {
                        lemma_meets_frame(a, b, c, m(v));
                    },
                    None => {},
                }
            },
            _ => {},
        }
    }
}

proof fn lemma_adjusted_lowered(a: Store, b: Store, lvl: i32, t: Term)
    requires
        same_links(a, b),
        a.vars.len() <= i32::MAX,
        adjusted(a, b, lvl, in_term(t)),
    ensures
        lowered(a, b, lvl as int, t),
{
    assert forall|v: int| 0 <= v < a.vars.len() implies #[trigger] lowered_at(
        a,
        b,
        lvl as int,
        t,
        v,
    ) by {
        assert(var_in(a, v as i32));
        assert(adjusted_at(a, b, lvl, in_term(t), v as i32));
    }
}

/// Linking a variable unifies it with what it is linked to, where the shape it
/// gets there already meets what the variable asked for.
proof fn lemma_bind(a: Store, b: Store, v: i32, tv: Ty, ty: Ty)
    requires
        store_ok(a),
        store_ok(b),
        var_in(a, v),
        a.vars[v as int] is Unbound,
        in_arena(a, tv),
        in_arena(a, ty),
        term(a, tv) == Term::Var(v),
        !occurs(v, term(a, ty)),
        bound_free(term(a, ty)),
        lowered(a, b, level_of(a.vars[v as int]), term(a, ty)),
        forall|m: spec_fn(i32) -> Shape|
            m(v) == eval(m, term(a, ty)) ==> (#[trigger] solves(a, m) <==> fits_but(b, m, v)),
    ensures
        step(a, linked(b, v, ty)),
        keeps_bound_free(a, linked(b, v, ty)),
        unified(a, linked(b, v, ty), tv, ty),
        unified(a, linked(b, v, ty), ty, tv),
{
    let c = linked(b, v, ty);
    let tt = term(a, ty);
    lemma_same_links_term(a, b, ty);
    assert(lowered_at(a, b, level_of(a.vars[v as int]), tt, v as int));
    assert forall|m: spec_fn(i32) -> Shape| #[trigger] solves(c, m) <==> solves(a, m) && eval(
        m,
        term(a, tv),
    ) == eval(m, tt) by {
        lemma_linked_solves(b, v, ty, m);
        assert(eval(m, term(a, tv)) == m(v));
        assert(solves(c, m) <==> (m(v) == eval(m, tt) && fits_but(b, m, v)));
        if m(v) == eval(m, tt) {
            assert(solves(a, m) <==> fits_but(b, m, v));
        }
    }
    assert forall|m: spec_fn(i32) -> Shape| solves(c, m) implies #[trigger] solves(a, m) by {}
    lemma_link_step(a, b, v, ty);
    let f = one(v, tt);
    assert(replaced(f, tt) == tt) by {
        assert forall|w: i32| #[trigger] occurs(w, tt) implies f(w) == as_is()(w) by {}
        lemma_replaced_same(f, as_is(), tt);
        lemma_replaced_as_is(tt);
    }
    assert(term(c, ty) == tt);
    assert(term(c, tv) == tt);
    assert forall|t: Ty| in_arena(a, t) && bound_free(term(a, t)) implies bound_free(
        #[trigger] term(c, t),
    ) by {
        assert forall|w: i32| #[trigger] occurs(w, term(a, t)) implies bound_free(f(w)) by {}
        lemma_bound_free_replaced(f, term(a, t));
    }
}

/// Every variable but `v` fits.
pub open spec fn fits_but(s: Store, m: spec_fn(i32) -> Shape, v: i32) -> bool {
    forall|u: i32| var_in(s, u) && u != v ==> #[trigger] var_fits(s, m, u)
}

/// A solution fits every variable, so it is one that fits `v` and the others.
proof fn lemma_solves_but(s: Store, m: spec_fn(i32) -> Shape, v: i32)
    requires
        var_in(s, v),
    ensures
        solves(s, m) <==> var_fits(s, m, v) && fits_but(s, m, v),
{
    if var_fits(s, m, v) && fits_but(s, m, v) {
        assert forall|u: i32| var_in(s, u) implies #[trigger] var_fits(s, m, u) by {}
    }
    if solves(s, m) {
        assert forall|u: i32| var_in(s, u) && u != v implies #[trigger] var_fits(s, m, u) by {}
    }
}

proof fn lemma_fits_but_same(a: Store, b: Store, m: spec_fn(i32) -> Shape, v: i32)
    requires
        a.vars.len() == b.vars.len(),
        forall|u: i32| var_in(a, u) && u != v ==> #[trigger] var_fits(b, m, u) == var_fits(a, m, u),
    ensures
        fits_but(a, m, v) <==> fits_but(b, m, v),
{
    if fits_but(a, m, v) {
        assert forall|u: i32| var_in(b, u) && u != v implies #[trigger] var_fits(b, m, u) by {
            assert(var_in(a, u));
            assert(var_fits(a, m, u));
        }
    }
    if fits_but(b, m, v) {
        assert forall|u: i32| var_in(a, u) && u != v implies #[trigger] var_fits(a, m, u) by {
            assert(var_in(b, u));
            assert(var_fits(b, m, u));
        }
    }
}

/// A variable that occurs in a larger type is no solution for it.
proof fn lemma_recursive_apart(a: Store, v: i32, t: Ty, u: Ty)
    requires
        term(a, t) == Term::Var(v),
        term(a, u) != Term::Var(v),
        occurs(v, term(a, u)),
    ensures
        apart(a, t, u),
        apart(a, u, t),
{
    assert forall|m: spec_fn(i32) -> Shape| #[trigger] solves(a, m) implies eval(m, term(a, t))
        != eval(m, term(a, u)) by {
        lemma_occurs_size(m, v, term(a, u));
    }
}

/// The parts of the binding of `v` to `ty` that every case shares.
pub open spec fn binding(a: Store, b: Store, v: i32, tv: Ty, ty: Ty, level: i32) -> bool {
    &&& store_ok(a)
    &&& store_ok(b)
    &&& var_in(a, v)
    &&& a.vars[v as int] is Unbound
    &&& level_of(a.vars[v as int]) == level
    &&& in_arena(a, tv)
    &&& in_arena(a, ty)
    &&& term(a, tv) == Term::Var(v)
    &&& !occurs(v, term(a, ty))
    &&& bound_free(term(a, ty))
    &&& same_links(a, b)
    &&& adjusted(a, b, level, in_term(term(a, ty)))
}

/// Binding a variable that asks for nothing, or for what its type gives under
/// every solution.
proof fn lemma_bind_fits(a: Store, b: Store, v: i32, tv: Ty, ty: Ty, level: i32)
    requires
        binding(a, b, v, tv, ty, level),
        forall|m: spec_fn(i32) -> Shape|
            m(v) == eval(m, term(a, ty)) && #[trigger] fits_but(a, m, v) ==> var_fits(a, m, v),
    ensures
        step(a, linked(b, v, ty)),
        keeps_bound_free(a, linked(b, v, ty)),
        unified(a, linked(b, v, ty), tv, ty),
        unified(a, linked(b, v, ty), ty, tv),
{
    lemma_adjusted_lowered(a, b, level, term(a, ty));
    lemma_adjusted_fits(a, b, level, in_term(term(a, ty)));
    assert forall|m: spec_fn(i32) -> Shape| m(v) == eval(m, term(a, ty)) implies (
    #[trigger] solves(a, m) <==> fits_but(b, m, v)) by {
        lemma_solves_but(a, m, v);
        lemma_fits_but_same(a, b, m, v);
    }
    lemma_bind(a, b, v, tv, ty);
}

/// A variable's link is followed to the end of what it is linked to.
proof fn lemma_linked_root(s: Store, v: i32, ty: Ty, t: Ty)
    requires
        store_ok(s),
        store_ok(linked(s, v, ty)),
        var_in(s, v),
        s.vars[v as int] is Unbound,
        in_arena(s, ty),
        !occurs(v, term(s, ty)),
        in_arena(s, t),
    ensures
        root(linked(s, v, ty), t) == if term(s, t) == Term::Var(v) {
            root(s, ty)
        } else {
            root(s, t)
        },
    decreases linked(s, v, ty).rank[t.0 as int],
{
    let s2 = linked(s, v, ty);
    lemma_term(s, t);
    assert(node_ok(s, t.0 as int));
    assert(node_ok(s2, t.0 as int));
    match s.nodes[t.0 as int] {
        TypeNode::Var(u) => {
            if u == v {
                lemma_linked_root(s, v, ty, ty);
            } else {
                match s.vars[u as int] {
                    TyVarState::Link { ty: ty2 } => {
                        assert(s2.vars[u as int] == s.vars[u as int]);
                        lemma_linked_root(s, v, ty, ty2);
                    },
                    _ => {},
                }
            }
        },
        _ => {},
    }
}

/// A variable linked to what represents a type has that type's representative.
proof fn lemma_one_root(a: Store, b: Store, v: i32, tv: Ty, ty: Ty, resolved: Ty)
    requires
        store_ok(a),
        store_ok(b),
        same_links(a, b),
        var_in(a, v),
        b.vars[v as int] is Unbound,
        in_arena(a, tv),
        in_arena(a, ty),
        in_arena(a, resolved),
        term(a, tv) == Term::Var(v),
        !occurs(v, term(a, ty)),
        resolved == root(a, ty),
        store_ok(linked(b, v, resolved)),
    ensures
        root(linked(b, v, resolved), tv) == root(linked(b, v, resolved), ty),
        keeps_roots(a, linked(b, v, resolved)),
{
    lemma_root(a, ty);
    assert forall|t: Ty| in_arena(a, t) implies #[trigger] root(linked(b, v, resolved), t) == root(
        linked(b, v, resolved),
        root(a, t),
    ) by {
        lemma_root(a, t);
        lemma_same_links_term(a, b, t);
        lemma_same_links_term(a, b, root(a, t));
        lemma_same_links_term(a, b, resolved);
        lemma_linked_root(b, v, resolved, t);
        lemma_linked_root(b, v, resolved, root(a, t));
    }
    lemma_same_links_term(a, b, tv);
    lemma_same_links_term(a, b, ty);
    lemma_same_links_term(a, b, resolved);
    lemma_linked_root(b, v, resolved, tv);
    lemma_linked_root(b, v, resolved, ty);
}

/// What binding a variable leaves of every type and every other variable, and
/// that the two types have one representative then.
proof fn lemma_bound_to(a: Store, b: Store, v: i32, tv: Ty, ty: Ty, level: i32)
    requires
        binding(a, b, v, tv, ty, level),
        store_ok(linked(b, v, ty)),
        root(a, ty) == ty,
    ensures
        bound_to(a, linked(b, v, ty), v, ty),
        root(linked(b, v, ty), tv) == root(linked(b, v, ty), ty),
        keeps_roots(a, linked(b, v, ty)),
{
    let c = linked(b, v, ty);
    assert(adjusted_at(a, b, level, in_term(term(a, ty)), v));
    assert forall|t: Ty| in_arena(a, t) implies #[trigger] term(b, t) == term(a, t) && root(b, t)
        == root(a, t) by {
        lemma_same_links_term(a, b, t);
    }
    lemma_linked(b, v, ty);
    assert forall|u: i32| var_in(a, u) && u != v implies #[trigger] adjusted_at(
        a,
        c,
        level_of(a.vars[v as int]) as i32,
        in_term(term(a, ty)),
        u,
    ) by {
        assert(adjusted_at(a, b, level, in_term(term(a, ty)), u));
    }
    assert forall|t: Ty| in_arena(a, t) implies #[trigger] term(c, t) == replaced(
        one(v, term(a, ty)),
        term(a, t),
    ) by {
        assert(term(b, t) == term(a, t));
        assert(term(b, ty) == term(a, ty));
    }
    lemma_one_root(a, b, v, tv, ty, ty);
}

/// Binding one constrained variable to another variable, which takes over the
/// constraint.
proof fn lemma_bind_constraint(
    a: Store,
    b: Store,
    c: Store,
    v: i32,
    tv: Ty,
    ty: Ty,
    level: i32,
    o: i32,
    want: Constraint,
)
    requires
        binding(a, b, v, tv, ty, level),
        term(a, ty) == Term::Var(o),
        v != o,
        a.vars[v as int] == (TyVarState::Unbound { level, constraint: Some(want) }),
        b.vars[o as int] is Unbound,
        c == (Store {
            vars: b.vars.update(
                o as int,
                TyVarState::Unbound {
                    level: level_of(b.vars[o as int]) as i32,
                    constraint: Some(taken_over(want, b.vars[o as int])),
                },
            ),
            ..b
        }),
    ensures
        store_ok(c),
        same_links(a, c),
        step(a, linked(c, v, ty)),
        keeps_bound_free(a, linked(c, v, ty)),
        unified(a, linked(c, v, ty), tv, ty),
        unified(a, linked(c, v, ty), ty, tv),
{
    let p = in_term(term(a, ty));
    lemma_term_vars(a, ty, o);
    lemma_store_states(b, c);
    lemma_adjusted_lowered(a, b, level, term(a, ty));
    lemma_adjusted_fits(a, b, level, p);
    assert(same_link(a, b, o as int));
    assert(adjusted_at(a, b, level, p, o));
    assert(lowered(a, c, level as int, term(a, ty))) by {
        assert forall|u: int| 0 <= u < a.vars.len() implies #[trigger] same_link(a, c, u) by {
            assert(same_link(a, b, u));
        }
        assert forall|u: int| 0 <= u < a.vars.len() implies #[trigger] lowered_at(
            a,
            c,
            level as int,
            term(a, ty),
            u,
        ) by {
            assert(lowered_at(a, b, level as int, term(a, ty), u));
        }
    }
    assert(same_rigid(b, c));
    assert(same_links(b, c)) by {
        assert forall|u: int| 0 <= u < b.vars.len() implies #[trigger] same_link(b, c, u) by {
            assert(state_ok(b, u));
        }
    }
    assert forall|m: spec_fn(i32) -> Shape| m(v) == eval(m, term(a, ty)) implies (
    #[trigger] solves(a, m) <==> fits_but(c, m, v)) by {
        assert(m(v) == m(o));
        lemma_solves_but(a, m, v);
        assert forall|u: i32| var_in(a, u) && u != v && u != o implies #[trigger] var_fits(c, m, u)
            == var_fits(a, m, u) by {
            assert(var_fits(b, m, u) == var_fits(a, m, u));
            assert(same_link(b, c, u as int));
            assert(state_ok(b, u as int));
            match b.vars[u as int] {
                TyVarState::Link { ty: t2 } => {
                    lemma_same_links_term(b, c, t2);
                },
                TyVarState::Unbound { level: l2, constraint } => {
                    match constraint {
                        Some(k) => {
                            lemma_meets_frame(b, c, k, m(u));
                        },
                        None => {},
                    }
                },
                _ => {},
            }
        }
        let won = taken_over(want, b.vars[o as int]);
        lemma_meets_frame(a, c, won, m(o));
        match a.vars[o as int] {
            TyVarState::Unbound { level: l2, constraint } => {
                match constraint {
                    Some(k) => {
                        lemma_meet(a, want, k, m(o));
                        assert(var_fits(a, m, o) == meets(a, k, m(o)));
                    },
                    None => {
                        assert(var_fits(a, m, o));
                    },
                }
            },
            _ => {},
        }
        assert(var_fits(c, m, o) == meets(a, won, m(o)));
        assert(var_fits(a, m, v) == meets(a, want, m(o)));
        assert(var_fits(c, m, o) <==> var_fits(a, m, v) && var_fits(a, m, o));
        if solves(a, m) {
            assert forall|u: i32| var_in(c, u) && u != v implies #[trigger] var_fits(c, m, u) by {
                if u != o {
                    assert(var_fits(a, m, u));
                } else {
                    assert(var_fits(a, m, o));
                }
            }
        }
        if fits_but(c, m, v) {
            assert(var_fits(c, m, o));
            assert forall|u: i32| var_in(a, u) implies #[trigger] var_fits(a, m, u) by {
                if u != v && u != o {
                    assert(var_in(c, u));
                    assert(var_fits(c, m, u));
                }
            }
        }
    }
    lemma_bind(a, c, v, tv, ty);
    lemma_same_links_trans(a, b, c);
}

/// The constraint a variable carries once one that wants `want` is bound to it.
pub open spec fn taken_over(want: Constraint, s: TyVarState) -> Constraint {
    match s {
        TyVarState::Unbound { level, constraint: Some(k) } => want.meet(k),
        _ => want,
    }
}

/// Meeting both constraints is meeting what they have in common.
proof fn lemma_meet(s: Store, c: Constraint, k: Constraint, t: Shape)
    ensures
        meets(s, c.meet(k), t) <==> meets(s, c, t) && meets(s, k, t),
{
    match t {
        Shape::Var(g) => {
            if var_in(s, g) {
                match s.vars[g as int] {
                    TyVarState::Generic { id, constraint } => {
                        match constraint {
                            Some(x) => {
                                assert(x.allows(Prim::String) <==> x == Constraint::Addable);
                                assert(Constraint::Addable.met_by(constraint));
                                assert(Constraint::Numeric.met_by(constraint) <==> x
                                    == Constraint::Numeric);
                            },
                            None => {},
                        }
                    },
                    _ => {},
                }
            }
        },
        _ => {},
    }
}

impl InferEngine {
    /// Bind the constrained variable `var_id` to `ty`, which does not mention
    /// it and whose levels are lowered already. `a` is the store before they
    /// were.
    fn unify_constrained(
        &mut self,
        var_id: i32,
        var_ty: Ty,
        constraint: Constraint,
        level: i32,
        ty: Ty,
        Ghost(a): Ghost<Store>,
    ) -> (r: Result<(), UnifyError>)
        requires
            old(self).wf(),
            binding(a, old(self).store(), var_id, var_ty, ty, level),
            a.vars[var_id as int] == (TyVarState::Unbound { level, constraint: Some(constraint) }),
        ensures
            final(self).wf(),
            final(self).only_vars(old(self)),
            match r {
                Ok(_) => step(a, final(self).store()) && keeps_bound_free(a, final(self).store())
                    && unified(a, final(self).store(), var_ty, ty) && root(
                    final(self).store(),
                    var_ty,
                ) == root(final(self).store(), ty) && keeps_roots(a, final(self).store()),
                Err(e) => apart(a, var_ty, ty) && compressed(
                    old(self).store(),
                    final(self).store(),
                ) && e == (UnifyError::CouldNotUnify {
                    expected: var_ty,
                    given: root(a, ty),
                    situation: None,
                }),
            },
    {
        let ghost b0 = self.store();
        let resolved = self.find(ty);
        let ghost b = self.store();
        proof {
            lemma_root(a, ty);
            lemma_same_links_term(a, b0, ty);
            lemma_compressed_step(b0, b);
            lemma_same_links_trans(a, b0, b);
            assert(adjusted(a, b, level, in_term(term(a, ty)))) by {
                assert forall|v: i32| var_in(a, v) implies #[trigger] adjusted_at(
                    a,
                    b,
                    level,
                    in_term(term(a, ty)),
                    v,
                ) by {
                    assert(adjusted_at(a, b0, level, in_term(term(a, ty)), v));
                    assert(same_link(b0, b, v as int));
                }
            }
            lemma_root(b0, ty);
            assert(resolved == root(a, ty));
            assert(term(a, resolved) == term(a, ty));
            lemma_term(a, resolved);
            assert(binding(a, b, var_id, var_ty, resolved, level));
            assert(adjusted_at(a, b, level, in_term(term(a, ty)), var_id));
        }
        match self.node(resolved) {
            TypeNode::Var(other_id) => {
                proof {
                    assert(same_link(a, b, other_id as int));
                    assert(adjusted_at(a, b, level, in_term(term(a, ty)), other_id));
                    assert(other_id != var_id);
                    assert(state_ok(a, other_id as int));
                }
                match self.root_var(other_id) {
                    RootVarState::Unbound { level: other_level, constraint: other_constraint } => {
                        if let Some(other_c) = other_constraint {
                            match constraint.intersect(other_c) {
                                Some(winner) => {
                                    let low = if other_level < level {
                                        other_level
                                    } else {
                                        level
                                    };
                                    proof {
                                        assert(occurs(other_id, term(a, ty)));
                                        assert(low == other_level);
                                    }
                                    self.vars.set(
                                        other_id as usize,
                                        TyVarState::Unbound { level: low, constraint: Some(winner) },
                                    );
                                },
                                None => {
                                    return Err(could_not_unify(var_ty, resolved));
                                },
                            }
                        } else {
                            self.vars.set(
                                other_id as usize,
                                TyVarState::Unbound {
                                    level: other_level,
                                    constraint: Some(constraint),
                                },
                            );
                        }
                        let ghost c = self.store();
                        proof {
                            assert(c =~= (Store {
                                vars: b.vars.update(
                                    other_id as int,
                                    TyVarState::Unbound {
                                        level: level_of(b.vars[other_id as int]) as i32,
                                        constraint: Some(
                                            taken_over(constraint, b.vars[other_id as int]),
                                        ),
                                    },
                                ),
                                ..b
                            }));
                            lemma_bind_constraint(
                                a,
                                b,
                                c,
                                var_id,
                                var_ty,
                                resolved,
                                level,
                                other_id,
                                constraint,
                            );
                        }
                        proof {
                            lemma_one_root(a, c, var_id, var_ty, ty, resolved);
                        }
                        self.set_link(var_id, resolved);
                        return Ok(());
                    },
                    RootVarState::Generic { id: gid, constraint: gen_c } => {
                        if !constraint.satisfied_by_generic(gen_c) {
                            proof {
                                assert forall|m: spec_fn(i32) -> Shape| #[trigger]
                                    solves(a, m) implies eval(m, term(a, var_ty)) != eval(
                                    m,
                                    term(a, ty),
                                ) by {
                                    assert(var_fits(a, m, var_id));
                                    assert(var_fits(a, m, other_id));
                                }
                            }
                            return Err(could_not_unify(var_ty, resolved));
                        }
                        proof {
                            assert forall|m: spec_fn(i32) -> Shape|
                                m(var_id) == eval(m, term(a, resolved)) && #[trigger] fits_but(
                                    a,
                                    m,
                                    var_id,
                                ) implies var_fits(a, m, var_id) by {
                                assert(var_fits(a, m, other_id));
                            }
                        }
                    },
                }
            },
            TypeNode::Con { id, name, args } => {
                let ok = match self.prim_ids.prim_of(id) {
                    Some(p) => constraint.admits(p),
                    None => false,
                };
                if !ok {
                    proof {
                        assert forall|m: spec_fn(i32) -> Shape| #[trigger] solves(a, m) implies eval(
                            m,
                            term(a, var_ty),
                        ) != eval(m, term(a, ty)) by {
                            assert(var_fits(a, m, var_id));
                        }
                    }
                    return Err(could_not_unify(var_ty, resolved));
                }
                proof {
                    assert forall|m: spec_fn(i32) -> Shape|
                        m(var_id) == eval(m, term(a, resolved)) && #[trigger] fits_but(
                            a,
                            m,
                            var_id,
                        ) implies var_fits(a, m, var_id) by {}
                }
            },
            _ => {
                proof {
                    assert forall|m: spec_fn(i32) -> Shape| #[trigger] solves(a, m) implies eval(
                        m,
                        term(a, var_ty),
                    ) != eval(m, term(a, ty)) by {
                        assert(var_fits(a, m, var_id));
                    }
                }
                return Err(could_not_unify(var_ty, resolved));
            },
        }
        proof {
            lemma_bind_fits(a, b, var_id, var_ty, resolved, level);
            lemma_one_root(a, b, var_id, var_ty, ty, resolved);
        }
        self.set_link(var_id, resolved);
        Ok(())
    }

    /// Link a variable, lifting the ranks of what reaches it.
    fn set_link(&mut self, v: i32, ty: Ty)
        requires
            old(self).wf(),
            0 <= v < old(self).vars@.len(),
            store_ok(linked(old(self).store(), v, ty)),
        ensures
            final(self).wf(),
            final(self).only_vars(old(self)),
            final(self).store() == linked(old(self).store(), v, ty),
    {
        let ghost s = linked(self.store(), v, ty);
        self.vars.set(v as usize, TyVarState::Link { ty });
        self.rank = Ghost(s.rank);
        proof {
            assert(self.store() =~= s);
        }
    }
}

/// A lowering undone is no lowering.
proof fn lemma_restored_compressed(a: Store, b: Store, c: Store)
    requires
        store_ok(a),
        store_ok(b),
        store_ok(c),
        same_links(a, b),
        b.nodes == c.nodes,
        b.live == c.live,
        b.kids == c.kids,
        b.rank == c.rank,
        b.prims == c.prims,
        b.vars.len() == c.vars.len(),
        forall|v: int|
            0 <= v < b.vars.len() && b.vars[v] is Link ==> #[trigger] c.vars[v] == b.vars[v],
        tops(c.vars) == tops(a.vars),
    ensures
        compressed(a, c),
{
    assert forall|v: int| 0 <= v < a.vars.len() implies #[trigger] same_link(a, c, v) by {
        assert(same_link(a, b, v));
        assert(tops(c.vars)[v] == tops(a.vars)[v]);
    }
    assert forall|v: int| 0 <= v < a.vars.len() && !(a.vars[v] is Link) implies #[trigger] c.vars[v]
        == a.vars[v] by {
        assert(tops(c.vars)[v] == tops(a.vars)[v]);
    }
}

impl InferEngine {
    /// Unify the variable `var_id`, whose node is `var_ty`, with the
    /// representative `ty` of some other type.
    fn unify_var(&mut self, var_id: i32, var_ty: Ty, ty: Ty) -> (r: Result<(), UnifyError>)
        requires
            old(self).wf(),
            old(self).has(var_ty),
            old(self).has(ty),
            root(old(self).store(), var_ty) == var_ty,
            root(old(self).store(), ty) == ty,
            old(self).term(var_ty) == Term::Var(var_id),
            old(self).term(ty) != Term::Var(var_id),
            bound_free(old(self).term(ty)),
        ensures
            final(self).wf(),
            final(self).only_vars(old(self)),
            unify_result(old(self).store(), final(self).store(), var_ty, ty, r),
            r is Err ==> compressed(old(self).store(), final(self).store()),
            r is Ok && (open_at(old(self).store(), var_ty) || open_at(old(self).store(), ty))
                ==> root(final(self).store(), var_ty) == root(final(self).store(), ty),
            r is Ok ==> keeps_roots(old(self).store(), final(self).store()),
            r is Ok ==> match free_at(old(self).store(), var_ty) {
                Some(v) => bound_to(old(self).store(), final(self).store(), v, ty),
                None => true,
            },
    {
        let ghost a = self.store();
        proof {
            lemma_term_vars(a, var_ty, var_id);
            lemma_root(a, ty);
            lemma_term(a, ty);
            assert(state_ok(a, var_id as int));
            assert(compressed(a, a)) by {
                assert forall|v: int| 0 <= v < a.vars.len() implies #[trigger] same_link(a, a, v) by {
                    assert(state_ok(a, v));
                }
            }
            lemma_compressed_step(a, a);
        }
        match self.root_var(var_id) {
            RootVarState::Generic { id, constraint: gen_c } => {
                // A rigid generic may only absorb an unbound variable, which
                // then links to it, or an identical generic.
                if let TypeNode::Var(other_id) = self.node(ty) {
                    proof {
                        assert(state_ok(a, other_id as int));
                        assert(term(a, ty) == Term::Var(other_id));
                    }
                    match self.root_var(other_id) {
                        RootVarState::Unbound { level, constraint: other_c } => {
                            // Absorbing the variable drops its constraint, so
                            // the generic must already guarantee it.
                            if let Some(req) = other_c {
                                if !req.satisfied_by_generic(gen_c) {
                                    proof {
                                        assert forall|m: spec_fn(i32) -> Shape| #[trigger]
                                            solves(a, m) implies eval(m, term(a, var_ty)) != eval(
                                            m,
                                            term(a, ty),
                                        ) by {
                                            assert(var_fits(a, m, var_id));
                                            assert(var_fits(a, m, other_id));
                                        }
                                        assert(failed(a, a, var_ty, ty, mismatch(var_ty, ty), 0));
                                    }
                                    return Err(could_not_unify(var_ty, ty));
                                }
                            }
                            proof {
                                assert(adjusted(a, a, level, in_term(term(a, var_ty)))) by {
                                    assert forall|v: i32| var_in(a, v) implies #[trigger] adjusted_at(
                                        a,
                                        a,
                                        level,
                                        in_term(term(a, var_ty)),
                                        v,
                                    ) by {}
                                }
                                assert(binding(a, a, other_id, ty, var_ty, level));
                                assert forall|m: spec_fn(i32) -> Shape|
                                    m(other_id) == eval(m, term(a, var_ty)) && #[trigger] fits_but(
                                        a,
                                        m,
                                        other_id,
                                    ) implies var_fits(a, m, other_id) by {
                                    assert(var_fits(a, m, var_id));
                                }
                                lemma_bind_fits(a, a, other_id, ty, var_ty, level);
                                lemma_bound_to(a, a, other_id, ty, var_ty, level);
                            }
                            self.set_link(other_id, var_ty);
                            return Ok(());
                        },
                        RootVarState::Generic { id: other_gid, constraint } => {
                            if other_gid == id {
                                proof {
                                    lemma_keeps_own_roots(a);
                                }
                                return Ok(());
                            }
                        },
                    }
                }
                proof {
                    assert forall|m: spec_fn(i32) -> Shape| #[trigger] solves(a, m) implies eval(
                        m,
                        term(a, var_ty),
                    ) != eval(m, term(a, ty)) by {
                        assert(var_fits(a, m, var_id));
                        match term(a, ty) {
                            Term::Var(o) => {
                                lemma_term_vars(a, ty, o);
                                assert(var_fits(a, m, o));
                            },
                            _ => {},
                        }
                    }
                    assert(failed(a, a, var_ty, ty, mismatch(var_ty, ty), 0));
                }
                Err(could_not_unify(var_ty, ty))
            },
            RootVarState::Unbound { level, constraint } => {
                let mut log: Vec<(i32, i32)> = Vec::new();
                let occ = self.occurs_and_adjust_logged(var_id, level, ty, &mut log);
                let ghost b = self.store();
                proof {
                    assert(log@.skip(0) =~= log@);
                }
                if occ {
                    self.restore_levels(&log);
                    proof {
                        lemma_restored_compressed(a, b, self.store());
                        lemma_compressed_step(a, self.store());
                        lemma_recursive_apart(a, var_id, var_ty, ty);
                        assert(failed(a, self.store(), var_ty, ty, UnifyError::RecursiveType, 0));
                    }
                    return Err(UnifyError::RecursiveType);
                }
                proof {
                    assert(binding(a, b, var_id, var_ty, ty, level));
                }
                if let Some(c) = constraint {
                    let r = self.unify_constrained(var_id, var_ty, c, level, ty, Ghost(a));
                    if r.is_err() {
                        let ghost b2 = self.store();
                        proof {
                            lemma_same_links_trans(a, b, b2);
                            assert(tops(b2.vars) =~= tops(b.vars)) by {
                                assert forall|v: int| 0 <= v < b.vars.len() implies tops(
                                    b2.vars,
                                )[v] == tops(b.vars)[v] by {
                                    assert(same_link(b, b2, v));
                                }
                            }
                        }
                        self.restore_levels(&log);
                        proof {
                            lemma_restored_compressed(a, b2, self.store());
                            lemma_compressed_step(a, self.store());
                            assert(failed(a, self.store(), var_ty, ty, mismatch(var_ty, ty), 0));
                        }
                    }
                    return r;
                }
                proof {
                    assert forall|m: spec_fn(i32) -> Shape|
                        m(var_id) == eval(m, term(a, ty)) && #[trigger] fits_but(
                            a,
                            m,
                            var_id,
                        ) implies var_fits(a, m, var_id) by {}
                    lemma_bind_fits(a, b, var_id, var_ty, ty, level);
                    lemma_bound_to(a, b, var_id, var_ty, ty, level);
                }
                self.set_link(var_id, ty);
                Ok(())
            },
        }
    }

    /// Make two types one, solving variables as far as needed and no further.
    ///
    /// On success the solutions left are exactly those that give both types
    /// one shape. On failure there were none, and what was solved on the way
    /// only narrows: no solution is invented. Levels follow what mentions what,
    /// and where a variable could not be bound none was lowered.
    pub fn unify(&mut self, expected: Ty, given: Ty) -> (r: Result<(), UnifyError>)
        requires
            old(self).wf(),
            old(self).has(expected),
            old(self).has(given),
            bound_free(old(self).term(expected)),
            bound_free(old(self).term(given)),
        ensures
            final(self).wf(),
            final(self).only_vars(old(self)),
            unify_result(old(self).store(), final(self).store(), expected, given, r),
            r is Err && (old(self).term(expected) is Var || old(self).term(given) is Var || clash(
                old(self).store(),
                expected,
                given,
            ) is Some) ==> compressed(old(self).store(), final(self).store()),
            r is Ok && old(self).term(expected) != old(self).term(given) && (open_at(
                old(self).store(),
                expected,
            ) || open_at(old(self).store(), given)) ==> root(final(self).store(), expected) == root(
                final(self).store(),
                given,
            ),
            r is Ok && (old(self).term(expected) is Var || old(self).term(given) is Var)
                ==> keeps_roots(old(self).store(), final(self).store()),
            r is Ok && old(self).term(expected) != old(self).term(given) ==> match free_at(
                old(self).store(),
                expected,
            ) {
                Some(v) => bound_to(old(self).store(), final(self).store(), v, given),
                None => true,
            },
        decreases
                unbound(old(self).vars@),
                old(self).rank@[expected.0 as int] + old(self).rank@[given.0 as int],
                (if old(self).term(expected) is Var {
                    2int
                } else {
                    3int
                }),
    {
        let ghost a = self.store();
        let fa = self.find(expected);
        let ghost a1 = self.store();
        let fb = self.find(given);
        let ghost b = self.store();
        proof {
            lemma_root(a, expected);
            lemma_root(a, given);
            lemma_compressed_step(a, a1);
            lemma_compressed_step(a1, b);
            lemma_compressed_trans(a, a1, b);
            lemma_step_trans(a, a1, b);
            assert(term(a1, given) == term(a, given));
            assert(fb == root(a, given));
            assert(term(a1, fa) == term(a, fa));
            assert(term(a1, fb) == term(a, fb));
            lemma_term(b, fa);
            lemma_term(b, fb);
            assert(term(b, fa) == term(a, expected));
            assert(term(b, fb) == term(a, given));
            assert(root(b, fa) == fa) by {
                assert(root(a1, fa) == root(a, fa));
            }
            assert(root(b, fb) == fb) by {
                assert(root(a1, fb) == root(a, fb));
            }
            assert(keeps_bound_free(a, b));
            assert(term(a1, expected) == term(a, expected));
            assert(term(b, expected) == term(a, expected));
            assert(term(b, given) == term(a, given));
            lemma_root(b, fa);
            lemma_root(b, fb);
        }
        let na = self.node(fa);
        let nb = self.node(fb);
        if let TypeNode::Var(id) = na {
            if let TypeNode::Var(ib) = nb {
                if id == ib {
                    proof {
                        lemma_compressed_self(b);
                        lemma_compressed_step(b, b);
                        lemma_keeps_own_roots(b);
                        lemma_bound_roots(a, b, b, expected, given, fa, fb, id);
                    }
                    return Ok(());
                }
            }
            let r = self.unify_var(id, fa, fb);
            proof {
                lemma_through_roots(a, b, self.store(), expected, given, fa, fb, r);
                if r is Err {
                    lemma_compressed_trans(a, b, self.store());
                } else {
                    lemma_bound_roots(a, b, self.store(), expected, given, fa, fb, id);
                }
            }
            return r;
        }
        if let TypeNode::Var(_) = nb {
            let r = self.unify(fb, fa);
            let out = match r {
                Ok(_) => Ok(()),
                Err(e) => Err(e.flip()),
            };
            proof {
                lemma_flipped(b, self.store(), fb, fa, r, out);
                lemma_through_roots(a, b, self.store(), expected, given, fa, fb, out);
                if r is Err {
                    lemma_compressed_trans(a, b, self.store());
                } else {
                    lemma_bound_roots(a, b, self.store(), expected, given, fa, fb, 0);
                }
            }
            return out;
        }
        match (na, nb) {
            (
                TypeNode::Con { id: ia, name: na1, args: aa },
                TypeNode::Con { id: ib, name: nb1, args: ab },
            ) => {
                // Nominal identity only: two types of one name from different
                // modules are different types.
                if !(ia == ib) || aa.len != ab.len {
                    proof {
                        lemma_clash_apart(b, fa, fb);
                        lemma_apart_roots(a, b, expected, given, fa, fb);
                        assert(clash(b, fa, fb) == clash(a, expected, given));
                        assert(failed(a, b, expected, given, clash(b, fa, fb)->Some_0, 0));
                    }
                    return Err(could_not_unify(fa, fb));
                }
                let r = self.unify_children(aa, ab, fa, fb);
                proof {
                    lemma_children_all(b, self.store(), aa, ab, fa, fb, r);
                    lemma_through_roots(a, b, self.store(), expected, given, fa, fb, r);
                }
                r
            },
            (
                TypeNode::Fun { params: pa, ret: ra },
                TypeNode::Fun { params: pb, ret: rb },
            ) => {
                if pa.len != pb.len {
                    proof {
                        lemma_clash_apart(b, fa, fb);
                        lemma_apart_roots(a, b, expected, given, fa, fb);
                        assert(clash(b, fa, fb) == clash(a, expected, given));
                        assert(failed(a, b, expected, given, clash(b, fa, fb)->Some_0, 0));
                    }
                    return Err(
                        UnifyError::CouldNotUnify {
                            expected: fa,
                            given: fb,
                            situation: Some(
                                UnifyErrorSituation::FunctionArity {
                                    expected: pa.len as usize,
                                    given: pb.len as usize,
                                },
                            ),
                        },
                    );
                }
                let r = self.unify_children(pa, pb, fa, fb);
                let ghost c = self.store();
                if r.is_err() {
                    proof {
                        lemma_children_err(b, c, pa, pb, fa, fb, r);
                        lemma_through_roots(a, b, c, expected, given, fa, fb, r);
                    }
                    return r;
                }
                proof {
                    lemma_bound_free(term(b, fa));
                    lemma_bound_free(term(b, fb));
                }
                let r2 = self.unify(ra, rb);
                let out = match r2 {
                    Ok(_) => Ok(()),
                    Err(e) => Err(unify_enclosed(e, fa, fb)),
                };
                proof {
                    lemma_fun_all(b, c, self.store(), pa, pb, ra, rb, fa, fb, r2, out);
                    lemma_through_roots(a, b, self.store(), expected, given, fa, fb, out);
                }
                out
            },
            (TypeNode::Tuple { elems: ea }, TypeNode::Tuple { elems: eb }) => {
                if ea.len != eb.len {
                    proof {
                        lemma_clash_apart(b, fa, fb);
                        lemma_apart_roots(a, b, expected, given, fa, fb);
                        assert(clash(b, fa, fb) == clash(a, expected, given));
                        assert(failed(a, b, expected, given, clash(b, fa, fb)->Some_0, 0));
                    }
                    return Err(could_not_unify(fa, fb));
                }
                let r = self.unify_children(ea, eb, fa, fb);
                proof {
                    lemma_children_all(b, self.store(), ea, eb, fa, fb, r);
                    lemma_through_roots(a, b, self.store(), expected, given, fa, fb, r);
                }
                r
            },
            _ => {
                proof {
                    lemma_clash_apart(b, fa, fb);
                    lemma_apart_roots(a, b, expected, given, fa, fb);
                    assert(clash(b, fa, fb) == clash(a, expected, given));
                    assert(failed(a, b, expected, given, clash(b, fa, fb)->Some_0, 0));
                }
                Err(could_not_unify(fa, fb))
            },
        }
    }

    /// Unify two equally long child lists pairwise, front to back.
    fn unify_children(
        &mut self,
        a: ArenaSlice<Children>,
        b: ArenaSlice<Children>,
        outer_a: Ty,
        outer_b: Ty,
    ) -> (r: Result<(), UnifyError>)
        requires
            old(self).wf(),
            old(self).has(outer_a),
            old(self).has(outer_b),
            a.len == b.len,
            slice_ok(old(self).store(), a, old(self).rank@[outer_a.0 as int]),
            slice_ok(old(self).store(), b, old(self).rank@[outer_b.0 as int]),
            all_bound_free(terms(old(self).store(), covered(old(self).children@, a))),
            all_bound_free(terms(old(self).store(), covered(old(self).children@, b))),
        ensures
            final(self).wf(),
            final(self).only_vars(old(self)),
            children_result(old(self).store(), final(self).store(), a, b, outer_a, outer_b, r),
        decreases
                unbound(old(self).vars@),
                old(self).rank@[outer_a.0 as int] + old(self).rank@[outer_b.0 as int],
                1int,
    {
        let ghost s0 = self.store();
        let ghost ka = covered(s0.kids, a);
        let ghost kb = covered(s0.kids, b);
        let mut i: usize = 0;
        let sa: usize = a.start as usize;
        let sb: usize = b.start as usize;
        proof {
            assert(compressed(s0, s0)) by {
                assert forall|v: int| 0 <= v < s0.vars.len() implies #[trigger] same_link(
                    s0,
                    s0,
                    v,
                ) by {
                    assert(state_ok(s0, v));
                }
            }
            lemma_compressed_step(s0, s0);
            assert forall|m: spec_fn(i32) -> Shape| #[trigger] solves(s0, m) <==> solves(s0, m)
                && agree_first(m, s0, ka, kb, 0) by {}
        }
        while i < a.len as usize
            invariant
                0 <= i <= a.len,
                a.len == b.len,
                sa == a.start,
                sb == b.start,
                s0 == old(self).store(),
                store_ok(s0),
                self.wf(),
                self.only_vars(old(self)),
                in_arena(s0, outer_a),
                in_arena(s0, outer_b),
                slice_ok(s0, a, s0.rank[outer_a.0 as int]),
                slice_ok(s0, b, s0.rank[outer_b.0 as int]),
                ka == covered(s0.kids, a),
                kb == covered(s0.kids, b),
                all_bound_free(terms(s0, ka)),
                all_bound_free(terms(s0, kb)),
                step(s0, self.store()),
                keeps_bound_free(s0, self.store()),
                forall|m: spec_fn(i32) -> Shape| #[trigger]
                    solves(self.store(), m) <==> solves(s0, m) && agree_first(
                        m,
                        s0,
                        ka,
                        kb,
                        i as int,
                    ),
                forall|k: int|
                    0 <= k < i ==> same_type(
                        #[trigger] term(self.store(), ka[k]),
                        term(self.store(), kb[k]),
                    ),
            decreases a.len - i,
        {
            let x = self.children[sa + i];
            let y = self.children[sb + i];
            let ghost s1 = self.store();
            proof {
                assert(s0.kids[sa + i] == x);
                assert(s0.kids[sb + i] == y);
                assert(ka[i as int] == x);
                assert(kb[i as int] == y);
                assert(bound_free(terms(s0, ka)[i as int]));
                assert(bound_free(terms(s0, kb)[i as int]));
                assert(bound_free(term(s1, x)));
                assert(bound_free(term(s1, y)));
            }
            match self.unify(x, y) {
                Ok(_) => {
                    proof {
                        lemma_child_ok(s0, s1, self.store(), ka, kb, i as int);
                    }
                },
                Err(e) => {
                    proof {
                        lemma_child_err(s0, s1, self.store(), ka, kb, i as int);
                        let deep = choose|deep: nat| #[trigger]
                            failed(s1, self.store(), x, y, e, deep);
                        assert(child_failed(s0, s1, self.store(), ka, kb, i as int, e, deep));
                    }
                    return Err(unify_enclosed(e, outer_a, outer_b));
                },
            }
            i += 1;
        }
        Ok(())
    }
}

/// `m` gives the first `n` pairs one shape each.
pub open spec fn agree_first(
    m: spec_fn(i32) -> Shape,
    s: Store,
    ka: Seq<Ty>,
    kb: Seq<Ty>,
    n: int,
) -> bool {
    forall|i: int|
        0 <= i < n ==> eval(m, #[trigger] term(s, ka[i])) == eval(m, term(s, kb[i]))
}

/// What unifying two child lists leaves behind.
pub open spec fn children_result(
    s: Store,
    c: Store,
    a: ArenaSlice<Children>,
    b: ArenaSlice<Children>,
    outer_a: Ty,
    outer_b: Ty,
    r: Result<(), UnifyError>,
) -> bool {
    let ka = covered(s.kids, a);
    let kb = covered(s.kids, b);
    &&& step(s, c)
    &&& keeps_bound_free(s, c)
    &&& match r {
        Ok(_) => {
            &&& forall|m: spec_fn(i32) -> Shape| #[trigger]
                solves(c, m) <==> solves(s, m) && agree_first(m, s, ka, kb, a.len as int)
            &&& forall|k: int|
                0 <= k < a.len ==> same_type(#[trigger] term(c, ka[k]), term(c, kb[k]))
        },
        Err(e) => {
            &&& forall|m: spec_fn(i32) -> Shape| #[trigger]
                solves(s, m) ==> !agree_first(m, s, ka, kb, a.len as int)
            &&& exists|mid: Store, k: int, inner: UnifyError, deep: nat| #[trigger]
                child_failed(s, mid, c, ka, kb, k, inner, deep) && e == enclosed(
                    inner,
                    outer_a,
                    outer_b,
                )
        },
    }
}

/// The pairs before `k` were made one, and pair `k` failed.
pub open spec fn child_failed(
    s: Store,
    mid: Store,
    c: Store,
    ka: Seq<Ty>,
    kb: Seq<Ty>,
    k: int,
    inner: UnifyError,
    deep: nat,
) -> bool {
    &&& 0 <= k < ka.len()
    &&& reached(s, mid, ka, kb, k)
    &&& failed(mid, c, ka[k], kb[k], inner, deep)
}

/// A failure among the parts is a failure of the whole.
proof fn lemma_part_failed(
    b: Store,
    mid: Store,
    c: Store,
    t: Ty,
    u: Ty,
    ka: Seq<Ty>,
    kb: Seq<Ty>,
    k: int,
    inner: UnifyError,
    deep: nat,
)
    requires
        child_failed(b, mid, c, ka, kb, k, inner, deep),
        ka.is_prefix_of(parts(b, t)),
        kb.is_prefix_of(parts(b, u)),
        ka.len() == kb.len(),
        root(b, t) == t,
        root(b, u) == u,
        !(term(b, t) is Var),
        !(term(b, u) is Var),
        clash(b, t, u) is None,
    ensures
        failed(b, c, t, u, enclosed(inner, t, u), deep + 1),
{
    let (pa, pb) = (parts(b, t), parts(b, u));
    assert(pa[k] == ka[k]);
    assert(pb[k] == kb[k]);
    assert forall|i: int| 0 <= i < ka.len() implies #[trigger] ka[i] == pa[i] && kb[i] == pb[i] by {}
    assert forall|m: spec_fn(i32) -> Shape| #[trigger] agree_first(m, b, ka, kb, k) == agree_first(
        m,
        b,
        pa,
        pb,
        k,
    ) by {
        if agree_first(m, b, pa, pb, k) {
            assert forall|i: int| 0 <= i < k implies eval(m, #[trigger] term(b, ka[i])) == eval(
                m,
                term(b, kb[i]),
            ) by {
                assert(eval(m, term(b, pa[i])) == eval(m, term(b, pb[i])));
            }
        }
        if agree_first(m, b, ka, kb, k) {
            assert forall|i: int| 0 <= i < k implies eval(m, #[trigger] term(b, pa[i])) == eval(
                m,
                term(b, pb[i]),
            ) by {
                assert(eval(m, term(b, ka[i])) == eval(m, term(b, kb[i])));
            }
        }
    }
    assert(reached(b, mid, pa, pb, k)) by {
        assert forall|m: spec_fn(i32) -> Shape| #[trigger] solves(mid, m) <==> solves(b, m)
            && agree_first(m, b, pa, pb, k) by {
            assert(agree_first(m, b, ka, kb, k) == agree_first(m, b, pa, pb, k));
        }
    }
    assert(failed(mid, c, pa[k], pb[k], inner, (deep + 1 - 1) as nat));
}

/// A failure of representatives is one of the types they stand for.
proof fn lemma_failed_roots(
    a: Store,
    b: Store,
    c: Store,
    t: Ty,
    u: Ty,
    ft: Ty,
    fu: Ty,
    e: UnifyError,
    deep: nat,
)
    requires
        store_ok(a),
        store_ok(b),
        store_ok(c),
        compressed(a, b),
        step(a, b),
        in_arena(a, t),
        in_arena(a, u),
        ft == root(a, t),
        fu == root(a, u),
        root(b, ft) == ft,
        root(b, fu) == fu,
        term(b, ft) == term(a, t),
        term(b, fu) == term(a, u),
        forall|m: spec_fn(i32) -> Shape| #![auto] solves(b, m) <==> solves(a, m),
        failed(b, c, ft, fu, e, deep),
    ensures
        failed(a, c, t, u, e, deep),
{
    lemma_root(a, t);
    lemma_root(a, u);
    assert(clash(b, ft, fu) == clash(a, t, u));
    assert(parts(b, ft) == parts(a, t));
    assert(parts(b, fu) == parts(a, u));
    if term(a, t) is Var || term(a, u) is Var {
        lemma_compressed_trans(a, b, c);
        match term(a, t) {
            Term::Var(v) => {
                lemma_term_vars(a, t, v);
            },
            _ => {},
        }
        match term(a, u) {
            Term::Var(v) => {
                lemma_term_vars(a, u, v);
            },
            _ => {},
        }
        assert(recursive(b, ft, fu) == recursive(a, t, u));
    } else if clash(a, t, u) is Some {
        lemma_compressed_trans(a, b, c);
    } else {
        let (pa, pb) = (parts(a, t), parts(a, u));
        let (mid, k, inner) = choose|mid: Store, k: int, inner: UnifyError|
            #![trigger reached(b, mid, pa, pb, k), enclosed(inner, root(b, ft), root(b, fu))]
            {
                &&& 0 <= k < pa.len()
                &&& reached(b, mid, pa, pb, k)
                &&& failed(mid, c, pa[k], pb[k], inner, (deep - 1) as nat)
                &&& e == enclosed(inner, root(b, ft), root(b, fu))
            };
        lemma_step_trans(a, b, mid);
        assert(node_ok(a, ft.0 as int));
        assert(node_ok(a, fu.0 as int));
        lemma_parts_in(a, t);
        lemma_parts_in(a, u);
        assert(pa.len() == pb.len());
        lemma_compressed_step(a, b);
        assert forall|m: spec_fn(i32) -> Shape| #[trigger] solves(mid, m) <==> solves(a, m)
            && agree_first(m, a, pa, pb, k) by {
            assert(solves(b, m) <==> solves(a, m));
            assert forall|i: int| 0 <= i < k implies #[trigger] term(b, pa[i]) == term(a, pa[i])
                && term(b, pb[i]) == term(a, pb[i]) by {
                assert(in_arena(a, pa[i]) && in_arena(a, pb[i]));
            }
            if agree_first(m, b, pa, pb, k) {
                assert forall|i: int| 0 <= i < k implies eval(m, #[trigger] term(a, pa[i])) == eval(
                    m,
                    term(a, pb[i]),
                ) by {
                    assert(term(b, pa[i]) == term(a, pa[i]));
                }
            }
            if agree_first(m, a, pa, pb, k) {
                assert forall|i: int| 0 <= i < k implies eval(m, #[trigger] term(b, pa[i])) == eval(
                    m,
                    term(b, pb[i]),
                ) by {
                    assert(eval(m, term(a, pa[i])) == eval(m, term(a, pb[i])));
                }
            }
        }
        assert(reached(a, mid, pa, pb, k));
        assert(e == enclosed(inner, root(a, t), root(a, u)));
    }
}

/// The parts of a type are in the arena with it.
proof fn lemma_parts_in(s: Store, t: Ty)
    requires
        store_ok(s),
        in_arena(s, t),
    ensures
        forall|i: int| 0 <= i < parts(s, t).len() ==> in_arena(s, #[trigger] parts(s, t)[i]),
{
    lemma_root(s, t);
    let f = root(s, t);
    assert(node_ok(s, f.0 as int));
    assert forall|i: int| 0 <= i < parts(s, t).len() implies in_arena(
        s,
        #[trigger] parts(s, t)[i],
    ) by {
        match s.nodes[f.0 as int] {
            TypeNode::Con { id, name, args } => {
                assert(covered(s.kids, args)[i] == s.kids[args.start + i]);
            },
            TypeNode::Fun { params, ret } => {
                if i < params.len {
                    assert(covered(s.kids, params)[i] == s.kids[params.start + i]);
                }
            },
            TypeNode::Tuple { elems } => {
                assert(covered(s.kids, elems)[i] == s.kids[elems.start + i]);
            },
            _ => {},
        }
    }
}

/// Solutions of a later store see an earlier store's types as it does.
proof fn lemma_step_eval(a: Store, b: Store, m: spec_fn(i32) -> Shape, t: Ty)
    requires
        store_ok(a),
        step(a, b),
        solves(b, m),
        in_arena(a, t),
    ensures
        eval(m, term(b, t)) == eval(m, term(a, t)),
{
    assert(term(b, t) == replaced(var_terms(b), term(a, t)));
    assert forall|v: i32| #[trigger] occurs(v, term(a, t)) implies eval(m, var_terms(b)(v)) == m(
        v,
    ) by {
        lemma_term_vars(a, t, v);
        assert(var_fits(b, m, v));
    }
    lemma_eval_replaced(m, var_terms(b), term(a, t));
}

proof fn lemma_child_ok(s0: Store, s1: Store, s2: Store, ka: Seq<Ty>, kb: Seq<Ty>, i: int)
    requires
        store_ok(s0),
        step(s0, s1),
        step(s1, s2),
        keeps_bound_free(s0, s1),
        keeps_bound_free(s1, s2),
        0 <= i < ka.len(),
        ka.len() == kb.len(),
        forall|k: int| 0 <= k < ka.len() ==> in_arena(s0, #[trigger] ka[k]),
        forall|k: int| 0 <= k < kb.len() ==> in_arena(s0, #[trigger] kb[k]),
        unified(s1, s2, ka[i], kb[i]),
        forall|m: spec_fn(i32) -> Shape| #[trigger]
            solves(s1, m) <==> solves(s0, m) && agree_first(m, s0, ka, kb, i),
        forall|k: int| 0 <= k < i ==> same_type(#[trigger] term(s1, ka[k]), term(s1, kb[k])),
    ensures
        step(s0, s2),
        keeps_bound_free(s0, s2),
        forall|m: spec_fn(i32) -> Shape| #[trigger]
            solves(s2, m) <==> solves(s0, m) && agree_first(m, s0, ka, kb, i + 1),
        forall|k: int| 0 <= k < i + 1 ==> same_type(#[trigger] term(s2, ka[k]), term(s2, kb[k])),
{
    lemma_step_trans(s0, s1, s2);
    assert(in_arena(s0, ka[i]) && in_arena(s0, kb[i]));
    assert forall|m: spec_fn(i32) -> Shape| #[trigger] solves(s2, m) <==> solves(s0, m)
        && agree_first(m, s0, ka, kb, i + 1) by {
        if solves(s1, m) {
            lemma_step_eval(s0, s1, m, ka[i]);
            lemma_step_eval(s0, s1, m, kb[i]);
        }
        if solves(s2, m) {
            assert(solves(s1, m));
            assert forall|j: int| 0 <= j < i + 1 implies eval(m, #[trigger] term(s0, ka[j])) == eval(
                m,
                term(s0, kb[j]),
            ) by {}
        }
        if solves(s0, m) && agree_first(m, s0, ka, kb, i + 1) {
            assert(agree_first(m, s0, ka, kb, i));
            assert(solves(s1, m));
            assert(eval(m, term(s0, ka[i])) == eval(m, term(s0, kb[i])));
        }
    }
    assert forall|k: int| 0 <= k < i + 1 implies same_type(
        #[trigger] term(s2, ka[k]),
        term(s2, kb[k]),
    ) by {
        if k < i {
            assert(in_arena(s0, ka[k]) && in_arena(s0, kb[k]));
            assert(same_type(term(s1, ka[k]), term(s1, kb[k])));
            lemma_same_type_refines(s1, s2, ka[k], kb[k]);
        }
    }
}

proof fn lemma_child_err(s0: Store, s1: Store, s2: Store, ka: Seq<Ty>, kb: Seq<Ty>, i: int)
    requires
        store_ok(s0),
        step(s0, s1),
        step(s1, s2),
        keeps_bound_free(s0, s1),
        keeps_bound_free(s1, s2),
        0 <= i < ka.len(),
        ka.len() == kb.len(),
        in_arena(s0, ka[i]),
        in_arena(s0, kb[i]),
        apart(s1, ka[i], kb[i]),
        forall|m: spec_fn(i32) -> Shape| #[trigger]
            solves(s1, m) <==> solves(s0, m) && agree_first(m, s0, ka, kb, i),
    ensures
        step(s0, s2),
        keeps_bound_free(s0, s2),
        forall|m: spec_fn(i32) -> Shape| #[trigger]
            solves(s0, m) ==> !agree_first(m, s0, ka, kb, ka.len() as int),
{
    lemma_step_trans(s0, s1, s2);
    assert forall|m: spec_fn(i32) -> Shape| #[trigger] solves(s0, m) implies !agree_first(
        m,
        s0,
        ka,
        kb,
        ka.len() as int,
    ) by {
        if agree_first(m, s0, ka, kb, ka.len() as int) {
            assert(agree_first(m, s0, ka, kb, i));
            assert(solves(s1, m));
            lemma_step_eval(s0, s1, m, ka[i]);
            lemma_step_eval(s0, s1, m, kb[i]);
            assert(eval(m, term(s0, ka[i])) == eval(m, term(s0, kb[i])));
        }
    }
}

proof fn lemma_compressed_self(a: Store)
    requires
        store_ok(a),
    ensures
        compressed(a, a),
{
    assert forall|v: int| 0 <= v < a.vars.len() implies #[trigger] same_link(a, a, v) by {
        assert(state_ok(a, v));
    }
}

proof fn lemma_keeps_own_roots(a: Store)
    requires
        store_ok(a),
    ensures
        keeps_roots(a, a),
{
    assert forall|t: Ty| in_arena(a, t) implies #[trigger] root(a, t) == root(a, root(a, t)) by {
        lemma_root(a, t);
    }
}

/// Binding a representative is binding the types it stands for.
proof fn lemma_bound_roots(
    a: Store,
    b: Store,
    c: Store,
    t: Ty,
    u: Ty,
    ft: Ty,
    fu: Ty,
    v: i32,
)
    requires
        store_ok(a),
        store_ok(b),
        compressed(a, b),
        step(b, c),
        keeps_roots(b, c),
        in_arena(a, t),
        in_arena(a, u),
        ft == root(a, t),
        fu == root(a, u),
    ensures
        root(c, t) == root(c, ft),
        root(c, u) == root(c, fu),
        keeps_roots(a, c),
        bound_to(b, c, v, fu) && var_in(a, v) && !(a.vars[v as int] is Link) ==> bound_to(a, c, v, u),
{
    lemma_compressed_step(a, b);
    lemma_root(a, u);
    assert forall|x: Ty| in_arena(a, x) implies #[trigger] root(c, x) == root(c, root(a, x)) by {
        assert(term(b, x) == term(a, x) && root(b, x) == root(a, x));
    }
    assert(term(b, t) == term(a, t) && root(b, t) == ft);
    assert(term(b, u) == term(a, u) && root(b, u) == fu);
    if bound_to(b, c, v, fu) && var_in(a, v) && !(a.vars[v as int] is Link) {
        assert(term(b, fu) == term(a, u));
        assert(root(b, fu) == fu);
        assert(b.vars[v as int] == a.vars[v as int]);
        let l = level_of(a.vars[v as int]) as i32;
        assert forall|w: i32| var_in(a, w) && w != v implies #[trigger] adjusted_at(
            a,
            c,
            l,
            in_term(term(a, u)),
            w,
        ) by {
            assert(adjusted_at(b, c, l, in_term(term(b, fu)), w));
            assert(same_link(a, b, w as int));
        }
        assert forall|x: Ty| in_arena(a, x) implies #[trigger] term(c, x) == replaced(
            one(v, term(a, u)),
            term(a, x),
        ) by {
            assert(term(b, x) == term(a, x));
        }
    }
}

/// Unifying the representatives is unifying the types.
proof fn lemma_through_roots(
    a: Store,
    b: Store,
    c: Store,
    t: Ty,
    u: Ty,
    ft: Ty,
    fu: Ty,
    r: Result<(), UnifyError>,
)
    requires
        store_ok(a),
        store_ok(b),
        step(a, b),
        keeps_bound_free(a, b),
        in_arena(a, t),
        in_arena(a, u),
        in_arena(a, ft),
        in_arena(a, fu),
        ft == root(a, t),
        fu == root(a, u),
        root(b, ft) == ft,
        root(b, fu) == fu,
        term(b, ft) == term(a, t),
        term(b, fu) == term(a, u),
        term(b, t) == term(a, t),
        term(b, u) == term(a, u),
        forall|m: spec_fn(i32) -> Shape| #![auto] solves(b, m) <==> solves(a, m),
        compressed(a, b),
        unify_result(b, c, ft, fu, r),
    ensures
        unify_result(a, c, t, u, r),
{
    lemma_step_trans(a, b, c);
    assert(term(c, t) == term(c, ft)) by {
        assert(term(c, t) == replaced(var_terms(c), term(b, t)));
        assert(term(c, ft) == replaced(var_terms(c), term(b, ft)));
    }
    assert(term(c, u) == term(c, fu)) by {
        assert(term(c, u) == replaced(var_terms(c), term(b, u)));
        assert(term(c, fu) == replaced(var_terms(c), term(b, fu)));
    }
    match r {
        Ok(_) => {
            assert forall|m: spec_fn(i32) -> Shape| #[trigger] solves(c, m) <==> solves(a, m)
                && eval(m, term(a, t)) == eval(m, term(a, u)) by {
                assert(solves(b, m) <==> solves(a, m));
            }
        },
        Err(e) => {
            assert forall|m: spec_fn(i32) -> Shape| #[trigger] solves(a, m) implies eval(
                m,
                term(a, t),
            ) != eval(m, term(a, u)) by {
                assert(solves(b, m) <==> solves(a, m));
            }
            let deep = choose|deep: nat| #[trigger] failed(b, c, ft, fu, e, deep);
            lemma_failed_roots(a, b, c, t, u, ft, fu, e, deep);
        },
    }
}

proof fn lemma_flipped(
    b: Store,
    c: Store,
    t: Ty,
    u: Ty,
    r: Result<(), UnifyError>,
    out: Result<(), UnifyError>,
)
    requires
        unify_result(b, c, t, u, r),
        term(b, t) is Var,
        !(term(b, u) is Var),
        match r {
            Ok(_) => out is Ok,
            Err(e) => out == Err::<(), UnifyError>(e.flipped()),
        },
    ensures
        unify_result(b, c, u, t, out),
{
    match r {
        Ok(_) => {
            assert forall|m: spec_fn(i32) -> Shape| #[trigger] solves(c, m) <==> solves(b, m)
                && eval(m, term(b, u)) == eval(m, term(b, t)) by {}
        },
        Err(e) => {
            assert forall|m: spec_fn(i32) -> Shape| #[trigger] solves(b, m) implies eval(
                m,
                term(b, u),
            ) != eval(m, term(b, t)) by {}
            let deep = choose|deep: nat| #[trigger] failed(b, c, t, u, e, deep);
            assert(failed(b, c, u, t, e.flipped(), deep));
        },
    }
}

/// Types that clash at the outermost level have no shape in common.
proof fn lemma_clash_apart(s: Store, t: Ty, u: Ty)
    requires
        store_ok(s),
        in_arena(s, t),
        in_arena(s, u),
        root(s, t) == t,
        root(s, u) == u,
        !(term(s, t) is Var),
        !(term(s, u) is Var),
        bound_free(term(s, t)),
        bound_free(term(s, u)),
        clash(s, t, u) is Some,
    ensures
        apart(s, t, u),
{
    lemma_root(s, t);
    lemma_root(s, u);
    lemma_term(s, t);
    lemma_term(s, u);
    assert forall|m: spec_fn(i32) -> Shape| #[trigger] solves(s, m) implies eval(m, term(s, t))
        != eval(m, term(s, u)) by {
        match (s.nodes[t.0 as int], s.nodes[u.0 as int]) {
            (
                TypeNode::Con { id: ia, name: na, args: aa },
                TypeNode::Con { id: ib, name: nb, args: ab },
            ) => {
                let ta = terms(s, covered(s.kids, aa));
                let tb = terms(s, covered(s.kids, ab));
                assert(eval_all(m, ta).len() == aa.len);
                assert(eval_all(m, tb).len() == ab.len);
            },
            (TypeNode::Fun { params: pa, ret: ra }, TypeNode::Fun { params: pb, ret: rb }) => {
                let ta = terms(s, covered(s.kids, pa));
                let tb = terms(s, covered(s.kids, pb));
                assert(eval_all(m, ta).len() == pa.len);
                assert(eval_all(m, tb).len() == pb.len);
            },
            (TypeNode::Tuple { elems: ea }, TypeNode::Tuple { elems: eb }) => {
                let ta = terms(s, covered(s.kids, ea));
                let tb = terms(s, covered(s.kids, eb));
                assert(eval_all(m, ta).len() == ea.len);
                assert(eval_all(m, tb).len() == eb.len);
            },
            _ => {},
        }
    }
}

proof fn lemma_apart_roots(a: Store, b: Store, t: Ty, u: Ty, ft: Ty, fu: Ty)
    requires
        apart(b, ft, fu),
        term(b, ft) == term(a, t),
        term(b, fu) == term(a, u),
        forall|m: spec_fn(i32) -> Shape| #![auto] solves(b, m) <==> solves(a, m),
    ensures
        apart(a, t, u),
{
    assert forall|m: spec_fn(i32) -> Shape| #[trigger] solves(a, m) implies eval(m, term(a, t))
        != eval(m, term(a, u)) by {
        assert(solves(b, m) <==> solves(a, m));
    }
}

/// Lists of types have one shape each when the pairs have.
proof fn lemma_agree(m: spec_fn(i32) -> Shape, s: Store, ka: Seq<Ty>, kb: Seq<Ty>)
    requires
        ka.len() == kb.len(),
    ensures
        eval_all(m, terms(s, ka)) == eval_all(m, terms(s, kb)) <==> agree_first(
            m,
            s,
            ka,
            kb,
            ka.len() as int,
        ),
{
    let xa = eval_all(m, terms(s, ka));
    let xb = eval_all(m, terms(s, kb));
    if xa == xb {
        assert forall|i: int| 0 <= i < ka.len() implies eval(m, #[trigger] term(s, ka[i])) == eval(
            m,
            term(s, kb[i]),
        ) by {
            assert(xa[i] == xb[i]);
        }
    }
    if agree_first(m, s, ka, kb, ka.len() as int) {
        assert forall|i: int| 0 <= i < ka.len() implies xa[i] == xb[i] by {
            assert(eval(m, term(s, ka[i])) == eval(m, term(s, kb[i])));
        }
        assert(xa =~= xb);
    }
}

proof fn lemma_same_types(s: Store, ka: Seq<Ty>, kb: Seq<Ty>)
    requires
        ka.len() == kb.len(),
        forall|k: int| 0 <= k < ka.len() ==> same_type(#[trigger] term(s, ka[k]), term(s, kb[k])),
    ensures
        eval_all(|v: i32| Shape::Var(v), terms(s, ka)) == eval_all(
            |v: i32| Shape::Var(v),
            terms(s, kb),
        ),
{
    let id = |v: i32| Shape::Var(v);
    let xa = eval_all(id, terms(s, ka));
    let xb = eval_all(id, terms(s, kb));
    assert forall|i: int| 0 <= i < ka.len() implies xa[i] == xb[i] by {
        assert(same_type(term(s, ka[i]), term(s, kb[i])));
    }
    assert(xa =~= xb);
}

/// Nominal types, and tuples, are one when their children are.
proof fn lemma_children_all(
    b: Store,
    c: Store,
    x: ArenaSlice<Children>,
    y: ArenaSlice<Children>,
    t: Ty,
    u: Ty,
    r: Result<(), UnifyError>,
)
    requires
        store_ok(b),
        in_arena(b, t),
        in_arena(b, u),
        root(b, t) == t,
        root(b, u) == u,
        x.len == y.len,
        match (b.nodes[t.0 as int], b.nodes[u.0 as int]) {
            (
                TypeNode::Con { id: ia, name: na, args: aa },
                TypeNode::Con { id: ib, name: nb, args: ab },
            ) => ia == ib && aa == x && ab == y,
            (TypeNode::Tuple { elems: ea }, TypeNode::Tuple { elems: eb }) => ea == x && eb == y,
            _ => false,
        },
        children_result(b, c, x, y, t, u, r),
    ensures
        unify_result(b, c, t, u, r),
{
    lemma_term(b, t);
    lemma_term(b, u);
    lemma_term(c, t);
    lemma_term(c, u);
    let ka = covered(b.kids, x);
    let kb = covered(b.kids, y);
    assert forall|m: spec_fn(i32) -> Shape| (eval(m, term(b, t)) == eval(m, term(b, u)))
        == #[trigger] agree_first(m, b, ka, kb, x.len as int) by {
        lemma_agree(m, b, ka, kb);
    }
    match r {
        Ok(_) => {
            assert forall|m: spec_fn(i32) -> Shape| #[trigger] solves(c, m) <==> solves(b, m)
                && eval(m, term(b, t)) == eval(m, term(b, u)) by {
                assert((eval(m, term(b, t)) == eval(m, term(b, u))) == agree_first(
                    m,
                    b,
                    ka,
                    kb,
                    x.len as int,
                ));
            }
            lemma_same_types(c, ka, kb);
        },
        Err(e) => {
            assert forall|m: spec_fn(i32) -> Shape| #[trigger] solves(b, m) implies eval(
                m,
                term(b, t),
            ) != eval(m, term(b, u)) by {
                assert((eval(m, term(b, t)) == eval(m, term(b, u))) == agree_first(
                    m,
                    b,
                    ka,
                    kb,
                    x.len as int,
                ));
            }
            let (mid, k, inner, deep) = choose|mid: Store, k: int, inner: UnifyError, deep: nat|
                #[trigger] child_failed(b, mid, c, ka, kb, k, inner, deep) && e == enclosed(
                    inner,
                    t,
                    u,
                );
            lemma_part_failed(b, mid, c, t, u, ka, kb, k, inner, deep);
        },
    }
}

/// Functions whose parameters cannot be one cannot be one.
proof fn lemma_children_err(
    b: Store,
    c: Store,
    x: ArenaSlice<Children>,
    y: ArenaSlice<Children>,
    t: Ty,
    u: Ty,
    r: Result<(), UnifyError>,
)
    requires
        store_ok(b),
        in_arena(b, t),
        in_arena(b, u),
        root(b, t) == t,
        root(b, u) == u,
        x.len == y.len,
        match (b.nodes[t.0 as int], b.nodes[u.0 as int]) {
            (TypeNode::Fun { params: pa, ret: ra }, TypeNode::Fun { params: pb, ret: rb }) => pa == x
                && pb == y,
            _ => false,
        },
        children_result(b, c, x, y, t, u, r),
        r is Err,
    ensures
        unify_result(b, c, t, u, r),
{
    lemma_term(b, t);
    lemma_term(b, u);
    let ka = covered(b.kids, x);
    let kb = covered(b.kids, y);
    assert forall|m: spec_fn(i32) -> Shape| #[trigger] solves(b, m) implies eval(m, term(b, t))
        != eval(m, term(b, u)) by {
        lemma_agree(m, b, ka, kb);
    }
    let e = r->Err_0;
    let (mid, k, inner, deep) = choose|mid: Store, k: int, inner: UnifyError, deep: nat|
        #[trigger] child_failed(b, mid, c, ka, kb, k, inner, deep) && e == enclosed(inner, t, u);
    lemma_part_failed(b, mid, c, t, u, ka, kb, k, inner, deep);
}

/// Functions are one when their parameters and their results are.
proof fn lemma_fun_all(
    b: Store,
    c: Store,
    d: Store,
    x: ArenaSlice<Children>,
    y: ArenaSlice<Children>,
    ra: Ty,
    rb: Ty,
    t: Ty,
    u: Ty,
    r2: Result<(), UnifyError>,
    out: Result<(), UnifyError>,
)
    requires
        store_ok(b),
        in_arena(b, t),
        in_arena(b, u),
        root(b, t) == t,
        root(b, u) == u,
        x.len == y.len,
        match (b.nodes[t.0 as int], b.nodes[u.0 as int]) {
            (TypeNode::Fun { params: pa, ret: r1 }, TypeNode::Fun { params: pb, ret: r2 }) => pa
                == x && pb == y && r1 == ra && r2 == rb,
            _ => false,
        },
        children_result(b, c, x, y, t, u, Ok(())),
        unify_result(c, d, ra, rb, r2),
        match r2 {
            Ok(_) => out is Ok,
            Err(e) => out == Err::<(), UnifyError>(enclosed(e, t, u)),
        },
    ensures
        unify_result(b, d, t, u, out),
{
    lemma_term(b, t);
    lemma_term(b, u);
    lemma_step_trans(b, c, d);
    lemma_term(d, t);
    lemma_term(d, u);
    let ka = covered(b.kids, x);
    let kb = covered(b.kids, y);
    assert(in_arena(b, ra) && in_arena(b, rb));
    assert forall|m: spec_fn(i32) -> Shape| (eval(m, term(b, t)) == eval(m, term(b, u)))
        == #[trigger] fun_agree(m, b, ka, kb, ra, rb) by {
        lemma_agree(m, b, ka, kb);
    }
    assert forall|m: spec_fn(i32) -> Shape| #[trigger] solves(c, m) implies eval(m, term(c, ra))
        == eval(m, term(b, ra)) && eval(m, term(c, rb)) == eval(m, term(b, rb)) by {
        lemma_step_eval(b, c, m, ra);
        lemma_step_eval(b, c, m, rb);
    }
    match r2 {
        Ok(_) => {
            assert forall|m: spec_fn(i32) -> Shape| #[trigger] solves(d, m) <==> solves(b, m)
                && eval(m, term(b, t)) == eval(m, term(b, u)) by {
                assert((eval(m, term(b, t)) == eval(m, term(b, u))) == fun_agree(
                    m,
                    b,
                    ka,
                    kb,
                    ra,
                    rb,
                ));
                assert(solves(c, m) <==> solves(b, m) && agree_first(m, b, ka, kb, x.len as int));
            }
            assert forall|k: int| 0 <= k < ka.len() implies same_type(
                #[trigger] term(d, ka[k]),
                term(d, kb[k]),
            ) by {
                assert(node_ok(b, t.0 as int));
                assert(node_ok(b, u.0 as int));
                assert(ka[k] == b.kids[x.start + k]);
                assert(kb[k] == b.kids[y.start + k]);
                assert(same_type(term(c, ka[k]), term(c, kb[k])));
                lemma_same_type_refines(c, d, ka[k], kb[k]);
            }
            lemma_same_types(d, ka, kb);
        },
        Err(e) => {
            assert forall|m: spec_fn(i32) -> Shape| #[trigger] solves(b, m) implies eval(
                m,
                term(b, t),
            ) != eval(m, term(b, u)) by {
                assert((eval(m, term(b, t)) == eval(m, term(b, u))) == fun_agree(
                    m,
                    b,
                    ka,
                    kb,
                    ra,
                    rb,
                ));
                if fun_agree(m, b, ka, kb, ra, rb) {
                    assert(solves(c, m));
                }
            }
            let deep = choose|deep: nat| #[trigger] failed(c, d, ra, rb, e, deep);
            let (pa, pb) = (parts(b, t), parts(b, u));
            let n = ka.len() as int;
            assert forall|m: spec_fn(i32) -> Shape| #[trigger] solves(c, m) <==> solves(b, m)
                && agree_first(m, b, pa, pb, n) by {
                if agree_first(m, b, ka, kb, n) {
                    assert forall|i: int| 0 <= i < n implies eval(m, #[trigger] term(b, pa[i]))
                        == eval(m, term(b, pb[i])) by {
                        assert(eval(m, term(b, ka[i])) == eval(m, term(b, kb[i])));
                    }
                }
                if agree_first(m, b, pa, pb, n) {
                    assert forall|i: int| 0 <= i < n implies eval(m, #[trigger] term(b, ka[i]))
                        == eval(m, term(b, kb[i])) by {
                        assert(eval(m, term(b, pa[i])) == eval(m, term(b, pb[i])));
                    }
                }
            }
            assert(child_failed(b, c, d, pa, pb, n, e, deep));
            lemma_part_failed(b, c, d, t, u, pa, pb, n, e, deep);
        },
    }
}

spec fn fun_agree(
    m: spec_fn(i32) -> Shape,
    s: Store,
    ka: Seq<Ty>,
    kb: Seq<Ty>,
    ra: Ty,
    rb: Ty,
) -> bool {
    agree_first(m, s, ka, kb, ka.len() as int) && eval(m, term(s, ra)) == eval(m, term(s, rb))
}

} // verus!
