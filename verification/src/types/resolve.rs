//! Resolution: from the engine's types to [`Type`].

use crate::entries::{Entries, lemma_get};
use crate::text::{push_decimal_int, same_text};
use crate::type_def::{
    FieldDef, PrimitiveKind, t_array, t_float, t_int, t_string, t_tuple, t_var, Type, TypeId,
    VariantDef,
};
use crate::types::environment::{TypeBody, Variant};
use crate::types::generalize::constraint_of;
use crate::types::infer::InferEngine;
use crate::types::letters::bound_letter;
use crate::types::naming::{lemma_naming_strings, Naming};
use crate::types::node::{ArenaSlice, covered, Prim, RootVarState, StrId, Ty, TypeNode};
use crate::types::pool::{Children, TypeParams, Variants};
use crate::types::resolved::{
    distinct, exact, field_ok, field_value, field_values, first_named, info_ok, keys_of,
    law_paths_are_short, left, lemma_all_cost, lemma_fields_cost, lemma_variants_cost,
    MAX_NOMINAL_RECURRENCE, MAX_SAME_INSTANCE_UNROLL, Path, path_ok, put_variant, recurs, resolved,
    Resolved, resolved_all, resolved_fields, resolved_variants, step_ok, type_key, type_value,
    type_values, variant_ok, variant_value, variant_values, World, world_ok,
};
use crate::types::rewrite::{rewritten, substituting, weight};
use crate::types::term::{
    grows, in_arena, lemma_compressed_grows, lemma_grows_trans, lemma_kid_terms_grow, lemma_root,
    lemma_same_nodes_names, lemma_term, live, name_below, names_below, no_new_names, root,
    slice_fits, slice_ok, Term, term, terms, var_in,
};
use crate::types::type_env::TypeEnv;
use vstd::prelude::*;

verus! {

/// The nominal instances being unrolled, and how often one may be.
pub struct ResolvePath {
    pub stack: Vec<(TypeId, String)>,
    pub same_limit: usize,
}

impl ResolvePath {
    pub open spec fn view(&self) -> Path {
        Seq::new(self.stack@.len(), |i: int| (self.stack@[i].0, self.stack@[i].1@))
    }

    /// Whether that exact instance is on the path too often, or this nominal
    /// type has recurred too often without repeating.
    fn would_recurse(&self, id: TypeId, args_key: &str) -> (r: bool)
        requires
            self.same_limit >= 1,
        ensures
            r == recurs(self@, id, args_key@, self.same_limit as nat),
    {
        let mut same: usize = 0;
        let mut other: usize = 0;
        let mut i: usize = 0;
        let ghost path = self@;
        proof {
            assert(path.take(0) =~= Seq::empty());
        }
        while i < self.stack.len()
            invariant
                i <= self.stack@.len(),
                path == self@,
                self.same_limit >= 1,
                same <= i,
                other <= i,
                same < self.same_limit,
                same == exact(path.take(i as int), id, args_key@),
                other == distinct(path.take(i as int), id, args_key@),
            decreases self.stack@.len() - i,
        {
            proof {
                assert(path.take(i + 1).drop_last() =~= path.take(i as int));
                assert(path.take(i + 1).last() == path[i as int]);
            }
            if self.stack[i].0 == id {
                if same_text(self.stack[i].1.as_str(), args_key) {
                    same += 1;
                    if same >= self.same_limit {
                        proof {
                            lemma_exact_grows(path, id, args_key@, i + 1);
                        }
                        return true;
                    }
                } else {
                    other += 1;
                }
            }
            i += 1;
        }
        proof {
            assert(path.take(i as int) =~= path);
        }
        other >= MAX_NOMINAL_RECURRENCE
    }
}

proof fn lemma_exact_grows(path: Path, id: TypeId, key: Seq<char>, n: int)
    requires
        0 <= n <= path.len(),
    ensures
        exact(path.take(n), id, key) <= exact(path, id, key),
    decreases path.len(),
{
    if n < path.len() {
        assert(path.drop_last().take(n) =~= path.take(n));
        lemma_exact_grows(path.drop_last(), id, key, n);
    } else {
        assert(path.take(n) =~= path);
    }
}

/// The key of a list of arguments.
pub fn type_args_key(args: &Vec<Type>) -> (r: String)
    ensures
        r@ == keys_of(type_values(args@)),
{
    let mut out = String::new();
    proof {
        assert(out@ =~= Seq::<char>::empty());
    }
    write_keys(args, &mut out);
    proof {
        assert(out@ =~= keys_of(type_values(args@)));
    }
    out
}

fn write_keys(ts: &Vec<Type>, out: &mut String)
    ensures
        final(out)@ == old(out)@ + keys_of(type_values(ts@)),
    decreases ts@, 0nat,
{
    let mut i: usize = 0;
    let ghost vals = type_values(ts@);
    proof {
        assert(vals.take(0) =~= Seq::empty());
        assert(out@ =~= old(out)@ + keys_of(vals.take(0)));
    }
    while i < ts.len()
        invariant
            i <= ts@.len(),
            vals == type_values(ts@),
            out@ == old(out)@ + keys_of(vals.take(i as int)),
        decreases ts@.len() - i,
    {
        write_type_key(&ts[i], out);
        out.push(',');
        proof {
            let next = vals.take(i + 1);
            assert(next.drop_last() =~= vals.take(i as int));
            assert(next.last() == type_value(ts@[i as int]));
            assert(out@ =~= old(out)@ + keys_of(next));
        }
        i += 1;
    }
    proof {
        assert(vals.take(i as int) =~= vals);
    }
}

fn write_type_key(t: &Type, out: &mut String)
    ensures
        final(out)@ == old(out)@ + type_key(type_value(*t)),
    decreases t, 1nat,
{
    let ghost before = out@;
    match t {
        Type::Primitive { kind } => match kind {
            PrimitiveKind::Int => out.push('i'),
            PrimitiveKind::Float => out.push('f'),
            PrimitiveKind::String => out.push('s'),
        },
        Type::Var { name: _ } => out.push('_'),
        Type::Array { element } => {
            out.push('[');
            write_type_key(element, out);
            out.push(']');
        },
        Type::Tuple { elements } => {
            out.push('(');
            write_keys(elements, out);
            out.push(')');
        },
        Type::Function { params, ret } => {
            out.push('{');
            write_keys(params, out);
            out.append("->");
            write_type_key(ret, out);
            out.push('}');
        },
        Type::Named { id, name: _, type_args, variants: _ } => {
            out.push('N');
            push_decimal_int(out, id.0 as i64);
            out.push('<');
            write_keys(type_args, out);
            out.push('>');
        },
    }
    proof {
        assert(out@ =~= before + type_key(type_value(*t)));
    }
}

/// What resolution reads beside the type, as the engine and an environment
/// stand.
pub open spec fn world(e: &InferEngine, env: Option<&TypeEnv>) -> World {
    World {
        prims: e.prim_ids,
        ids: match env {
            Some(x) => x.now().ids,
            None => Entries { keys: Seq::empty(), vals: Seq::empty() },
        },
        variants: e.variants@,
        fields: e.variant_fields@,
        params: e.type_params@,
        strings: e.strings@,
        known: |t: Ty| e.has(t),
        types: |t: Ty| e.term(t),
        constraints: |v: i32| constraint_of(e.vars@[v as int]),
    }
}

/// The engine still answers as the world says.
pub open spec fn agrees(e: &InferEngine, w: World) -> bool {
    &&& e.prim_ids == w.prims
    &&& e.variants@ == w.variants
    &&& e.variant_fields@ == w.fields
    &&& e.type_params@ == w.params
    &&& w.strings.is_prefix_of(e.strings@)
    &&& names_below(e.store(), w.strings.len() as int)
    &&& forall|t: Ty| #[trigger] (w.known)(t) ==> e.has(t) && e.term(t) == (w.types)(t)
    &&& forall|v: i32|
        var_in(e.store(), v) && !(e.vars@[v as int] is Link) ==> #[trigger] (w.constraints)(v)
            == constraint_of(e.vars@[v as int])
}

/// What resolving leaves of the engine.
pub open spec fn only_resolved(b: &InferEngine, a: &InferEngine, cost: nat) -> bool {
    &&& b.wf()
    &&& grows(a.store(), b.store())
    &&& no_new_names(a.store(), b.store())
    &&& a.strings@.is_prefix_of(b.strings@)
    &&& b.strings@.len() <= a.strings@.len() + cost
    &&& b.nodes@.len() <= a.nodes@.len() + cost
    &&& b.children@.len() <= a.children@.len() + cost
    &&& b.vars@.len() == a.vars@.len()
    &&& b.only_types(a)
    &&& b.prim_ids == a.prim_ids
    &&& b.current_level == a.current_level
    &&& b.diagnostics == a.diagnostics
    &&& b.nullary_cache == a.nullary_cache
}

pub open spec fn room_for(e: &InferEngine, cost: nat) -> bool {
    e.room(cost, cost) && e.strings@.len() + cost <= 0xFFFF_FFFF
}

pub proof fn lemma_only_resolved_trans(a: &InferEngine, b: &InferEngine, c: &InferEngine, m: nat, n: nat)
    requires
        only_resolved(b, a, m),
        only_resolved(c, b, n),
    ensures
        only_resolved(c, a, m + n),
{
    lemma_grows_trans(a.store(), b.store(), c.store());
}

pub proof fn lemma_agrees(a: &InferEngine, b: &InferEngine, w: World, n: nat)
    requires
        agrees(a, w),
        only_resolved(b, a, n),
    ensures
        agrees(b, w),
{
    let sa = a.store();
    let sb = b.store();
    assert(names_below(sa, w.strings.len() as int));
    assert forall|t: Ty| #[trigger] (w.known)(t) implies b.has(t) && b.term(t) == (w.types)(t) by {
        assert(a.has(t));
        assert(sa.live[t.0 as int] == sb.live[t.0 as int]);
        assert(term(sb, t) == term(sa, t));
    }
    assert forall|v: i32| var_in(sb, v) && !(b.vars@[v as int] is Link) implies #[trigger] (
    w.constraints)(v) == constraint_of(b.vars@[v as int]) by {
        assert(sa.vars[v as int] is Link <==> sb.vars[v as int] is Link);
    }
}

/// The environment is the one the world was made with.
pub open spec fn env_of(env: Option<&TypeEnv>, w: World) -> bool {
    match env {
        Some(x) => x.wf() && x.now().ids == w.ids,
        None => w.ids.keys.len() == 0 && w.ids.vals.len() == 0,
    }
}

impl InferEngine {
    /// The type at `ty`, resolved, with a self-recursive nominal type unrolled
    /// once.
    pub fn resolve(&mut self, ty: Ty, env: Option<&TypeEnv>) -> (r: Type)
        requires
            old(self).wf(),
            old(self).has(ty),
            env matches Some(x) ==> x.wf(),
            world_ok(world(old(self), env)),
            room_for(
                old(self),
                resolved(
                    world(old(self), env),
                    old(self).term(ty),
                    old(self).naming(),
                    Seq::empty(),
                    1,
                ).cost,
            ),
        ensures
            ({
                let o = resolved(
                    world(old(self), env),
                    old(self).term(ty),
                    old(self).naming(),
                    Seq::empty(),
                    1,
                );
                &&& type_value(r) == o.ty
                &&& final(self).naming() == o.naming
                &&& only_resolved(final(self), old(self), o.cost)
            }),
    {
        let ghost w = world(self, env);
        let mut path = ResolvePath { stack: Vec::new(), same_limit: 1 };
        proof {
            assert(path@ =~= Seq::empty());
        }
        self.resolve_inner(ty, env, &mut path, Ghost(w))
    }

    /// As [`resolve`](Self::resolve), with a self-recursive nominal type
    /// unrolled up to `depth` times: exhaustiveness needs the variant tables as
    /// deep as the patterns inspect.
    pub fn resolve_for_patterns(&mut self, ty: Ty, env: Option<&TypeEnv>, depth: usize) -> (r: Type)
        requires
            old(self).wf(),
            old(self).has(ty),
            env matches Some(x) ==> x.wf(),
            world_ok(world(old(self), env)),
            room_for(
                old(self),
                resolved(
                    world(old(self), env),
                    old(self).term(ty),
                    old(self).naming(),
                    Seq::empty(),
                    unroll_limit(depth as int),
                ).cost,
            ),
        ensures
            ({
                let o = resolved(
                    world(old(self), env),
                    old(self).term(ty),
                    old(self).naming(),
                    Seq::empty(),
                    unroll_limit(depth as int),
                );
                &&& type_value(r) == o.ty
                &&& final(self).naming() == o.naming
                &&& only_resolved(final(self), old(self), o.cost)
            }),
    {
        let ghost w = world(self, env);
        let same_limit: usize = if depth < 1 {
            1
        } else if depth > MAX_SAME_INSTANCE_UNROLL {
            MAX_SAME_INSTANCE_UNROLL
        } else {
            depth
        };
        let mut path = ResolvePath { stack: Vec::new(), same_limit };
        proof {
            assert(path@ =~= Seq::empty());
        }
        self.resolve_inner(ty, env, &mut path, Ghost(w))
    }

    pub(crate) fn resolve_inner(
        &mut self,
        ty: Ty,
        env: Option<&TypeEnv>,
        path: &mut ResolvePath,
        Ghost(w): Ghost<World>,
    ) -> (r: Type)
        requires
            old(self).wf(),
            old(self).has(ty),
            env_of(env, w),
            world_ok(w),
            agrees(old(self), w),
            old(path).same_limit >= 1,
            path_ok(w, old(path)@, old(path).same_limit as nat),
            room_for(
                old(self),
                resolved(
                    w,
                    old(self).term(ty),
                    old(self).naming(),
                    old(path)@,
                    old(path).same_limit as nat,
                ).cost,
            ),
        ensures
            final(path)@ == old(path)@,
            final(path).same_limit == old(path).same_limit,
            ({
                let o = resolved(
                    w,
                    old(self).term(ty),
                    old(self).naming(),
                    old(path)@,
                    old(path).same_limit as nat,
                );
                &&& type_value(r) == o.ty
                &&& final(self).naming() == o.naming
                &&& only_resolved(final(self), old(self), o.cost)
            }),
        decreases left(w, old(path)@, old(path).same_limit as nat), 1nat, old(self).rank@[ty.0 as int], 2nat,
    {
        let ghost a = self.store();
        let ghost e0 = *self;
        let ghost limit = path.same_limit as nat;
        let r = self.find(ty);
        let ghost b = self.store();
        let ghost e1 = *self;
        proof {
            lemma_root(a, ty);
            lemma_compressed_grows(a, b);
            lemma_same_nodes_names(a, b);
            assert(term(b, r) == term(a, ty));
            assert(root(b, r) == r);
            lemma_root(b, r);
            lemma_term(b, r);
            lemma_naming_strings(&e0, self);
            assert(only_resolved(self, &e0, 0));
            lemma_agrees(&e0, self, w, 0);
        }
        match self.node(r) {
            TypeNode::Var(id) => {
                let constraint = match self.root_var(id) {
                    RootVarState::Unbound { level, constraint } => constraint,
                    RootVarState::Generic { id, constraint } => constraint,
                };
                proof {
                    assert((w.constraints)(id) == constraint_of(self.vars@[id as int]));
                }
                if let Some(c) = constraint {
                    return t_var(c.name());
                }
                let name = self.display(id);
                proof {
                    lemma_same_nodes_names(b, self.store());
                    assert(grows(b, self.store()));
                    assert(only_resolved(self, &e1, 1));
                    lemma_only_resolved_trans(&e0, &e1, self, 0, 1);
                }
                t_var(name.as_str())
            },
            TypeNode::Con { id, name, args } => {
                proof {
                    assert(live(b, r.0 as int));
                    assert(name_below(b.nodes[r.0 as int], w.strings.len() as int));
                }
                let text = self.str(name).to_owned();
                let out = self.resolve_icon(id, name, text.as_str(), args, env, path, r, Ghost(w));
                proof {
                    lemma_only_resolved_trans(
                        &e0,
                        &e1,
                        self,
                        0,
                        resolved(w, term(b, r), e1.naming(), path@, limit).cost,
                    );
                }
                out
            },
            TypeNode::Fun { params, ret } => {
                let ghost ps = resolved_all(
                    w,
                    terms(b, covered(b.kids, params)),
                    e1.naming(),
                    path@,
                    limit,
                );
                let list = self.resolve_slice(params, env, path, r, Ghost(w));
                let ghost e2 = *self;
                proof {
                    lemma_agrees(&e1, self, w, ps.cost);
                    assert(self.store().live[ret.0 as int] == b.live[ret.0 as int]);
                    assert(self.store().rank[ret.0 as int] == b.rank[ret.0 as int]);
                    assert(term(self.store(), ret) == term(b, ret));
                }
                let ret_t = self.resolve_inner(ret, env, path, Ghost(w));
                proof {
                    let rc = resolved(w, term(b, ret), ps.naming, path@, limit).cost;
                    lemma_only_resolved_trans(&e1, &e2, self, ps.cost, rc);
                    lemma_only_resolved_trans(&e0, &e1, self, 0, ps.cost + rc);
                }
                Type::Function { params: list, ret: Box::new(ret_t) }
            },
            TypeNode::Tuple { elems } => {
                let list = self.resolve_slice(elems, env, path, r, Ghost(w));
                proof {
                    lemma_only_resolved_trans(
                        &e0,
                        &e1,
                        self,
                        0,
                        resolved_all(
                            w,
                            terms(b, covered(b.kids, elems)),
                            e1.naming(),
                            path@,
                            limit,
                        ).cost,
                    );
                }
                t_tuple(list)
            },
            TypeNode::Bound(i) => t_var(bound_letter(i).as_str()),
        }
    }

    /// The types of a child list, resolved in order.
    fn resolve_slice(
        &mut self,
        sl: ArenaSlice<Children>,
        env: Option<&TypeEnv>,
        path: &mut ResolvePath,
        whole: Ty,
        Ghost(w): Ghost<World>,
    ) -> (r: Vec<Type>)
        requires
            old(self).wf(),
            old(self).has(whole),
            slice_ok(old(self).store(), sl, old(self).rank@[whole.0 as int]),
            env_of(env, w),
            world_ok(w),
            agrees(old(self), w),
            old(path).same_limit >= 1,
            path_ok(w, old(path)@, old(path).same_limit as nat),
            room_for(
                old(self),
                resolved_all(
                    w,
                    terms(old(self).store(), covered(old(self).children@, sl)),
                    old(self).naming(),
                    old(path)@,
                    old(path).same_limit as nat,
                ).cost,
            ),
        ensures
            final(path)@ == old(path)@,
            final(path).same_limit == old(path).same_limit,
            ({
                let o = resolved_all(
                    w,
                    terms(old(self).store(), covered(old(self).children@, sl)),
                    old(self).naming(),
                    old(path)@,
                    old(path).same_limit as nat,
                );
                &&& type_values(r@) == o.tys
                &&& final(self).naming() == o.naming
                &&& only_resolved(final(self), old(self), o.cost)
            }),
        decreases left(w, old(path)@, old(path).same_limit as nat), 1nat, old(self).rank@[whole.0 as int], 0nat,
    {
        let ghost a = self.store();
        let ghost e0 = *self;
        let ghost ks = covered(a.kids, sl);
        let ghost ts = terms(a, ks);
        let ghost p = path@;
        let ghost limit = path.same_limit as nat;
        let ghost n0 = self.naming();
        let mut out: Vec<Type> = Vec::new();
        let start: usize = sl.start as usize;
        let mut i: usize = 0;
        proof {
            assert(ts.take(0) =~= Seq::empty());
            assert(type_values(out@) =~= Seq::empty());
            assert(grows(a, a));
        }
        while i < sl.len as usize
            invariant
                0 <= i <= sl.len,
                start == sl.start,
                e0 == *old(self),
                a == e0.store(),
                e0.wf(),
                in_arena(a, whole),
                slice_ok(a, sl, a.rank[whole.0 as int]),
                ks == covered(a.kids, sl),
                ts == terms(a, ks),
                ts.len() == sl.len,
                path@ == old(path)@,
                path.same_limit == old(path).same_limit,
                p == path@,
                limit == path.same_limit,
                limit >= 1,
                n0 == e0.naming(),
                env_of(env, w),
                world_ok(w),
                agrees(self, w),
                path_ok(w, p, limit),
                room_for(&e0, resolved_all(w, ts, n0, p, limit).cost),
                self.wf(),
                only_resolved(self, &e0, resolved_all(w, ts.take(i as int), n0, p, limit).cost),
                self.naming() == resolved_all(w, ts.take(i as int), n0, p, limit).naming,
                type_values(out@) == resolved_all(w, ts.take(i as int), n0, p, limit).tys,
            decreases sl.len - i,
        {
            let kid = self.children[start + i];
            let ghost e1 = *self;
            let ghost out0 = out@;
            proof {
                assert(a.kids[start + i] == kid);
                assert(ks[i as int] == kid);
                assert(ts[i as int] == term(a, kid));
                let b = self.store();
                assert(b.live[kid.0 as int] == a.live[kid.0 as int]);
                assert(b.rank[kid.0 as int] == a.rank[kid.0 as int]);
                assert(term(b, kid) == term(a, kid));
                assert(ts.take(i + 1).drop_last() =~= ts.take(i as int));
                assert(ts.take(i + 1).last() == ts[i as int]);
                lemma_all_cost(w, ts, n0, p, limit, i + 1);
            }
            let t = self.resolve_inner(kid, env, path, Ghost(w));
            out.push(t);
            proof {
                let c0 = resolved_all(w, ts.take(i as int), n0, p, limit).cost;
                let c1 = resolved(w, ts[i as int], e1.naming(), p, limit).cost;
                lemma_only_resolved_trans(&e0, &e1, self, c0, c1);
                lemma_agrees(&e1, self, w, c1);
                assert(type_values(out@) =~= type_values(out0).push(type_value(t)));
            }
            i += 1;
        }
        proof {
            assert(ts.take(i as int) =~= ts);
        }
        out
    }

    fn resolve_icon(
        &mut self,
        id: TypeId,
        name: StrId,
        text: &str,
        args: ArenaSlice<Children>,
        env: Option<&TypeEnv>,
        path: &mut ResolvePath,
        whole: Ty,
        Ghost(w): Ghost<World>,
    ) -> (r: Type)
        requires
            old(self).wf(),
            old(self).has(whole),
            old(self).nodes@[whole.0 as int] == (TypeNode::Con { id, name, args }),
            name.0 < w.strings.len(),
            text@ == w.strings[name.0 as int],
            env_of(env, w),
            world_ok(w),
            agrees(old(self), w),
            old(path).same_limit >= 1,
            path_ok(w, old(path)@, old(path).same_limit as nat),
            room_for(
                old(self),
                resolved(
                    w,
                    old(self).term(whole),
                    old(self).naming(),
                    old(path)@,
                    old(path).same_limit as nat,
                ).cost,
            ),
        ensures
            final(path)@ == old(path)@,
            final(path).same_limit == old(path).same_limit,
            ({
                let o = resolved(
                    w,
                    old(self).term(whole),
                    old(self).naming(),
                    old(path)@,
                    old(path).same_limit as nat,
                );
                &&& type_value(r) == o.ty
                &&& final(self).naming() == o.naming
                &&& only_resolved(final(self), old(self), o.cost)
            }),
        decreases left(w, old(path)@, old(path).same_limit as nat), 1nat, old(self).rank@[whole.0 as int], 1nat,
    {
        let ghost a = self.store();
        let ghost e0 = *self;
        let ghost limit = path.same_limit as nat;
        let ghost p = path@;
        let ghost ts = terms(a, covered(a.kids, args));
        proof {
            lemma_term(a, whole);
            assert(grows(a, a));
        }
        // The primitives are declared external, but resolve to `Primitive`, so
        // that they have infinitely many constructors. `Array` resolves
        // structurally, so that `[h, ..t]` patterns work.
        match self.as_prim(id) {
            Some(Prim::Int) => {
                return t_int();
            },
            Some(Prim::Float) => {
                return t_float();
            },
            Some(Prim::String) => {
                return t_string();
            },
            None => {},
        }
        if id == self.prim_ids.array {
            if args.len == 0 {
                let elem = t_var("a");
                proof {
                    assert(type_value(elem) == (Resolved::Var { name: "a"@ }));
                    assert(ts.len() == 0);
                }
                return t_array(elem);
            }
            let first = self.children[args.start as usize];
            proof {
                assert(a.kids[args.start as int] == first);
                assert(covered(a.kids, args)[0] == first);
                assert(ts[0] == term(a, first));
            }
            let elem = self.resolve_inner(first, env, path, Ghost(w));
            return t_array(elem);
        }
        // By nominal id, never by name: a same-named type must not answer for
        // this one.
        let info = match env {
            Some(x) => x.lookup_type_info_by_id(id),
            None => None,
        };
        proof {
            assert(info == w.ids.get(id.0)) by {
                if env is None {
                    assert(!w.ids.keys.contains(id.0));
                }
            }
            lemma_con_cost(w, id, name, ts, e0.naming(), p, limit);
        }
        let ghost ra = resolved_all(w, ts, e0.naming(), p, limit);
        let resolved_args = self.resolve_slice(args, env, path, whole, Ghost(w));
        let ghost e1 = *self;
        proof {
            lemma_agrees(&e0, self, w, ra.cost);
        }
        let key = type_args_key(&resolved_args);
        if let Some(ti) = info {
            if !path.would_recurse(id, key.as_str()) {
                proof {
                    let j = w.ids.keys.index_of(id.0);
                    assert(w.ids.keys.contains(id.0));
                    lemma_get(w.ids, id.0, j);
                    assert(info_ok(w, w.ids.vals[j]));
                    law_paths_are_short(w, p, limit);
                    lemma_path_enter(w, p, limit, id, key@);
                    lemma_kid_terms_grow(a, e1.store(), args);
                }
                let ghost inner = p.push((id, key@));
                match ti.body {
                    TypeBody::Custom { variants, ctors_public, must_name_variants } => {
                        path.stack.push((id, key));
                        proof {
                            assert(path@ =~= inner);
                        }
                        let vs = self.resolve_variants(
                            variants,
                            ti.type_params,
                            args,
                            env,
                            path,
                            Ghost(w),
                        );
                        let ghost mid = path@;
                        path.stack.pop();
                        proof {
                            assert(path@ =~= mid.drop_last());
                            assert(mid.drop_last() =~= p);
                            let rv = resolved_variants(
                                w,
                                covered(w.variants, variants),
                                covered(w.params, ti.type_params),
                                ts,
                                ra.naming,
                                inner,
                                limit,
                            );
                            lemma_only_resolved_trans(&e0, &e1, self, ra.cost, rv.cost);
                        }
                        return Type::Named {
                            id,
                            name: text.to_owned(),
                            type_args: resolved_args,
                            variants: vs,
                        };
                    },
                    TypeBody::Alias { target } => {
                        proof {
                            assert((w.known)(target));
                        }
                        let s = self.substitute_type_vars_slice(target, ti.type_params, args);
                        let ghost e2 = *self;
                        let ghost body = (w.types)(target);
                        path.stack.push((id, key));
                        proof {
                            assert(path@ =~= inner);
                            lemma_naming_strings(&e1, &e2);
                            assert(only_resolved(&e2, &e1, weight(body)));
                            lemma_agrees(&e1, &e2, w, weight(body));
                        }
                        let out = self.resolve_inner(s, env, path, Ghost(w));
                        let ghost mid = path@;
                        path.stack.pop();
                        proof {
                            assert(path@ =~= mid.drop_last());
                            assert(mid.drop_last() =~= p);
                            let o = resolved(
                                w,
                                rewritten(
                                    substituting(covered(w.params, ti.type_params), ts),
                                    body,
                                ),
                                ra.naming,
                                inner,
                                limit,
                            );
                            lemma_only_resolved_trans(&e0, &e1, &e2, ra.cost, weight(body));
                            lemma_only_resolved_trans(
                                &e0,
                                &e2,
                                self,
                                ra.cost + weight(body),
                                o.cost,
                            );
                        }
                        return out;
                    },
                    _ => {},
                }
            }
        }
        let none: Vec<VariantDef> = Vec::new();
        proof {
            assert(variant_values(none@) =~= Seq::empty());
        }
        Type::Named { id, name: text.to_owned(), type_args: resolved_args, variants: none }
    }

    /// A variant table, its field types at the given arguments, resolved.
    fn resolve_variants(
        &mut self,
        variants: ArenaSlice<Variants>,
        params: ArenaSlice<TypeParams>,
        args: ArenaSlice<Children>,
        env: Option<&TypeEnv>,
        path: &mut ResolvePath,
        Ghost(w): Ghost<World>,
    ) -> (r: Vec<VariantDef>)
        requires
            old(self).wf(),
            slice_fits(old(self).store(), args),
            params.start + params.len <= w.params.len(),
            variants.start + variants.len <= w.variants.len(),
            forall|i: int|
                0 <= i < variants.len ==> variant_ok(
                    w,
                    #[trigger] covered(w.variants, variants)[i],
                ),
            env_of(env, w),
            world_ok(w),
            agrees(old(self), w),
            old(path).same_limit >= 1,
            path_ok(w, old(path)@, old(path).same_limit as nat),
            room_for(
                old(self),
                resolved_variants(
                    w,
                    covered(w.variants, variants),
                    covered(w.params, params),
                    terms(old(self).store(), covered(old(self).children@, args)),
                    old(self).naming(),
                    old(path)@,
                    old(path).same_limit as nat,
                ).cost,
            ),
        ensures
            final(path)@ == old(path)@,
            final(path).same_limit == old(path).same_limit,
            ({
                let o = resolved_variants(
                    w,
                    covered(w.variants, variants),
                    covered(w.params, params),
                    terms(old(self).store(), covered(old(self).children@, args)),
                    old(self).naming(),
                    old(path)@,
                    old(path).same_limit as nat,
                );
                &&& variant_values(r@) == o.variants
                &&& final(self).naming() == o.naming
                &&& only_resolved(final(self), old(self), o.cost)
            }),
        decreases left(w, old(path)@, old(path).same_limit as nat), 3nat, 0nat, 0nat,
    {
        let ghost e0 = *self;
        let ghost p = path@;
        let ghost limit = path.same_limit as nat;
        let ghost vs = covered(w.variants, variants);
        let ghost ps = covered(w.params, params);
        let ghost ts = terms(self.store(), covered(self.children@, args));
        let ghost n0 = self.naming();
        let mut out: Vec<VariantDef> = Vec::new();
        let mut i: usize = 0;
        let start: usize = variants.start as usize;
        proof {
            assert(vs.take(0) =~= Seq::empty());
            assert(variant_values(out@) =~= Seq::empty());
            assert(grows(e0.store(), e0.store()));
        }
        while i < variants.len as usize
            invariant
                0 <= i <= variants.len,
                start == variants.start,
                e0 == *old(self),
                e0.wf(),
                slice_fits(e0.store(), args),
                params.start + params.len <= w.params.len(),
                variants.start + variants.len <= w.variants.len(),
                forall|k: int|
                    0 <= k < variants.len ==> variant_ok(
                        w,
                        #[trigger] covered(w.variants, variants)[k],
                    ),
                path@ == old(path)@,
                path.same_limit == old(path).same_limit,
                p == path@,
                limit == path.same_limit,
                limit >= 1,
                vs == covered(w.variants, variants),
                ps == covered(w.params, params),
                ts == terms(e0.store(), covered(e0.children@, args)),
                n0 == e0.naming(),
                env_of(env, w),
                world_ok(w),
                agrees(self, w),
                path_ok(w, p, limit),
                room_for(&e0, resolved_variants(w, vs, ps, ts, n0, p, limit).cost),
                self.wf(),
                only_resolved(
                    self,
                    &e0,
                    resolved_variants(w, vs.take(i as int), ps, ts, n0, p, limit).cost,
                ),
                self.naming() == resolved_variants(w, vs.take(i as int), ps, ts, n0, p, limit).naming,
                variant_values(out@) == resolved_variants(
                    w,
                    vs.take(i as int),
                    ps,
                    ts,
                    n0,
                    p,
                    limit,
                ).variants,
            decreases variants.len - i,
        {
            proof {
                assert(self.variants@.len() == self.variants.len());
            }
            let v = self.variants[start + i];
            let ghost e1 = *self;
            let ghost out0 = out@;
            proof {
                assert(vs[i as int] == v);
                assert(variant_ok(w, covered(w.variants, variants)[i as int]));
                assert(vs.take(i + 1).drop_last() =~= vs.take(i as int));
                assert(vs.take(i + 1).last() == v);
                lemma_variants_cost(w, vs, ps, ts, n0, p, limit, i + 1);
                lemma_kid_terms_grow(e0.store(), e1.store(), args);
                assert(self.strings@[v.name.0 as int] == w.strings[v.name.0 as int]);
            }
            let name = self.str(v.name).to_owned();
            let fields = self.resolve_fields(v, params, args, env, path, Ghost(w));
            let def = VariantDef { name, fields };
            proof {
                let c0 = resolved_variants(w, vs.take(i as int), ps, ts, n0, p, limit).cost;
                let c1 = resolved_fields(
                    w,
                    covered(w.fields, v.fields),
                    ps,
                    ts,
                    e1.naming(),
                    p,
                    limit,
                ).cost;
                lemma_only_resolved_trans(&e0, &e1, self, c0, c1);
                lemma_agrees(&e1, self, w, c1);
            }
            push_variant(&mut out, def);
            i += 1;
        }
        proof {
            assert(vs.take(i as int) =~= vs);
        }
        out
    }

    /// The fields of a variant at the given arguments, resolved.
    fn resolve_fields(
        &mut self,
        v: Variant,
        params: ArenaSlice<TypeParams>,
        args: ArenaSlice<Children>,
        env: Option<&TypeEnv>,
        path: &mut ResolvePath,
        Ghost(w): Ghost<World>,
    ) -> (r: Vec<FieldDef>)
        requires
            old(self).wf(),
            slice_fits(old(self).store(), args),
            params.start + params.len <= w.params.len(),
            variant_ok(w, v),
            env_of(env, w),
            world_ok(w),
            agrees(old(self), w),
            old(path).same_limit >= 1,
            path_ok(w, old(path)@, old(path).same_limit as nat),
            room_for(
                old(self),
                resolved_fields(
                    w,
                    covered(w.fields, v.fields),
                    covered(w.params, params),
                    terms(old(self).store(), covered(old(self).children@, args)),
                    old(self).naming(),
                    old(path)@,
                    old(path).same_limit as nat,
                ).cost,
            ),
        ensures
            final(path)@ == old(path)@,
            final(path).same_limit == old(path).same_limit,
            ({
                let o = resolved_fields(
                    w,
                    covered(w.fields, v.fields),
                    covered(w.params, params),
                    terms(old(self).store(), covered(old(self).children@, args)),
                    old(self).naming(),
                    old(path)@,
                    old(path).same_limit as nat,
                );
                &&& field_values(r@) == o.fields
                &&& final(self).naming() == o.naming
                &&& only_resolved(final(self), old(self), o.cost)
            }),
        decreases left(w, old(path)@, old(path).same_limit as nat), 2nat, 0nat, 0nat,
    {
        let ghost e0 = *self;
        let ghost p = path@;
        let ghost limit = path.same_limit as nat;
        let ghost fs = covered(w.fields, v.fields);
        let ghost ps = covered(w.params, params);
        let ghost ts = terms(self.store(), covered(self.children@, args));
        let ghost n0 = self.naming();
        let mut out: Vec<FieldDef> = Vec::new();
        let mut i: usize = 0;
        let start: usize = v.fields.start as usize;
        proof {
            assert(fs.take(0) =~= Seq::empty());
            assert(field_values(out@) =~= Seq::empty());
            assert(grows(e0.store(), e0.store()));
        }
        while i < v.fields.len as usize
            invariant
                0 <= i <= v.fields.len,
                start == v.fields.start,
                e0 == *old(self),
                e0.wf(),
                slice_fits(e0.store(), args),
                params.start + params.len <= w.params.len(),
                variant_ok(w, v),
                path@ == old(path)@,
                path.same_limit == old(path).same_limit,
                p == path@,
                limit == path.same_limit,
                limit >= 1,
                fs == covered(w.fields, v.fields),
                ps == covered(w.params, params),
                ts == terms(e0.store(), covered(e0.children@, args)),
                n0 == e0.naming(),
                env_of(env, w),
                world_ok(w),
                agrees(self, w),
                path_ok(w, p, limit),
                room_for(&e0, resolved_fields(w, fs, ps, ts, n0, p, limit).cost),
                self.wf(),
                only_resolved(
                    self,
                    &e0,
                    resolved_fields(w, fs.take(i as int), ps, ts, n0, p, limit).cost,
                ),
                self.naming() == resolved_fields(w, fs.take(i as int), ps, ts, n0, p, limit).naming,
                field_values(out@) == resolved_fields(
                    w,
                    fs.take(i as int),
                    ps,
                    ts,
                    n0,
                    p,
                    limit,
                ).fields,
            decreases v.fields.len - i,
        {
            proof {
                assert(self.variant_fields@.len() == self.variant_fields.len());
            }
            let f = self.variant_fields[start + i];
            let ghost e1 = *self;
            let ghost out0 = out@;
            let ghost body = (w.types)(f.ty);
            proof {
                assert(fs[i as int] == f);
                assert(field_ok(w, covered(w.fields, v.fields)[i as int]));
                assert(fs.take(i + 1).drop_last() =~= fs.take(i as int));
                assert(fs.take(i + 1).last() == f);
                lemma_fields_cost(w, fs, ps, ts, n0, p, limit, i + 1);
                lemma_kid_terms_grow(e0.store(), e1.store(), args);
                assert((w.known)(f.ty));
            }
            let s = self.substitute_type_vars_slice(f.ty, params, args);
            let ghost e2 = *self;
            proof {
                lemma_naming_strings(&e1, &e2);
                assert(only_resolved(&e2, &e1, weight(body)));
                lemma_agrees(&e1, &e2, w, weight(body));
                assert(self.strings@[f.label.0 as int] == w.strings[f.label.0 as int]);
            }
            let label = self.str(f.label).to_owned();
            let t = self.resolve_inner(s, env, path, Ghost(w));
            let def = FieldDef { label, ty: t };
            out.push(def);
            proof {
                let c0 = resolved_fields(w, fs.take(i as int), ps, ts, n0, p, limit).cost;
                let c1 = resolved(
                    w,
                    rewritten(substituting(ps, ts), body),
                    e1.naming(),
                    p,
                    limit,
                ).cost;
                lemma_only_resolved_trans(&e0, &e1, &e2, c0, weight(body));
                lemma_only_resolved_trans(&e0, &e2, self, c0 + weight(body), c1);
                lemma_agrees(&e2, self, w, c1);
                assert(field_values(out@) =~= field_values(out0).push(field_value(def)));
            }
            i += 1;
        }
        proof {
            assert(fs.take(i as int) =~= fs);
        }
        out
    }
}

/// How often one instance is unrolled for patterns of the given depth.
pub open spec fn unroll_limit(depth: int) -> nat {
    if depth < 1 {
        1
    } else if depth > 32 {
        32
    } else {
        depth as nat
    }
}

/// The arguments of a nominal type that is neither a primitive nor an array
/// are part of its cost.
proof fn lemma_con_cost(
    w: World,
    id: TypeId,
    name: StrId,
    ts: Seq<Term>,
    n: Naming,
    path: Path,
    limit: nat,
)
    requires
        w.prims.spec_prim_of(id) is None,
        id != w.prims.array,
    ensures
        resolved_all(w, ts, n, path, limit).cost <= resolved(
            w,
            Term::Con { id, name, args: ts },
            n,
            path,
            limit,
        ).cost,
{
}

proof fn lemma_path_enter(w: World, path: Path, limit: nat, id: TypeId, key: Seq<char>)
    requires
        path_ok(w, path, limit),
        w.ids.has(id.0),
        !recurs(path, id, key, limit),
    ensures
        path_ok(w, path.push((id, key)), limit),
{
    let q = path.push((id, key));
    assert forall|i: int| 0 <= i < q.len() implies #[trigger] step_ok(w, q, i, limit) by {
        if i < path.len() {
            assert(step_ok(w, path, i, limit));
            assert(q.take(i) =~= path.take(i));
        } else {
            assert(q.take(i) =~= path);
        }
    }
}

/// A variant at the end of the table, or in the place of one with its name.
fn push_variant(out: &mut Vec<VariantDef>, def: VariantDef)
    ensures
        variant_values(final(out)@) == put_variant(variant_values(old(out)@), variant_value(def)),
{
    let mut i: usize = 0;
    let ghost vals = variant_values(out@);
    let ghost name = def.name@;
    proof {
        assert(vals.skip(0) =~= vals);
    }
    while i < out.len()
        invariant
            i <= out@.len(),
            *out == *old(out),
            vals == variant_values(out@),
            name == def.name@,
            forall|k: int| 0 <= k < i ==> (#[trigger] vals[k]).name != name,
            first_named(vals, name) == i + first_named(vals.skip(i as int), name),
        decreases out@.len() - i,
    {
        proof {
            assert(vals[i as int] == variant_value(out@[i as int]));
            assert(vals.skip(i as int)[0] == vals[i as int]);
            assert(vals.skip(i as int).skip(1) =~= vals.skip(i + 1));
        }
        if same_text(out[i].name.as_str(), def.name.as_str()) {
            let ghost v = variant_value(def);
            out.set(i, def);
            proof {
                assert(vals[i as int].name == v.name);
                assert(variant_values(out@) =~= vals.update(i as int, v));
            }
            return;
        }
        i += 1;
    }
    let ghost v = variant_value(def);
    out.push(def);
    proof {
        assert(variant_values(out@) =~= vals.push(v));
    }
}

} // verus!
