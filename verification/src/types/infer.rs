//! The Hindley-Milner inference engine.

use crate::names::NameTable;
use crate::syntax::Diagnostic;
use crate::types::environment::{TypeParam, Variant, VariantField};
use crate::types::letters::letters;
use crate::types::node::{PrimIds, QuantVar, StrId, Ty, TyVarState, TypeNode};
use crate::types::term::{
    compressed, in_arena, lemma_root, live, names_below, node_ok, root, same_link, state_ok, Store,
    store_ok, Term, term, var_in,
};
use std::collections::{HashMap, HashSet};
use vstd::prelude::*;

verus! {

/// Everything inference knows: the type arena, the pools that schemes and type
/// records slice into, and what each variable stands for so far.
pub struct InferEngine {
    /// The type arena. `Ty` indexes into this.
    pub nodes: Vec<TypeNode>,
    /// Shared pool for the children of nodes.
    pub children: Vec<Ty>,
    /// Interned strings. `StrId` indexes into this.
    pub strings: NameTable,
    pub quants: Vec<QuantVar>,
    /// Each entry is itself a `StrId` into `strings`.
    pub str_slices: Vec<StrId>,
    pub type_params: Vec<TypeParam>,
    pub variant_fields: Vec<VariantField>,
    pub variants: Vec<Variant>,
    pub vars: Vec<TyVarState>,
    pub next_var_id: i32,
    /// Bumped by every `truncate_to`, which restarts the numbering of
    /// variables. A variable's number is only meaningful paired with the epoch
    /// it was minted in.
    pub var_epoch: u32,
    pub current_level: i32,
    /// Variable -> display name.
    pub var_names: HashMap<i32, StrId>,
    /// The values of `var_names`, so collision tests are one probe.
    pub used_names: HashSet<u32>,
    pub next_name_uid: u64,
    /// Nominal ids of the primitives.
    pub prim_ids: PrimIds,
    /// One cached `Ty` per nullary primitive.
    pub nullary_cache: Vec<Ty>,
    pub diagnostics: Vec<Diagnostic>,
    /// Which nodes are types, and an order on them; see [`Store`].
    pub live: Ghost<Seq<bool>>,
    pub rank: Ghost<Seq<nat>>,
}

impl InferEngine {
    /// The part of the engine that types live in.
    pub open spec fn store(&self) -> Store {
        Store {
            nodes: self.nodes@,
            kids: self.children@,
            vars: self.vars@,
            live: self.live@,
            rank: self.rank@,
            prims: self.prim_ids,
        }
    }

    pub open spec fn wf(&self) -> bool {
        &&& store_ok(self.store())
        &&& self.next_var_id == self.vars@.len()
        &&& self.strings.wf()
        &&& self.strings@.len() <= 0xFFFF_FFFF
        &&& self.nullary_cache@.len() == 6
        &&& forall|i: int| 0 <= i < 6 ==> self.cached_ok(#[trigger] self.nullary_cache@[i])
        &&& self.names_ok()
        &&& names_below(self.store(), self.strings@.len() as int)
    }

    /// A cache slot is empty or holds a nominal type without arguments.
    pub open spec fn cached_ok(&self, t: Ty) -> bool {
        t == Ty(0xFFFF_FFFF) || (self.has(t) && match self.nodes@[t.0 as int] {
            TypeNode::Con { id, name, args } => args.len == 0,
            _ => false,
        })
    }

    /// Display names are strings of the engine, and each is marked as used; so
    /// is every name of the sequence that was passed.
    pub open spec fn names_ok(&self) -> bool {
        &&& forall|v: i32| #[trigger]
            self.var_names@.contains_key(v) ==> self.var_names@[v].0 < self.strings@.len()
                && self.used_names@.contains(self.var_names@[v].0)
        &&& forall|n: u32| #[trigger] self.used_names@.contains(n) ==> n < self.strings@.len()
        &&& forall|j: nat|
            j < self.next_name_uid ==> self.strings@.contains(#[trigger] letters(j))
    }

    /// `t` is a type of this engine.
    pub open spec fn has(&self, t: Ty) -> bool {
        in_arena(self.store(), t)
    }

    /// What `t` stands for.
    pub open spec fn term(&self, t: Ty) -> Term {
        term(self.store(), t)
    }

    /// Nothing changed but what variables stand for.
    pub open spec fn only_vars(&self, before: &InferEngine) -> bool {
        &&& self.nodes == before.nodes
        &&& self.live == before.live
        &&& self.children == before.children
        &&& self.vars@.len() == before.vars@.len()
        &&& self.prim_ids == before.prim_ids
        &&& self.nullary_cache == before.nullary_cache
        &&& self.next_var_id == before.next_var_id
        &&& self.current_level == before.current_level
        &&& self.only_types(before)
        &&& self.strings == before.strings
        &&& self.same_names(before)
        &&& self.diagnostics == before.diagnostics
    }

    /// The pools beside the arena are as they were.
    pub open spec fn only_types(&self, before: &InferEngine) -> bool {
        &&& self.quants == before.quants
        &&& self.str_slices == before.str_slices
        &&& self.type_params == before.type_params
        &&& self.variant_fields == before.variant_fields
        &&& self.variants == before.variants
        &&& self.var_epoch == before.var_epoch
    }

    pub open spec fn same_names(&self, before: &InferEngine) -> bool {
        &&& self.var_names == before.var_names
        &&& self.used_names == before.used_names
        &&& self.next_name_uid == before.next_name_uid
    }

    pub fn node(&self, t: Ty) -> (r: TypeNode)
        requires
            self.has(t),
        ensures
            r == self.nodes@[t.0 as int],
    {
        self.nodes[t.0 as usize]
    }

    /// The representative of `t`: what is left when links at the top are
    /// followed. Changes nothing.
    pub fn find_ref(&self, t: Ty) -> (r: Ty)
        requires
            self.wf(),
            self.has(t),
        ensures
            r == root(self.store(), t),
            self.has(r),
    {
        let mut cur = t;
        loop
            invariant
                self.wf(),
                self.has(cur),
                root(self.store(), cur) == root(self.store(), t),
            ensures
                cur == root(self.store(), t),
                self.has(cur),
            decreases self.rank@[cur.0 as int],
        {
            assert(node_ok(self.store(), cur.0 as int));
            match self.nodes[cur.0 as usize] {
                TypeNode::Var(id) => match self.vars[id as usize] {
                    TyVarState::Link { ty } => {
                        cur = ty;
                    },
                    _ => {
                        break;
                    },
                },
                _ => {
                    break;
                },
            }
        }
        cur
    }

    /// The representative of `t`, shortening the links walked on the way.
    pub fn find(&mut self, t: Ty) -> (r: Ty)
        requires
            old(self).wf(),
            old(self).has(t),
        ensures
            final(self).wf(),
            r == root(old(self).store(), t),
            compressed(old(self).store(), final(self).store()),
            final(self).only_vars(old(self)),
            final(self).rank == old(self).rank,
    {
        let ghost a = self.store();
        let top = self.find_ref(t);
        let mut cur = t;
        proof {
            lemma_root(a, t);
            assert forall|v: int| 0 <= v < a.vars.len() implies #[trigger] same_link(a, a, v) by {
                assert(state_ok(a, v));
            }
        }
        while cur != top
            invariant
                store_ok(a),
                self.wf(),
                in_arena(a, t),
                in_arena(a, cur),
                root(a, cur) == top,
                a == old(self).store(),
                compressed(a, self.store()),
                self.only_vars(old(self)),
                self.rank == old(self).rank,
            decreases a.rank[cur.0 as int],
        {
            proof {
                assert(node_ok(a, cur.0 as int));
                assert(node_ok(self.store(), cur.0 as int));
            }
            let id = match self.nodes[cur.0 as usize] {
                TypeNode::Var(id) => id,
                _ => {
                    return top;
                },
            };
            let ghost b = self.store();
            proof {
                assert(same_link(a, b, id as int));
            }
            match self.vars[id as usize] {
                TyVarState::Link { ty: next } => {
                    self.vars.set(id as usize, TyVarState::Link { ty: top });
                    proof {
                        lemma_shorten(a, b, cur, id, top);
                        assert(self.store() =~= (Store {
                            vars: b.vars.update(id as int, TyVarState::Link { ty: top }),
                            ..b
                        }));
                    }
                    cur = next;
                },
                _ => {
                    return top;
                },
            }
        }
        top
    }
}

/// Pointing a link at its representative.
proof fn lemma_shorten(a: Store, b: Store, cur: Ty, id: i32, top: Ty)
    requires
        store_ok(a),
        store_ok(b),
        compressed(a, b),
        in_arena(a, cur),
        a.nodes[cur.0 as int] == TypeNode::Var(id),
        a.vars[id as int] is Link,
        var_in(a, id),
        root(a, cur) == top,
    ensures
        store_ok(Store { vars: b.vars.update(id as int, TyVarState::Link { ty: top }), ..b }),
        compressed(a, Store { vars: b.vars.update(id as int, TyVarState::Link { ty: top }), ..b }),
        b.vars[id as int] matches TyVarState::Link { ty } ==> in_arena(a, ty) && root(a, ty) == top
            && a.rank[ty.0 as int] < a.rank[cur.0 as int],
{
    let c = Store { vars: b.vars.update(id as int, TyVarState::Link { ty: top }), ..b };
    let ty0 = a.vars[id as int]->ty;
    assert(same_link(a, b, id as int));
    assert(state_ok(a, id as int));
    assert(node_ok(a, cur.0 as int));
    lemma_root(a, ty0);
    assert(root(a, ty0) == top);
    assert forall|v: int| 0 <= v < a.vars.len() implies #[trigger] same_link(a, c, v) by {
        assert(same_link(a, b, v));
    }
    assert forall|t: int| live(c, t) implies #[trigger] node_ok(c, t) by {
        assert(node_ok(a, t));
        assert(node_ok(b, t));
    }
    assert forall|v: int| 0 <= v < c.vars.len() implies #[trigger] state_ok(c, v) by {
        assert(state_ok(b, v));
    }
}

} // verus!
