//! The arena's primitives: nodes, interned strings, pools, fresh variables and
//! rewinding.

use crate::names::{lemma_with, NameTable, with};
use crate::type_def::TypeId;
use crate::types::environment::{TypeParam, Variant, VariantField};
use crate::types::infer::InferEngine;
use crate::types::letters::{law_letters_distinct, letters, next_letter};
use crate::types::node::{
    ArenaSlice, Constraint, covered, Prim, PrimIds, QuantVar, StrId, Ty, TyVarState, TypeNode,
};
use crate::types::pool::{Children, Quants, StrSlices, TypeParams, VariantFields, Variants};
use crate::types::term::{
    grows, in_arena, lemma_grows_trans, lemma_names_more, lemma_root, lemma_term, lemma_with_kids,
    lemma_with_node, lemma_with_var, live, name_below, names_below, node_fits, node_ok, node_term,
    slice_fits, slice_ok, state_ok, Store, store_ok, Term, term, terms, with_node,
};
use std::collections::{HashMap, HashSet};
use vstd::prelude::*;

verus! {

broadcast use vstd::std_specs::hash::group_hash_axioms;

/// Cache slot for a nullary primitive. Nominal types are compared by id, never
/// by node, so one node per primitive can be shared across every literal.
#[derive(Debug, Clone, Copy, PartialEq, Eq, Structural)]
pub enum NullaryPrim {
    Int,
    Float,
    String,
    Bool,
    Nil,
    Binary,
}

impl NullaryPrim {
    pub open spec fn spec_slot(self) -> int {
        match self {
            NullaryPrim::Int => 0,
            NullaryPrim::Float => 1,
            NullaryPrim::String => 2,
            NullaryPrim::Bool => 3,
            NullaryPrim::Nil => 4,
            NullaryPrim::Binary => 5,
        }
    }

    fn slot(self) -> (r: usize)
        ensures
            r == self.spec_slot(),
    {
        match self {
            NullaryPrim::Int => 0,
            NullaryPrim::Float => 1,
            NullaryPrim::String => 2,
            NullaryPrim::Bool => 3,
            NullaryPrim::Nil => 4,
            NullaryPrim::Binary => 5,
        }
    }
}

/// How long each pool was at some moment, for rolling the engine back to it.
#[derive(Debug, Clone, Copy, PartialEq, Eq, Structural, PartialOrd, Ord)]
pub struct EnginePoolWatermark {
    pub nodes: usize,
    pub children: usize,
    pub strings: usize,
    pub quants: usize,
    pub str_slices: usize,
    pub type_params: usize,
    pub variant_fields: usize,
    pub variants: usize,
}

/// The watermark cuts no type apart: what the nodes below it refer to lies
/// below it too.
pub open spec fn cuts_clean(s: Store, w: EnginePoolWatermark) -> bool {
    &&& w.nodes <= s.nodes.len()
    &&& w.children <= s.kids.len()
    &&& forall|t: int| 0 <= t < w.nodes && live(s, t) ==> #[trigger] node_below(s, w, t)
}

pub open spec fn slice_below(s: Store, w: EnginePoolWatermark, sl: ArenaSlice<Children>) -> bool {
    &&& sl.start + sl.len <= w.children
    &&& forall|i: int| sl.start <= i < sl.start + sl.len ==> (#[trigger] s.kids[i]).0 < w.nodes
}

pub open spec fn node_below(s: Store, w: EnginePoolWatermark, t: int) -> bool {
    match s.nodes[t] {
        TypeNode::Con { id, name, args } => slice_below(s, w, args) && name.0 < w.strings,
        TypeNode::Fun { params, ret } => slice_below(s, w, params) && ret.0 < w.nodes,
        TypeNode::Tuple { elems } => slice_below(s, w, elems),
        _ => true,
    }
}

/// A watermark that cuts clean keeps doing so while the arena grows.
pub proof fn law_watermark_stays_clean(a: Store, b: Store, w: EnginePoolWatermark)
    requires
        grows(a, b),
        cuts_clean(a, w),
    ensures
        cuts_clean(b, w),
{
    assert forall|t: int| 0 <= t < w.nodes && live(b, t) implies #[trigger] node_below(b, w, t) by {
        assert(a.nodes[t] == b.nodes[t]);
        assert(a.live[t] == b.live[t]);
        assert(node_below(a, w, t));
        match a.nodes[t] {
            TypeNode::Con { id, name, args } => {
                lemma_slice_below_grows(a, b, w, args);
            },
            TypeNode::Fun { params, ret } => {
                lemma_slice_below_grows(a, b, w, params);
            },
            TypeNode::Tuple { elems } => {
                lemma_slice_below_grows(a, b, w, elems);
            },
            _ => {},
        }
    }
}

proof fn lemma_slice_below_grows(
    a: Store,
    b: Store,
    w: EnginePoolWatermark,
    sl: ArenaSlice<Children>,
)
    requires
        grows(a, b),
        w.children <= a.kids.len(),
        slice_below(a, w, sl),
    ensures
        slice_below(b, w, sl),
{
    assert forall|i: int| sl.start <= i < sl.start + sl.len implies (#[trigger] b.kids[i]).0
        < w.nodes by {
        assert(a.kids[i] == b.kids[i]);
    }
}

/// No variable anywhere in the type, solved or not.
pub open spec fn closed(s: Store, t: Ty) -> bool
    decreases s.rank[t.0 as int], 1nat,
    when store_ok(s) && in_arena(s, t)
{
    proof {
        assert(node_ok(s, t.0 as int));
    }
    match s.nodes[t.0 as int] {
        TypeNode::Var(_) => false,
        TypeNode::Bound(_) => true,
        TypeNode::Con { id, name, args } => slice_closed(s, args, s.rank[t.0 as int]),
        TypeNode::Fun { params, ret } => slice_closed(s, params, s.rank[t.0 as int]) && closed(
            s,
            ret,
        ),
        TypeNode::Tuple { elems } => slice_closed(s, elems, s.rank[t.0 as int]),
    }
}

pub open spec fn slice_closed(s: Store, sl: ArenaSlice<Children>, below: nat) -> bool
    decreases below, 0nat,
    when store_ok(s)
{
    forall|i: int|
        sl.start <= i < sl.start + sl.len ==> in_arena(s, #[trigger] s.kids[i])
            && s.rank[s.kids[i].0 as int] < below && closed(s, s.kids[i])
}

/// The store rolled back to a watermark: the variables are gone, and with them
/// every type that mentions one.
pub open spec fn rewound(s: Store, w: EnginePoolWatermark) -> Store {
    Store {
        nodes: s.nodes.take(w.nodes as int),
        kids: s.kids.take(w.children as int),
        vars: Seq::empty(),
        live: Seq::new(w.nodes as nat, |t: int| live(s, t) && closed(s, Ty(t as u32))),
        rank: s.rank.take(w.nodes as int),
        prims: s.prims,
    }
}

proof fn lemma_rewound(s: Store, w: EnginePoolWatermark)
    requires
        store_ok(s),
        cuts_clean(s, w),
    ensures
        store_ok(rewound(s, w)),
        forall|t: Ty|
            in_arena(s, t) && t.0 < w.nodes && closed(s, t) ==> in_arena(rewound(s, w), t)
                && #[trigger] term(rewound(s, w), t) == term(s, t),
{
    let b = rewound(s, w);
    assert forall|t: int| live(b, t) implies #[trigger] node_ok(b, t) by {
        assert(live(s, t));
        assert(node_ok(s, t));
        assert(node_below(s, w, t));
        assert(closed(s, Ty(t as u32)));
        match s.nodes[t] {
            TypeNode::Con { id, name, args } => {
                lemma_rewound_slice(s, w, args, t);
            },
            TypeNode::Fun { params, ret } => {
                lemma_rewound_slice(s, w, params, t);
                assert(closed(s, ret));
            },
            TypeNode::Tuple { elems } => {
                lemma_rewound_slice(s, w, elems, t);
            },
            _ => {},
        }
    }
    assert(store_ok(b));
    assert forall|t: Ty|
        in_arena(s, t) && t.0 < w.nodes && closed(s, t) implies in_arena(b, t) && #[trigger] term(
        b,
        t,
    ) == term(s, t) by {
        lemma_rewound_term(s, w, t);
    }
}

proof fn lemma_rewound_slice(s: Store, w: EnginePoolWatermark, sl: ArenaSlice<Children>, t: int)
    requires
        store_ok(s),
        w.nodes <= s.nodes.len(),
        w.children <= s.kids.len(),
        0 <= t < w.nodes,
        slice_ok(s, sl, s.rank[t]),
        slice_below(s, w, sl),
        slice_closed(s, sl, s.rank[t]),
    ensures
        slice_ok(rewound(s, w), sl, rewound(s, w).rank[t]),
{
    let b = rewound(s, w);
    assert forall|i: int| sl.start <= i < sl.start + sl.len implies in_arena(
        b,
        #[trigger] b.kids[i],
    ) && b.rank[b.kids[i].0 as int] < b.rank[t] by {
        assert(b.kids[i] == s.kids[i]);
        assert(in_arena(s, s.kids[i]));
        assert(closed(s, s.kids[i]));
    }
}

proof fn lemma_rewound_term(s: Store, w: EnginePoolWatermark, t: Ty)
    requires
        store_ok(s),
        cuts_clean(s, w),
        store_ok(rewound(s, w)),
        in_arena(s, t),
        t.0 < w.nodes,
        closed(s, t),
    ensures
        in_arena(rewound(s, w), t),
        term(rewound(s, w), t) == term(s, t),
    decreases s.rank[t.0 as int],
{
    let b = rewound(s, w);
    assert(node_below(s, w, t.0 as int));
    assert(live(b, t.0 as int));
    lemma_term(s, t);
    lemma_term(b, t);
    match s.nodes[t.0 as int] {
        TypeNode::Con { id, name, args } => {
            lemma_rewound_terms(s, w, args, t);
        },
        TypeNode::Fun { params, ret } => {
            lemma_rewound_terms(s, w, params, t);
            lemma_rewound_term(s, w, ret);
        },
        TypeNode::Tuple { elems } => {
            lemma_rewound_terms(s, w, elems, t);
        },
        _ => {},
    }
}

proof fn lemma_rewound_terms(s: Store, w: EnginePoolWatermark, sl: ArenaSlice<Children>, whole: Ty)
    requires
        store_ok(s),
        cuts_clean(s, w),
        store_ok(rewound(s, w)),
        in_arena(s, whole),
        slice_below(s, w, sl),
        slice_closed(s, sl, s.rank[whole.0 as int]),
    ensures
        terms(rewound(s, w), covered(rewound(s, w).kids, sl)) == terms(s, covered(s.kids, sl)),
    decreases s.rank[whole.0 as int], 0nat,
{
    let b = rewound(s, w);
    let ks = covered(s.kids, sl);
    assert(covered(b.kids, sl) =~= ks);
    assert forall|i: int| 0 <= i < ks.len() implies terms(b, ks)[i] == terms(s, ks)[i] by {
        assert(ks[i] == s.kids[sl.start + i]);
        lemma_rewound_term(s, w, ks[i]);
    }
    assert(terms(b, ks) =~= terms(s, ks));
}

/// Append to a pool.
fn pool_slice<T: Copy, P>(pool: &mut Vec<T>, items: &[T]) -> (r: ArenaSlice<P>)
    requires
        old(pool)@.len() + items@.len() <= 0xFFFF_FFFF,
        items@.len() <= 0xFFFF,
    ensures
        final(pool)@ == old(pool)@ + items@,
        r.start == old(pool)@.len(),
        r.len == items@.len(),
{
    let start = pool.len() as u32;
    let mut i: usize = 0;
    proof {
        assert(pool@ =~= old(pool)@ + items@.take(0));
    }
    while i < items.len()
        invariant
            i <= items@.len(),
            pool@ == old(pool)@ + items@.take(i as int),
        decreases items@.len() - i,
    {
        pool.push(items[i]);
        proof {
            assert(items@.take(i + 1) =~= items@.take(i as int).push(items@[i as int]));
            assert(pool@ =~= old(pool)@ + items@.take(i + 1));
        }
        i += 1;
    }
    proof {
        assert(items@.take(i as int) =~= items@);
    }
    ArenaSlice::new(start, items.len() as u16)
}

/// What a slice covers in its pool.
fn pool_part<T, P>(pool: &Vec<T>, sl: ArenaSlice<P>) -> (r: &[T])
    requires
        sl.start + sl.len <= pool@.len(),
    ensures
        r@ == covered(pool@, sl),
{
    proof {
        assert(pool@.len() == pool.len());
    }
    let r = sl.range();
    &pool[r]
}

/// An engine that knows nothing yet.
pub fn new_engine() -> (r: InferEngine)
    ensures
        r.wf(),
        r.nodes@.len() == 0,
        r.children@.len() == 0,
        r.strings@.len() == 0,
        r.vars@.len() == 0,
        r.quants@.len() == 0,
        r.str_slices@.len() == 0,
        r.type_params@.len() == 0,
        r.variant_fields@.len() == 0,
        r.variants@.len() == 0,
        r.diagnostics@.len() == 0,
        r.current_level == 0,
        r.var_epoch == 0,
        r.next_name_uid == 0,
        r.var_names@ == Map::<i32, StrId>::empty(),
        r.used_names@ == Set::<u32>::empty(),
{
    InferEngine {
        nodes: Vec::new(),
        children: Vec::new(),
        strings: NameTable::new(),
        quants: Vec::new(),
        str_slices: Vec::new(),
        type_params: Vec::new(),
        variant_fields: Vec::new(),
        variants: Vec::new(),
        vars: Vec::new(),
        next_var_id: 0,
        var_epoch: 0,
        current_level: 0,
        var_names: HashMap::new(),
        used_names: HashSet::new(),
        next_name_uid: 0,
        prim_ids: PrimIds::default(),
        nullary_cache: empty_cache(),
        diagnostics: Vec::new(),
        live: Ghost(Seq::empty()),
        rank: Ghost(Seq::empty()),
    }
}

fn empty_cache() -> (r: Vec<Ty>)
    ensures
        r@.len() == 6,
        forall|i: int| 0 <= i < 6 ==> #[trigger] r@[i] == Ty(0xFFFF_FFFF),
{
    vec![Ty::none(), Ty::none(), Ty::none(), Ty::none(), Ty::none(), Ty::none()]
}

impl InferEngine {
    /// Room for `n` more nodes and `k` more children.
    pub open spec fn room(&self, n: nat, k: nat) -> bool {
        &&& self.nodes@.len() + n < 0xFFFF_FFFF
        &&& self.children@.len() + k <= 0xFFFF_FFFF
    }

    /// Nodes were added, and nothing but the arena changed.
    pub open spec fn only_nodes(&self, before: &InferEngine) -> bool {
        &&& grows(before.store(), self.store())
        &&& self.vars@.len() == before.vars@.len()
        &&& self.only_arena(before)
    }

    /// Nothing but the arena and the variables changed.
    pub open spec fn only_arena(&self, before: &InferEngine) -> bool {
        &&& self.prim_ids == before.prim_ids
        &&& self.nullary_cache == before.nullary_cache
        &&& self.current_level == before.current_level
        &&& self.only_types(before)
        &&& self.strings == before.strings
        &&& self.same_names(before)
        &&& self.diagnostics == before.diagnostics
    }

    pub fn children_of(&self, sl: ArenaSlice<Children>) -> (r: &[Ty])
        requires
            sl.start + sl.len <= self.children@.len(),
        ensures
            r@ == covered(self.children@, sl),
    {
        pool_part(&self.children, sl)
    }

    /// Add a node whose parts are there already.
    pub(crate) fn push(&mut self, n: TypeNode) -> (r: Ty)
        requires
            old(self).wf(),
            node_fits(old(self).store(), n),
            name_below(n, old(self).strings@.len() as int),
            old(self).nodes@.len() + 1 < 0xFFFF_FFFF,
        ensures
            final(self).wf(),
            final(self).only_nodes(old(self)),
            final(self).vars == old(self).vars,
            final(self).children == old(self).children,
            final(self).nodes@ == old(self).nodes@.push(n),
            r.0 == old(self).nodes@.len(),
            final(self).has(r),
            final(self).term(r) == node_term(old(self).store(), n),
    {
        let r = Ty(self.nodes.len() as u32);
        let ghost s = self.store();
        proof {
            lemma_with_node(s, n);
        }
        self.nodes.push(n);
        self.live = Ghost(s.live.push(true));
        self.rank = Ghost(with_node(s, n).rank);
        proof {
            assert(self.store() =~= with_node(s, n));
            lemma_cache_grows(old(self), self);
        }
        r
    }

    /// Add children that are types already.
    pub(crate) fn push_children(&mut self, kids: &[Ty]) -> (r: ArenaSlice<Children>)
        requires
            old(self).wf(),
            kids@.len() <= 0xFFFF,
            old(self).children@.len() + kids@.len() <= 0xFFFF_FFFF,
            forall|i: int| 0 <= i < kids@.len() ==> old(self).has(#[trigger] kids@[i]),
        ensures
            final(self).wf(),
            final(self).only_nodes(old(self)),
            final(self).nodes == old(self).nodes,
            final(self).vars == old(self).vars,
            final(self).children@.len() == old(self).children@.len() + kids@.len(),
            slice_fits(final(self).store(), r),
            r.len == kids@.len(),
            covered(final(self).children@, r) == kids@,
            terms(final(self).store(), kids@) == terms(old(self).store(), kids@),
    {
        let ghost s = self.store();
        proof {
            lemma_with_kids(s, kids@);
        }
        let r = pool_slice(&mut self.children, kids);
        proof {
            let b = self.store();
            assert(b =~= (Store { kids: s.kids + kids@, ..s }));
            lemma_cache_grows(old(self), self);
            assert(covered(self.children@, r) =~= kids@);
            assert forall|i: int| r.start <= i < r.start + r.len implies in_arena(
                b,
                #[trigger] b.kids[i],
            ) by {
                assert(b.kids[i] == kids@[i - r.start]);
            }
            assert forall|i: int| 0 <= i < kids@.len() implies terms(b, kids@)[i] == terms(
                s,
                kids@,
            )[i] by {
                assert(in_arena(s, kids@[i]));
                assert(term(b, kids@[i]) == term(s, kids@[i]));
            }
            assert(terms(b, kids@) =~= terms(s, kids@));
        }
        r
    }

    /// The id of a string, which joins the table when it is not in it yet.
    pub fn intern(&mut self, s: &str) -> (r: StrId)
        requires
            old(self).wf(),
            old(self).strings@.len() < 0xFFFF_FFFF,
        ensures
            final(self).wf(),
            final(self).only_strings(old(self)),
            final(self).strings@ == with(old(self).strings@, s@),
            old(self).strings@.is_prefix_of(final(self).strings@),
            r.0 < final(self).strings@.len(),
            final(self).strings@[r.0 as int] == s@,
    {
        proof {
            lemma_with(self.strings@, s@);
        }
        let i = self.strings.intern(s);
        proof {
            lemma_names_more(
                self.store(),
                old(self).strings@.len() as int,
                self.strings@.len() as int,
            );
        }
        StrId(i as u32)
    }

    /// Nothing but the strings changed.
    pub open spec fn only_strings(&self, before: &InferEngine) -> bool {
        &&& self.store() == before.store()
        &&& self.next_var_id == before.next_var_id
        &&& self.nodes == before.nodes
        &&& self.children == before.children
        &&& self.vars == before.vars
        &&& self.nullary_cache == before.nullary_cache
        &&& self.current_level == before.current_level
        &&& self.only_types(before)
        &&& self.same_names(before)
        &&& self.diagnostics == before.diagnostics
    }

    pub fn str(&self, id: StrId) -> (r: &str)
        requires
            id.0 < self.strings@.len(),
        ensures
            r@ == self.strings@[id.0 as int],
    {
        self.strings.get(id.0 as usize)
    }

    pub fn mk_con_id(&mut self, id: TypeId, name: StrId, args: &[Ty]) -> (r: Ty)
        requires
            old(self).wf(),
            name.0 < old(self).strings@.len(),
            args@.len() <= 0xFFFF,
            old(self).room(1, args@.len()),
            forall|i: int| 0 <= i < args@.len() ==> old(self).has(#[trigger] args@[i]),
        ensures
            final(self).wf(),
            final(self).only_nodes(old(self)),
            final(self).vars == old(self).vars,
            final(self).nodes@.len() == old(self).nodes@.len() + 1,
            final(self).children@.len() == old(self).children@.len() + args@.len(),
            r.0 == old(self).nodes@.len(),
            final(self).has(r),
            final(self).nodes@[r.0 as int] matches TypeNode::Con { id: i2, name: n2, args: a2 }
                && i2 == id && n2 == name && a2.len == args@.len() && covered(
                final(self).children@,
                a2,
            ) == args@,
            final(self).term(r) == (Term::Con { id, name, args: terms(old(self).store(), args@) }),
    {
        let ghost s0 = self.store();
        let sl = self.push_children(args);
        let ghost s1 = self.store();
        let r = self.push(TypeNode::Con { id, name, args: sl });
        proof {
            lemma_grows_trans(s0, s1, self.store());
        }
        r
    }

    pub fn mk_con(&mut self, id: TypeId, name: &str, args: &[Ty]) -> (r: Ty)
        requires
            old(self).wf(),
            args@.len() <= 0xFFFF,
            old(self).room(1, args@.len()),
            old(self).strings@.len() < 0xFFFF_FFFF,
            forall|i: int| 0 <= i < args@.len() ==> old(self).has(#[trigger] args@[i]),
        ensures
            final(self).wf(),
            grows(old(self).store(), final(self).store()),
            final(self).strings@ == with(old(self).strings@, name@),
            final(self).same_names(old(self)),
            final(self).only_types(old(self)),
            final(self).vars == old(self).vars,
            final(self).nullary_cache == old(self).nullary_cache,
            final(self).current_level == old(self).current_level,
            final(self).diagnostics == old(self).diagnostics,
            final(self).nodes@.len() == old(self).nodes@.len() + 1,
            final(self).children@.len() == old(self).children@.len() + args@.len(),
            final(self).has(r),
            final(self).nodes@[r.0 as int] matches TypeNode::Con { id: i2, name: n2, args: a2 }
                && i2 == id && n2.0 < final(self).strings@.len() && final(self).strings@[n2.0 as int] == name@ && a2.len == args@.len(),
            final(self).term(r) matches Term::Con { id: i2, name: n2, args: t2 } && i2 == id
                && n2.0 < final(self).strings@.len() && final(self).strings@[n2.0 as int] == name@
                && t2 == terms(old(self).store(), args@),
    {
        let n = self.intern(name);
        self.mk_con_id(id, n, args)
    }

    pub fn mk_fun(&mut self, params: &[Ty], ret: Ty) -> (r: Ty)
        requires
            old(self).wf(),
            params@.len() <= 0xFFFF,
            old(self).room(1, params@.len()),
            forall|i: int| 0 <= i < params@.len() ==> old(self).has(#[trigger] params@[i]),
            old(self).has(ret),
        ensures
            final(self).wf(),
            final(self).only_nodes(old(self)),
            final(self).vars == old(self).vars,
            final(self).nodes@.len() == old(self).nodes@.len() + 1,
            final(self).children@.len() == old(self).children@.len() + params@.len(),
            r.0 == old(self).nodes@.len(),
            final(self).has(r),
            final(self).nodes@[r.0 as int] matches TypeNode::Fun { params: p2, ret: r2 } && r2
                == ret && p2.len == params@.len() && covered(final(self).children@, p2) == params@,
            final(self).term(r) == (Term::Fun {
                params: terms(old(self).store(), params@),
                ret: Box::new(old(self).term(ret)),
            }),
    {
        let ghost s0 = self.store();
        let sl = self.push_children(params);
        let ghost s1 = self.store();
        proof {
            assert(term(s1, ret) == term(s0, ret));
        }
        let r = self.push(TypeNode::Fun { params: sl, ret });
        proof {
            lemma_grows_trans(s0, s1, self.store());
        }
        r
    }

    pub fn mk_tuple(&mut self, elems: &[Ty]) -> (r: Ty)
        requires
            old(self).wf(),
            elems@.len() <= 0xFFFF,
            old(self).room(1, elems@.len()),
            forall|i: int| 0 <= i < elems@.len() ==> old(self).has(#[trigger] elems@[i]),
        ensures
            final(self).wf(),
            final(self).only_nodes(old(self)),
            final(self).vars == old(self).vars,
            final(self).nodes@.len() == old(self).nodes@.len() + 1,
            final(self).children@.len() == old(self).children@.len() + elems@.len(),
            r.0 == old(self).nodes@.len(),
            final(self).has(r),
            final(self).nodes@[r.0 as int] matches TypeNode::Tuple { elems: e2 } && e2.len
                == elems@.len() && covered(final(self).children@, e2) == elems@,
            final(self).term(r) == (Term::Tuple { elems: terms(old(self).store(), elems@) }),
    {
        let ghost s0 = self.store();
        let sl = self.push_children(elems);
        let ghost s1 = self.store();
        let r = self.push(TypeNode::Tuple { elems: sl });
        proof {
            lemma_grows_trans(s0, s1, self.store());
        }
        r
    }

    pub fn mk_bound(&mut self, index: u32) -> (r: Ty)
        requires
            old(self).wf(),
            old(self).room(1, 0),
        ensures
            final(self).wf(),
            final(self).only_nodes(old(self)),
            final(self).vars == old(self).vars,
            final(self).children == old(self).children,
            final(self).nodes@ == old(self).nodes@.push(TypeNode::Bound(index)),
            r.0 == old(self).nodes@.len(),
            final(self).has(r),
            final(self).term(r) == Term::Bound(index),
    {
        self.push(TypeNode::Bound(index))
    }

    /// A fresh variable in the given state.
    fn alloc_var(&mut self, state: TyVarState) -> (r: (Ty, i32))
        requires
            old(self).wf(),
            old(self).vars@.len() < i32::MAX,
            old(self).room(1, 0),
            match state {
                TyVarState::Unbound { level, constraint } => true,
                TyVarState::Generic { id, constraint } => id == old(self).next_var_id,
                TyVarState::Link { ty } => false,
            },
        ensures
            final(self).wf(),
            grows(old(self).store(), final(self).store()),
            final(self).only_arena(old(self)),
            final(self).vars@ == old(self).vars@.push(state),
            final(self).children == old(self).children,
            final(self).nodes@ == old(self).nodes@.push(TypeNode::Var(r.1)),
            r.1 == old(self).vars@.len(),
            r.0.0 == old(self).nodes@.len(),
            final(self).has(r.0),
            final(self).term(r.0) == Term::Var(r.1),
    {
        let id = self.next_var_id;
        let ghost s0 = self.store();
        proof {
            lemma_with_var(s0, state);
        }
        self.vars.push(state);
        self.next_var_id = self.next_var_id + 1;
        let ghost s1 = self.store();
        proof {
            assert(s1 =~= (Store { vars: s0.vars.push(state), ..s0 }));
            lemma_cache_grows(old(self), self);
        }
        let t = self.push(TypeNode::Var(id));
        proof {
            lemma_grows_trans(s0, s1, self.store());
        }
        (t, id)
    }

    /// What making a variable leaves behind.
    pub open spec fn fresh(&self, before: &InferEngine, r: Ty, state: TyVarState) -> bool {
        &&& self.wf()
        &&& grows(before.store(), self.store())
        &&& self.only_arena(before)
        &&& self.vars@ == before.vars@.push(state)
        &&& self.children == before.children
        &&& self.nodes@ == before.nodes@.push(TypeNode::Var(before.vars@.len() as i32))
        &&& self.has(r)
        &&& r.0 == before.nodes@.len()
        &&& self.term(r) == Term::Var(before.vars@.len() as i32)
    }

    pub fn fresh_var(&mut self) -> (r: Ty)
        requires
            old(self).wf(),
            old(self).vars@.len() < i32::MAX,
            old(self).room(1, 0),
        ensures
            final(self).fresh(
                old(self),
                r,
                TyVarState::Unbound { level: old(self).current_level, constraint: None },
            ),
    {
        let level = self.current_level;
        self.alloc_var(TyVarState::Unbound { level, constraint: None }).0
    }

    pub fn fresh_constrained_var(&mut self, c: Constraint) -> (r: Ty)
        requires
            old(self).wf(),
            old(self).vars@.len() < i32::MAX,
            old(self).room(1, 0),
        ensures
            final(self).fresh(
                old(self),
                r,
                TyVarState::Unbound { level: old(self).current_level, constraint: Some(c) },
            ),
    {
        let level = self.current_level;
        self.alloc_var(TyVarState::Unbound { level, constraint: Some(c) }).0
    }

    /// A fresh rigid variable: repeated occurrences of one type parameter share
    /// an identity that cannot be solved to a concrete type.
    pub fn fresh_generic_var(&mut self) -> (r: (Ty, i32))
        requires
            old(self).wf(),
            old(self).vars@.len() < i32::MAX,
            old(self).room(1, 0),
        ensures
            final(self).fresh(
                old(self),
                r.0,
                TyVarState::Generic { id: old(self).vars@.len() as i32, constraint: None },
            ),
            r.1 == old(self).vars@.len(),
    {
        let id = self.next_var_id;
        self.alloc_var(TyVarState::Generic { id, constraint: None })
    }

    /// `Some` when `t` stands for a rigid variable: which one.
    pub fn root_generic_id(&self, t: Ty) -> (r: Option<i32>)
        requires
            self.wf(),
            self.has(t),
        ensures
            match r {
                Some(g) => self.term(t) == Term::Var(g) && self.vars@[g as int] is Generic,
                None => !(self.term(t) matches Term::Var(g) && self.vars@[g as int] is Generic),
            },
    {
        proof {
            lemma_root(self.store(), t);
        }
        let r = self.find_ref(t);
        match self.node(r) {
            TypeNode::Var(id) => {
                proof {
                    assert(state_ok(self.store(), id as int));
                }
                match self.vars[id as usize] {
                    TyVarState::Generic { id, constraint } => Some(id),
                    _ => None,
                }
            },
            _ => None,
        }
    }

    pub fn prim_ids(&self) -> (r: PrimIds)
        ensures
            r == self.prim_ids,
    {
        self.prim_ids
    }

    pub fn enter_level(&mut self)
        requires
            old(self).current_level < i32::MAX,
        ensures
            *final(self) == (InferEngine {
                current_level: (old(self).current_level + 1) as i32,
                ..*old(self)
            }),
    {
        self.current_level = self.current_level + 1;
    }

    pub fn leave_level(&mut self)
        requires
            old(self).current_level > i32::MIN,
        ensures
            *final(self) == (InferEngine {
                current_level: (old(self).current_level - 1) as i32,
                ..*old(self)
            }),
    {
        self.current_level = self.current_level - 1;
    }
}

/// Cached nodes stay what they are while the arena grows.
pub proof fn lemma_cache_grows(a: &InferEngine, b: &InferEngine)
    requires
        a.wf(),
        grows(a.store(), b.store()),
        a.nullary_cache == b.nullary_cache,
    ensures
        forall|i: int| 0 <= i < 6 ==> b.cached_ok(#[trigger] b.nullary_cache@[i]),
{
    assert forall|i: int| 0 <= i < 6 implies b.cached_ok(#[trigger] b.nullary_cache@[i]) by {
        assert(a.cached_ok(a.nullary_cache@[i]));
        let t = a.nullary_cache@[i];
        if t != Ty(0xFFFF_FFFF) {
            assert(a.store().nodes[t.0 as int] == b.store().nodes[t.0 as int]);
            assert(a.store().live[t.0 as int] == b.store().live[t.0 as int]);
        }
    }
}

impl InferEngine {
    /// Nothing but the side pools changed.
    pub open spec fn only_pools(&self, before: &InferEngine) -> bool {
        &&& self.store() == before.store()
        &&& self.next_var_id == before.next_var_id
        &&& self.nodes == before.nodes
        &&& self.children == before.children
        &&& self.vars == before.vars
        &&& self.nullary_cache == before.nullary_cache
        &&& self.current_level == before.current_level
        &&& self.var_epoch == before.var_epoch
        &&& self.same_names(before)
        &&& self.diagnostics == before.diagnostics
    }

    pub fn push_quants(&mut self, items: &[QuantVar]) -> (r: ArenaSlice<Quants>)
        requires
            old(self).wf(),
            items@.len() <= 0xFFFF,
            old(self).quants@.len() + items@.len() <= 0xFFFF_FFFF,
        ensures
            final(self).wf(),
            final(self).only_pools(old(self)),
            final(self).strings == old(self).strings,
            final(self).quants@ == old(self).quants@ + items@,
            final(self).str_slices == old(self).str_slices,
            final(self).type_params == old(self).type_params,
            final(self).variant_fields == old(self).variant_fields,
            final(self).variants == old(self).variants,
            r.start == old(self).quants@.len(),
            r.len == items@.len(),
    {
        pool_slice(&mut self.quants, items)
    }

    pub fn quants_of(&self, sl: ArenaSlice<Quants>) -> (r: &[QuantVar])
        requires
            sl.start + sl.len <= self.quants@.len(),
        ensures
            r@ == covered(self.quants@, sl),
    {
        pool_part(&self.quants, sl)
    }

    pub fn push_str_ids(&mut self, items: &[StrId]) -> (r: ArenaSlice<StrSlices>)
        requires
            old(self).wf(),
            items@.len() <= 0xFFFF,
            old(self).str_slices@.len() + items@.len() <= 0xFFFF_FFFF,
        ensures
            final(self).wf(),
            final(self).only_pools(old(self)),
            final(self).strings == old(self).strings,
            final(self).quants == old(self).quants,
            final(self).str_slices@ == old(self).str_slices@ + items@,
            final(self).type_params == old(self).type_params,
            final(self).variant_fields == old(self).variant_fields,
            final(self).variants == old(self).variants,
            r.start == old(self).str_slices@.len(),
            r.len == items@.len(),
    {
        pool_slice(&mut self.str_slices, items)
    }

    pub fn str_ids_of(&self, sl: ArenaSlice<StrSlices>) -> (r: &[StrId])
        requires
            sl.start + sl.len <= self.str_slices@.len(),
        ensures
            r@ == covered(self.str_slices@, sl),
    {
        pool_part(&self.str_slices, sl)
    }

    pub fn push_type_params(&mut self, items: &[TypeParam]) -> (r: ArenaSlice<TypeParams>)
        requires
            old(self).wf(),
            items@.len() <= 0xFFFF,
            old(self).type_params@.len() + items@.len() <= 0xFFFF_FFFF,
        ensures
            final(self).wf(),
            final(self).only_pools(old(self)),
            final(self).strings == old(self).strings,
            final(self).quants == old(self).quants,
            final(self).str_slices == old(self).str_slices,
            final(self).type_params@ == old(self).type_params@ + items@,
            final(self).variant_fields == old(self).variant_fields,
            final(self).variants == old(self).variants,
            r.start == old(self).type_params@.len(),
            r.len == items@.len(),
    {
        pool_slice(&mut self.type_params, items)
    }

    pub fn type_params_of(&self, sl: ArenaSlice<TypeParams>) -> (r: &[TypeParam])
        requires
            sl.start + sl.len <= self.type_params@.len(),
        ensures
            r@ == covered(self.type_params@, sl),
    {
        pool_part(&self.type_params, sl)
    }

    pub fn push_variant_fields(&mut self, items: &[VariantField]) -> (r: ArenaSlice<VariantFields>)
        requires
            old(self).wf(),
            items@.len() <= 0xFFFF,
            old(self).variant_fields@.len() + items@.len() <= 0xFFFF_FFFF,
        ensures
            final(self).wf(),
            final(self).only_pools(old(self)),
            final(self).strings == old(self).strings,
            final(self).quants == old(self).quants,
            final(self).str_slices == old(self).str_slices,
            final(self).type_params == old(self).type_params,
            final(self).variant_fields@ == old(self).variant_fields@ + items@,
            final(self).variants == old(self).variants,
            r.start == old(self).variant_fields@.len(),
            r.len == items@.len(),
    {
        pool_slice(&mut self.variant_fields, items)
    }

    pub fn variant_fields_of(&self, sl: ArenaSlice<VariantFields>) -> (r: &[VariantField])
        requires
            sl.start + sl.len <= self.variant_fields@.len(),
        ensures
            r@ == covered(self.variant_fields@, sl),
    {
        pool_part(&self.variant_fields, sl)
    }

    pub fn push_variants(&mut self, items: &[Variant]) -> (r: ArenaSlice<Variants>)
        requires
            old(self).wf(),
            items@.len() <= 0xFFFF,
            old(self).variants@.len() + items@.len() <= 0xFFFF_FFFF,
        ensures
            final(self).wf(),
            final(self).only_pools(old(self)),
            final(self).strings == old(self).strings,
            final(self).quants == old(self).quants,
            final(self).str_slices == old(self).str_slices,
            final(self).type_params == old(self).type_params,
            final(self).variant_fields == old(self).variant_fields,
            final(self).variants@ == old(self).variants@ + items@,
            r.start == old(self).variants@.len(),
            r.len == items@.len(),
    {
        pool_slice(&mut self.variants, items)
    }

    pub fn variants_of(&self, sl: ArenaSlice<Variants>) -> (r: &[Variant])
        requires
            sl.start + sl.len <= self.variants@.len(),
        ensures
            r@ == covered(self.variants@, sl),
    {
        pool_part(&self.variants, sl)
    }

    /// The strings a slice of ids names.
    pub fn strs_of(&self, sl: ArenaSlice<StrSlices>) -> (r: Vec<String>)
        requires
            sl.start + sl.len <= self.str_slices@.len(),
            forall|i: int|
                0 <= i < sl.len ==> (#[trigger] covered(self.str_slices@, sl)[i]).0
                    < self.strings@.len(),
        ensures
            r@.len() == sl.len,
            forall|i: int|
                0 <= i < sl.len ==> (#[trigger] r@[i])@ == self.strings@[covered(
                    self.str_slices@,
                    sl,
                )[i].0 as int],
    {
        let ids = self.str_ids_of(sl);
        let mut out: Vec<String> = Vec::new();
        let mut i: usize = 0;
        while i < ids.len()
            invariant
                i <= ids@.len(),
                ids@ == covered(self.str_slices@, sl),
                ids@.len() == sl.len,
                forall|k: int|
                    0 <= k < sl.len ==> (#[trigger] covered(self.str_slices@, sl)[k]).0
                        < self.strings@.len(),
                out@.len() == i,
                forall|k: int|
                    0 <= k < i ==> (#[trigger] out@[k])@ == self.strings@[ids@[k].0 as int],
            decreases ids@.len() - i,
        {
            proof {
                assert(covered(self.str_slices@, sl)[i as int].0 < self.strings@.len());
            }
            out.push(self.str(ids[i]).to_owned());
            i += 1;
        }
        out
    }

    /// Intern each string and add the ids as one slice.
    pub fn intern_slice(&mut self, ss: &[String]) -> (r: ArenaSlice<StrSlices>)
        requires
            old(self).wf(),
            ss@.len() <= 0xFFFF,
            old(self).str_slices@.len() + ss@.len() <= 0xFFFF_FFFF,
            old(self).strings@.len() + ss@.len() <= 0xFFFF_FFFF,
        ensures
            final(self).wf(),
            final(self).only_pools(old(self)),
            final(self).quants == old(self).quants,
            final(self).type_params == old(self).type_params,
            final(self).variant_fields == old(self).variant_fields,
            final(self).variants == old(self).variants,
            final(self).strings@ == with_all(old(self).strings@, ss@, ss@.len() as int),
            old(self).strings@.is_prefix_of(final(self).strings@),
            final(self).str_slices@.len() == old(self).str_slices@.len() + ss@.len(),
            old(self).str_slices@.is_prefix_of(final(self).str_slices@),
            r.start == old(self).str_slices@.len(),
            r.len == ss@.len(),
            forall|i: int|
                0 <= i < ss@.len() ==> (#[trigger] covered(final(self).str_slices@, r)[i]).0
                    < final(self).strings@.len() && final(self).strings@[covered(
                    final(self).str_slices@,
                    r,
                )[i].0 as int] == ss@[i]@,
    {
        let start = self.str_slices.len() as u32;
        let mut i: usize = 0;
        while i < ss.len()
            invariant
                i <= ss@.len(),
                self.wf(),
                self.only_pools(old(self)),
                self.quants == old(self).quants,
                self.type_params == old(self).type_params,
                self.variant_fields == old(self).variant_fields,
                self.variants == old(self).variants,
                start == old(self).str_slices@.len(),
                ss@.len() <= 0xFFFF,
                old(self).str_slices@.len() + ss@.len() <= 0xFFFF_FFFF,
                old(self).strings@.len() + ss@.len() <= 0xFFFF_FFFF,
                self.strings@.len() <= old(self).strings@.len() + i,
                self.strings@ == with_all(old(self).strings@, ss@, i as int),
                old(self).strings@.is_prefix_of(self.strings@),
                self.str_slices@.len() == start + i,
                old(self).str_slices@.is_prefix_of(self.str_slices@),
                forall|k: int|
                    0 <= k < i ==> (#[trigger] self.str_slices@[start + k]).0 < self.strings@.len()
                        && self.strings@[self.str_slices@[start + k].0 as int] == ss@[k]@,
            decreases ss@.len() - i,
        {
            let ghost before = self.strings@;
            let ghost ids = self.str_slices@;
            let id = self.intern(ss[i].as_str());
            self.str_slices.push(id);
            proof {
                assert forall|k: int| 0 <= k < i + 1 implies (#[trigger] self.str_slices@[start
                    + k]).0 < self.strings@.len() && self.strings@[self.str_slices@[start
                    + k].0 as int] == ss@[k]@ by {
                    if k < i {
                        assert(self.str_slices@[start + k] == ids[start + k]);
                        assert(before[ids[start + k].0 as int] == self.strings@[ids[start
                            + k].0 as int]);
                    }
                }
            }
            i += 1;
        }
        let r = ArenaSlice::new(start, ss.len() as u16);
        proof {
            assert forall|k: int| 0 <= k < ss@.len() implies (#[trigger] covered(
                self.str_slices@,
                r,
            )[k]).0 < self.strings@.len() && self.strings@[covered(
                self.str_slices@,
                r,
            )[k].0 as int] == ss@[k]@ by {
                assert(covered(self.str_slices@, r)[k] == self.str_slices@[start + k]);
            }
        }
        r
    }

    /// How long each pool is, so a later `truncate_to` can roll the engine
    /// back to now.
    pub fn pool_watermark(&self) -> (r: EnginePoolWatermark)
        requires
            self.wf(),
        ensures
            r.nodes == self.nodes@.len(),
            r.children == self.children@.len(),
            r.strings == self.strings@.len(),
            r.quants == self.quants@.len(),
            r.str_slices == self.str_slices@.len(),
            r.type_params == self.type_params@.len(),
            r.variant_fields == self.variant_fields@.len(),
            r.variants == self.variants@.len(),
            cuts_clean(self.store(), r),
    {
        let w = EnginePoolWatermark {
            nodes: self.nodes.len(),
            children: self.children.len(),
            strings: self.strings.len(),
            quants: self.quants.len(),
            str_slices: self.str_slices.len(),
            type_params: self.type_params.len(),
            variant_fields: self.variant_fields.len(),
            variants: self.variants.len(),
        };
        proof {
            let s = self.store();
            assert forall|t: int| 0 <= t < w.nodes && live(s, t) implies #[trigger] node_below(
                s,
                w,
                t,
            ) by {
                assert(node_ok(s, t));
                assert(name_below(s.nodes[t], self.strings@.len() as int));
            }
        }
        w
    }

    /// Roll every pool back to a watermark and forget all variables. A type
    /// that lies below the watermark and mentions no variable is what it was;
    /// any other is gone.
    pub fn truncate_to(&mut self, w: &EnginePoolWatermark)
        requires
            old(self).wf(),
            cuts_clean(old(self).store(), *w),
        ensures
            final(self).wf(),
            final(self).store() == rewound(old(self).store(), *w),
            final(self).strings@ == cut(old(self).strings@, w.strings as int),
            final(self).quants@ == cut(old(self).quants@, w.quants as int),
            final(self).str_slices@ == cut(old(self).str_slices@, w.str_slices as int),
            final(self).type_params@ == cut(old(self).type_params@, w.type_params as int),
            final(self).variant_fields@ == cut(old(self).variant_fields@, w.variant_fields as int),
            final(self).variants@ == cut(old(self).variants@, w.variants as int),
            forall|i: int|
                0 <= i < 6 ==> #[trigger] final(self).nullary_cache@[i] == (if old(self).nullary_cache@[i].0 >= w.nodes {
                    Ty(0xFFFF_FFFF)
                } else {
                    old(self).nullary_cache@[i]
                }),
            forall|t: Ty|
                old(self).has(t) && t.0 < w.nodes && closed(old(self).store(), t) ==> final(self).has(t) && #[trigger] final(self).term(t) == old(self).term(t),
            final(self).var_epoch == old(self).var_epoch.wrapping_add(1),
            final(self).current_level == 0,
            final(self).next_name_uid == 0,
            final(self).var_names@ == Map::<i32, StrId>::empty(),
            final(self).used_names@ == Set::<u32>::empty(),
            final(self).diagnostics@.len() == 0,
    {
        let ghost s = self.store();
        proof {
            lemma_rewound(s, *w);
        }
        self.nodes.truncate(w.nodes);
        let mut i: usize = 0;
        while i < 6
            invariant
                i <= 6,
                self.nullary_cache@.len() == 6,
                old(self).nullary_cache@.len() == 6,
                w.nodes < 0xFFFF_FFFF,
                self.children == old(self).children,
                self.strings == old(self).strings,
                self.quants == old(self).quants,
                self.str_slices == old(self).str_slices,
                self.type_params == old(self).type_params,
                self.variant_fields == old(self).variant_fields,
                self.variants == old(self).variants,
                self.var_epoch == old(self).var_epoch,
                self.prim_ids == old(self).prim_ids,
                self.nodes@ == s.nodes.take(w.nodes as int),
                forall|k: int|
                    0 <= k < i ==> #[trigger] self.nullary_cache@[k] == (if old(self).nullary_cache@[k].0 >= w.nodes {
                        Ty(0xFFFF_FFFF)
                    } else {
                        old(self).nullary_cache@[k]
                    }),
                forall|k: int|
                    i <= k < 6 ==> #[trigger] self.nullary_cache@[k] == old(self).nullary_cache@[k],
            decreases 6 - i,
        {
            if self.nullary_cache[i].0 as usize >= w.nodes {
                self.nullary_cache.set(i, Ty::none());
            }
            i += 1;
        }
        self.children.truncate(w.children);
        self.strings.truncate(w.strings);
        self.quants.truncate(w.quants);
        self.str_slices.truncate(w.str_slices);
        self.type_params.truncate(w.type_params);
        self.variant_fields.truncate(w.variant_fields);
        self.variants.truncate(w.variants);
        self.vars.clear();
        self.next_var_id = 0;
        self.var_epoch = self.var_epoch.wrapping_add(1);
        self.current_level = 0;
        self.var_names.clear();
        self.used_names.clear();
        self.next_name_uid = 0;
        self.diagnostics.clear();
        self.live = Ghost(rewound(s, *w).live);
        self.rank = Ghost(rewound(s, *w).rank);
        proof {
            assert(self.store() =~= rewound(s, *w));
            assert(names_below(self.store(), self.strings@.len() as int)) by {
                let b = self.store();
                assert forall|t: int| live(b, t) implies #[trigger] name_below(
                    b.nodes[t],
                    self.strings@.len() as int,
                ) by {
                    assert(live(s, t));
                    assert(b.nodes[t] == s.nodes[t]);
                    assert(node_below(s, *w, t));
                    assert(name_below(s.nodes[t], old(self).strings@.len() as int));
                }
            }
            assert forall|k: int| 0 <= k < 6 implies self.cached_ok(
                #[trigger] self.nullary_cache@[k],
            ) by {
                let t = old(self).nullary_cache@[k];
                assert(old(self).cached_ok(t));
                if t.0 < w.nodes {
                    assert(node_ok(s, t.0 as int));
                    match s.nodes[t.0 as int] {
                        TypeNode::Con { id, name, args } => {
                            assert(slice_closed(s, args, s.rank[t.0 as int]));
                        },
                        _ => {},
                    }
                    assert(closed(s, t));
                    assert(live(self.store(), t.0 as int));
                }
            }
        }
    }

    /// Set the nominal ids of the primitives, forgetting what was cached.
    pub fn set_prim_ids(&mut self, ids: PrimIds)
        requires
            old(self).wf(),
        ensures
            final(self).wf(),
            final(self).prim_ids == ids,
            final(self).store() == (Store { prims: ids, ..old(self).store() }),
            forall|i: int|
                0 <= i < 6 ==> #[trigger] final(self).nullary_cache@[i] == Ty(0xFFFF_FFFF),
            final(self).strings == old(self).strings,
            final(self).only_types(old(self)),
            final(self).same_names(old(self)),
            final(self).current_level == old(self).current_level,
            final(self).diagnostics == old(self).diagnostics,
    {
        let ghost s = self.store();
        self.prim_ids = ids;
        self.nullary_cache = empty_cache();
        proof {
            let b = self.store();
            assert forall|t: int| live(b, t) implies #[trigger] node_ok(b, t) by {
                assert(node_ok(s, t));
            }
            assert forall|v: int| 0 <= v < b.vars.len() implies #[trigger] state_ok(b, v) by {
                assert(state_ok(s, v));
            }
        }
    }

    /// The primitive a nominal id is in this engine.
    pub fn as_prim(&self, id: TypeId) -> (r: Option<Prim>)
        ensures
            r == self.prim_ids.spec_prim_of(id),
    {
        self.prim_ids.prim_of(id)
    }

    /// A nominal type without arguments, made once per slot.
    pub fn nullary_con(&mut self, slot: NullaryPrim, id: TypeId, name: &str) -> (r: Ty)
        requires
            old(self).wf(),
            old(self).room(1, 0),
            old(self).strings@.len() < 0xFFFF_FFFF,
            old(self).nullary_cache@[slot.spec_slot()] == Ty(0xFFFF_FFFF) || old(self).con_id(
                old(self).nullary_cache@[slot.spec_slot()],
            ) == id,
        ensures
            final(self).wf(),
            final(self).has(r),
            final(self).con_id(r) == id,
            final(self).term(r) matches Term::Con { id: i2, name: n2, args } && i2 == id
                && args.len() == 0,
            if old(self).nullary_cache@[slot.spec_slot()] != Ty(0xFFFF_FFFF) {
                *final(self) == *old(self) && r == old(self).nullary_cache@[slot.spec_slot()]
            } else {
                &&& grows(old(self).store(), final(self).store())
                &&& final(self).vars == old(self).vars
                &&& final(self).nodes@.len() == old(self).nodes@.len() + 1
                &&& final(self).children@.len() == old(self).children@.len()
                &&& final(self).strings@ == with(old(self).strings@, name@)
                &&& final(self).term(r) matches Term::Con { id: i2, name: n2, args } && n2.0
                    < final(self).strings@.len() && final(self).strings@[n2.0 as int] == name@
                &&& final(self).nullary_cache@ == old(self).nullary_cache@.update(
                    slot.spec_slot(),
                    r,
                )
                &&& final(self).only_types(old(self))
                &&& final(self).same_names(old(self))
                &&& final(self).current_level == old(self).current_level
                &&& final(self).diagnostics == old(self).diagnostics
            },
    {
        let i = slot.slot();
        let cached = self.nullary_cache[i];
        proof {
            assert(self.cached_ok(self.nullary_cache@[i as int]));
        }
        if cached != Ty::none() {
            proof {
                lemma_term(self.store(), cached);
                let s = self.store();
                match s.nodes[cached.0 as int] {
                    TypeNode::Con { id: i2, name: n2, args } => {
                        assert(covered(s.kids, args).len() == 0);
                    },
                    _ => {},
                }
            }
            return cached;
        }
        let none: Vec<Ty> = Vec::new();
        let t = self.mk_con(id, name, none.as_slice());
        self.nullary_cache.set(i, t);
        proof {
            assert forall|k: int| 0 <= k < 6 implies self.cached_ok(
                #[trigger] self.nullary_cache@[k],
            ) by {
                if k != i {
                    assert(old(self).cached_ok(old(self).nullary_cache@[k]));
                    lemma_cached_stays(old(self), self, old(self).nullary_cache@[k]);
                }
            }
        }
        t
    }

    /// The nominal id at a node that is a nominal type.
    pub open spec fn con_id(&self, t: Ty) -> TypeId {
        match self.nodes@[t.0 as int] {
            TypeNode::Con { id, name, args } => id,
            _ => TypeId(0),
        }
    }
}

/// `items` with the first `n` of `more` inserted in turn.
pub open spec fn with_all(items: Seq<Seq<char>>, more: Seq<String>, n: int) -> Seq<Seq<char>>
    decreases n,
{
    if n <= 0 {
        items
    } else {
        with(with_all(items, more, n - 1), more[n - 1]@)
    }
}

/// At most the first `n` items.
pub open spec fn cut<T>(items: Seq<T>, n: int) -> Seq<T> {
    if n < items.len() {
        items.take(n)
    } else {
        items
    }
}

proof fn lemma_cached_stays(a: &InferEngine, b: &InferEngine, t: Ty)
    requires
        a.cached_ok(t),
        grows(a.store(), b.store()),
    ensures
        b.cached_ok(t),
{
    if t != Ty(0xFFFF_FFFF) {
        assert(a.store().nodes[t.0 as int] == b.store().nodes[t.0 as int]);
        assert(a.store().live[t.0 as int] == b.store().live[t.0 as int]);
    }
}

/// Some claimed string id stands for `name`.
pub open spec fn claimed(strings: Seq<Seq<char>>, ids: Set<u32>, name: Seq<char>) -> bool {
    exists|n: u32| #[trigger] ids.contains(n) && strings[n as int] == name
}

/// The claimed ids whose names come at or after `uid` in the sequence.
spec fn ahead(strings: Seq<Seq<char>>, ids: Set<u32>, uid: nat) -> Set<u32> {
    ids.filter(|n: u32| exists|j: nat| j >= uid && #[trigger] letters(j) == strings[n as int])
}

/// Ids below a bound are finitely many.
proof fn lemma_ids_finite(ids: Set<u32>, bound: nat)
    requires
        forall|n: u32| #[trigger] ids.contains(n) ==> n < bound,
    ensures
        ids.finite(),
        ids.len() <= bound,
    decreases bound,
{
    if bound == 0 {
        assert(ids =~= Set::empty());
    } else if bound - 1 <= u32::MAX {
        let x = (bound - 1) as u32;
        lemma_ids_finite(ids.remove(x), (bound - 1) as nat);
        if ids.contains(x) {
            assert(ids =~= ids.remove(x).insert(x));
        } else {
            assert(ids =~= ids.remove(x));
        }
    } else {
        lemma_ids_finite(ids, (bound - 1) as nat);
    }
}

/// The names passed so far are different strings, so there are no more of them
/// than strings.
proof fn lemma_passed(strings: Seq<Seq<char>>, uid: nat)
    requires
        strings.no_duplicates(),
        forall|j: nat| j < uid ==> strings.contains(#[trigger] letters(j)),
    ensures
        uid <= strings.len(),
{
    let at = |j: int| strings.index_of(letters(j as nat));
    let f = Seq::new(uid, |j: int| strings.index_of(letters(j as nat)));
    assert(f.no_duplicates()) by {
        assert forall|i: int, j: int| 0 <= i < uid && 0 <= j < uid && i != j implies f[i]
            != f[j] by {
            assert(strings.contains(letters(i as nat)));
            assert(strings.contains(letters(j as nat)));
            if f[i] == f[j] {
                assert(strings[f[i]] == letters(i as nat));
                assert(strings[f[j]] == letters(j as nat));
                law_letters_distinct(i as nat, j as nat);
            }
        }
    }
    let all = vstd::set_lib::set_int_range(0, strings.len() as int);
    vstd::set_lib::lemma_int_range(0, strings.len() as int);
    f.unique_seq_to_set();
    assert(f.to_set().subset_of(all)) by {
        assert forall|x: int| f.to_set().contains(x) implies all.contains(x) by {
            let i = choose|i: int| 0 <= i < f.len() && f[i] == x;
            assert(strings.contains(letters(i as nat)));
        }
    }
    vstd::set_lib::lemma_len_subset(f.to_set(), all);
}

/// Passing a claimed name leaves one fewer ahead.
proof fn lemma_ahead(strings: Seq<Seq<char>>, ids: Set<u32>, uid: nat, n: u32)
    requires
        ids.finite(),
        ids.contains(n),
        strings.no_duplicates(),
        forall|m: u32| #[trigger] ids.contains(m) ==> m < strings.len(),
        strings[n as int] == letters(uid),
    ensures
        ahead(strings, ids, uid + 1).len() < ahead(strings, ids, uid).len(),
        ahead(strings, ids, uid).finite(),
{
    let now = ahead(strings, ids, uid);
    let next = ahead(strings, ids, uid + 1);
    assert(now.contains(n));
    assert(next =~= now.remove(n)) by {
        assert forall|m: u32| next.contains(m) <==> now.remove(n).contains(m) by {
            if next.contains(m) {
                let j = choose|j: nat| j >= uid + 1 && #[trigger] letters(j) == strings[m as int];
                assert(j >= uid && letters(j) == strings[m as int]);
                if m == n {
                    law_letters_distinct(j, uid);
                }
            }
            if now.remove(n).contains(m) {
                let j = choose|j: nat| j >= uid && #[trigger] letters(j) == strings[m as int];
                if j == uid {
                    assert(strings[m as int] == strings[n as int]);
                }
                assert(j >= uid + 1 && letters(j) == strings[m as int]);
            }
        }
    }
}

impl InferEngine {
    /// Nothing but names and strings changed.
    pub open spec fn only_names(&self, before: &InferEngine) -> bool {
        &&& self.store() == before.store()
        &&& self.next_var_id == before.next_var_id
        &&& self.nodes == before.nodes
        &&& self.children == before.children
        &&& self.vars == before.vars
        &&& self.nullary_cache == before.nullary_cache
        &&& self.current_level == before.current_level
        &&& self.only_types(before)
        &&& self.diagnostics == before.diagnostics
        &&& before.strings@.is_prefix_of(self.strings@)
    }

    /// Give a variable a display name; a type that is no variable has none.
    pub fn name_var(&mut self, t: Ty, name: StrId)
        requires
            old(self).wf(),
            old(self).has(t),
            name.0 < old(self).strings@.len(),
        ensures
            final(self).wf(),
            final(self).only_names(old(self)),
            final(self).strings == old(self).strings,
            final(self).next_name_uid == old(self).next_name_uid,
            match old(self).nodes@[t.0 as int] {
                TypeNode::Var(v) => final(self).var_names@ == old(self).var_names@.insert(v, name)
                    && final(self).used_names@ == old(self).used_names@.insert(name.0),
                _ => final(self).same_names(old(self)),
            },
    {
        if let TypeNode::Var(id) = self.node(t) {
            self.used_names.insert(name.0);
            self.var_names.insert(id, name);
        }
    }

    /// Mint a fresh display name: the first of the sequence, from where it
    /// stands, that is claimed neither by a variable nor in `taken`. The winner
    /// joins both.
    pub(crate) fn mint_display_name(&mut self, taken: &mut HashSet<u32>) -> (r: StrId)
        requires
            old(self).wf(),
            old(self).strings@.len() < 0xFFFF_FFFF,
            forall|n: u32| #[trigger] old(taken)@.contains(n) ==> n < old(self).strings@.len(),
        ensures
            final(self).wf(),
            final(self).only_names(old(self)),
            final(self).var_names == old(self).var_names,
            final(self).used_names@ == old(self).used_names@.insert(r.0),
            final(taken)@ == old(taken)@.insert(r.0),
            r.0 < final(self).strings@.len(),
            final(self).strings@.len() <= old(self).strings@.len() + 1,
            minted(
                old(self).strings@,
                old(self).used_names@ + old(taken)@,
                old(self).next_name_uid as nat,
                final(self).strings@[r.0 as int],
                final(self).next_name_uid as nat,
            ),
            !old(self).used_names@.contains(r.0),
            !old(taken)@.contains(r.0),
    {
        let ghost strings = self.strings@;
        let ghost ids = self.used_names@ + taken@;
        let ghost start = self.next_name_uid as nat;
        proof {
            lemma_ids_finite(self.used_names@, strings.len());
            lemma_ids_finite(taken@, strings.len());
            lemma_passed(strings, start);
            vstd::set_lib::lemma_len_union(self.used_names@, taken@);
            vstd::set_lib::lemma_len_subset(ahead(strings, ids, start), ids);
        }
        loop
            invariant
                self.wf(),
                self.only_names(old(self)),
                self.var_names == old(self).var_names,
                self.used_names == old(self).used_names,
                *taken == *old(taken),
                self.strings@ == strings,
                strings == old(self).strings@,
                ids == old(self).used_names@ + old(taken)@,
                ids.finite(),
                start == old(self).next_name_uid,
                strings.len() < 0xFFFF_FFFF,
                self.next_name_uid >= start,
                self.next_name_uid + ahead(strings, ids, self.next_name_uid as nat).len()
                    < u64::MAX,
                forall|n: u32| #[trigger] ids.contains(n) ==> n < strings.len(),
                forall|j: nat|
                    start <= j < self.next_name_uid ==> claimed(strings, ids, #[trigger] letters(j)),
            decreases ahead(strings, ids, self.next_name_uid as nat).len(),
        {
            let ghost uid = self.next_name_uid as nat;
            let mut at: u64 = self.next_name_uid;
            let candidate = next_letter(&mut at);
            let sid = self.intern(candidate.as_str());
            self.next_name_uid = at;
            proof {
                lemma_with(strings, candidate@);
                assert forall|j: nat| j < self.next_name_uid implies self.strings@.contains(
                    #[trigger] letters(j),
                ) by {
                    if j < uid {
                        assert(strings.contains(letters(j)));
                        let i = strings.index_of(letters(j));
                        assert(self.strings@[i] == strings[i]);
                    }
                }
            }
            if !self.used_names.contains(&sid.0) && !taken.contains(&sid.0) {
                proof {
                    if claimed(strings, ids, letters(uid)) {
                        let n = choose|n: u32| #[trigger]
                            ids.contains(n) && strings[n as int] == letters(uid);
                        assert(self.strings@[n as int] == strings[n as int]);
                        assert(n == sid.0);
                    }
                }
                self.used_names.insert(sid.0);
                taken.insert(sid.0);
                return sid;
            }
            proof {
                assert(ids.contains(sid.0));
                assert(strings[sid.0 as int] == self.strings@[sid.0 as int]);
                assert(strings.contains(candidate@));
                lemma_ahead(strings, ids, uid, sid.0);
                assert(claimed(strings, ids, letters(uid)));
            }
        }
    }

    /// The display name of a variable, minted and remembered on first call so
    /// later calls are stable.
    pub fn var_display_name(&mut self, id: i32) -> (r: String)
        requires
            old(self).wf(),
            old(self).var_names@.contains_key(id) || old(self).strings@.len() < 0xFFFF_FFFF,
        ensures
            final(self).wf(),
            final(self).only_names(old(self)),
            final(self).var_names@.contains_key(id),
            r@ == final(self).strings@[final(self).var_names@[id].0 as int],
            if old(self).var_names@.contains_key(id) {
                *final(self) == *old(self)
            } else {
                &&& final(self).var_names@ == old(self).var_names@.insert(
                    id,
                    final(self).var_names@[id],
                )
                &&& final(self).used_names@ == old(self).used_names@.insert(
                    final(self).var_names@[id].0,
                )
                &&& !old(self).used_names@.contains(final(self).var_names@[id].0)
                &&& final(self).strings@.len() <= old(self).strings@.len() + 1
                &&& minted(
                    old(self).strings@,
                    old(self).used_names@,
                    old(self).next_name_uid as nat,
                    r@,
                    final(self).next_name_uid as nat,
                )
            },
    {
        if let Some(name) = self.var_names.get(&id) {
            let n = *name;
            return self.str(n).to_owned();
        }
        let mut taken: HashSet<u32> = HashSet::new();
        let sid = self.mint_display_name(&mut taken);
        self.var_names.insert(id, sid);
        proof {
            assert(old(self).used_names@ + Set::<u32>::empty() =~= old(self).used_names@);
        }
        self.str(sid).to_owned()
    }
}

/// `name` is the first of the sequence from `uid` on that no claimed id stands
/// for; the sequence goes on at `after`.
pub open spec fn minted(
    strings: Seq<Seq<char>>,
    ids: Set<u32>,
    uid: nat,
    name: Seq<char>,
    after: nat,
) -> bool {
    &&& uid < after
    &&& name == letters((after - 1) as nat)
    &&& !claimed(strings, ids, name)
    &&& forall|j: nat| uid <= j < after - 1 ==> claimed(strings, ids, #[trigger] letters(j))
}

} // verus!
