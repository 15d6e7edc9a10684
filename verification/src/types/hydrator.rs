//! From written type annotations to types.

use crate::entries::{Entries, lemma_put, NameMap};
use crate::names::{lemma_with, position};
use crate::small::TyList;
use crate::syntax::{
    Diagnostic, DiagnosticCode, FunctionType, NamedType, Span, TypeIdentifier, TypeKind,
};
use crate::text::{join, joined, push_decimal, texts};
use crate::types::annotation::{
    AnnotationContext, arity_text, capitalized, Complaint, lemma_read_all_cost, lemma_read_cost,
    lemma_read_more, Mention, Notes, quoted, read, read_all, read_function, read_named, Reading,
    Setting, short, short_all,
};
use crate::types::arena::claimed;
use crate::types::environment::{TypeBody, TypeInfo};
use crate::types::infer::InferEngine;
use crate::types::naming::lemma_naming_strings;
use crate::types::node::{ArenaSlice, StrId, Ty};
use crate::types::pool::StrSlices;
use crate::types::rewrite::weight;
use crate::types::suggest::spellings;
use crate::types::term::{grows, lemma_grows_trans, lemma_term, lemma_term_vars, Term, term, terms};
use crate::types::type_env::TypeEnv;
use std::collections::HashSet;
use vstd::prelude::*;

verus! {

broadcast use vstd::std_specs::hash::group_hash_axioms;

/// A resolved type-name occurrence: the use-site span plus the canonical
/// identity of the type it resolved to. It never affects the type produced.
#[derive(Clone, Copy)]
pub struct TypeRefHit {
    /// Span of the written type name.
    pub span: Span,
    /// Canonical type name as declared, not the local import alias.
    pub name: StrId,
    /// Owning module path, a slice of the engine's string slices.
    pub module: ArenaSlice<StrSlices>,
    /// Name and span of the module qualifier when the occurrence was written
    /// `module.Type`.
    pub qualifier: Option<(StrId, Span)>,
}

/// Converts a syntactic type annotation into a type.
///
/// It owns the policy for type-variable names in annotations. Lowercase
/// identifiers are type variables and uppercase ones are nominal types that
/// must resolve in the environment. The same lowercase name within one
/// annotation maps to one shared var, so `fn(x a, y a) a` ties all three
/// positions together. Minted vars are recorded as *rigid* so that
/// instantiation will not replace them while checking the annotated body.
pub struct Hydrator {
    pub created: NameMap<(Ty, i32)>,
    pub rigid_ids: HashSet<i32>,
    pub context: AnnotationContext,
    pub type_refs: Vec<TypeRefHit>,
}

/// What declaring a type parameter gives: its type, its variable, and whether
/// the name was declared before.
#[derive(Debug, Clone, Copy)]
pub struct AddedTypeVar {
    pub ty: Ty,
    pub id: i32,
    pub duplicate: bool,
}

/// An occurrence, its qualifier spelled out.
pub open spec fn mention_of(strings: Seq<Seq<char>>, hit: TypeRefHit) -> Mention {
    Mention {
        span: hit.span,
        name: hit.name,
        module: hit.module,
        qualifier: match hit.qualifier {
            Some(q) => Some((strings[q.0.0 as int], q.1)),
            None => None,
        },
    }
}

pub open spec fn mentions_of(strings: Seq<Seq<char>>, hits: Seq<TypeRefHit>) -> Seq<Mention> {
    Seq::new(hits.len(), |i: int| mention_of(strings, hits[i]))
}

/// The variables declared, by name.
pub open spec fn ids_of(created: Entries<Seq<char>, (Ty, i32)>) -> Entries<Seq<char>, i32> {
    Entries { keys: created.keys, vals: Seq::new(created.vals.len(), |i: int| created.vals[i].1) }
}

/// `p` is a type of the engine that stands for its variable.
pub open spec fn stands_for(e: &InferEngine, p: (Ty, i32)) -> bool {
    e.has(p.0) && e.term(p.0) == Term::Var(p.1)
}

pub open spec fn hit_fits(strings: Seq<Seq<char>>, hit: TypeRefHit) -> bool {
    hit.qualifier matches Some(q) ==> q.0.0 < strings.len()
}

/// Each name has a variable of its own.
pub open spec fn one_each(created: Entries<Seq<char>, (Ty, i32)>) -> bool {
    forall|i: int, j: int|
        0 <= i < j < created.vals.len() ==> (#[trigger] created.vals[i]).1 != (
        #[trigger] created.vals[j]).1
}

/// Every name of `a` has the type and variable in `b` that it had.
pub open spec fn names_kept(
    a: Entries<Seq<char>, (Ty, i32)>,
    b: Entries<Seq<char>, (Ty, i32)>,
) -> bool {
    a.keys.is_prefix_of(b.keys) && a.vals.is_prefix_of(b.vals)
}

/// The name of the type variable that an annotation is: a bare name that is
/// lowercase or was declared.
pub open spec fn variable_name(
    created: Entries<Seq<char>, (Ty, i32)>,
    nt: NamedType,
) -> Option<Seq<char>> {
    let name = nt.identifier.name@;
    if nt.qualifier is None && (created.has(name) || !capitalized(name)) {
        Some(name)
    } else {
        None
    }
}

/// An annotation that is a type variable gives the very type its name has, and
/// the variable is rigid if the name is new.
pub open spec fn gives_its_own(a: &Hydrator, b: &Hydrator, nt: NamedType, t: Ty) -> bool {
    variable_name(a.created@, nt) matches Some(name) ==> {
        &&& b.created@.get(name) matches Some(p)
        &&& p.0 == t
        &&& !a.created@.has(name) ==> b.rigid_ids@.contains(p.1)
    }
}

impl Hydrator {
    /// The hydrator's variables are variables of this engine, one for each
    /// name, and its occurrences are named by its strings.
    pub open spec fn wf(&self, e: &InferEngine) -> bool {
        &&& self.created.wf()
        &&& forall|i: int|
            0 <= i < self.created@.vals.len() ==> stands_for(e, #[trigger] self.created@.vals[i])
        &&& one_each(self.created@)
        &&& forall|i: int|
            0 <= i < self.type_refs@.len() ==> hit_fits(e.strings@, #[trigger] self.type_refs@[i])
    }
}

/// Where reading starts, as the hydrator and the engine stand.
pub open spec fn notes_of(h: &Hydrator, e: &InferEngine) -> Notes {
    Notes {
        created: ids_of(h.created@),
        rigid: h.rigid_ids@,
        mentions: mentions_of(e.strings@, h.type_refs@),
        base: e.vars@.len(),
        fresh: Seq::empty(),
        strings: e.strings@,
        naming: e.naming(),
        cost: 0,
    }
}

/// The hydrator and the engine have come to what the notes say.
pub open spec fn noted(h: &Hydrator, e: &InferEngine, n: Notes) -> bool {
    &&& h.wf(e)
    &&& n.created == ids_of(h.created@)
    &&& n.rigid == h.rigid_ids@
    &&& n.mentions == mentions_of(e.strings@, h.type_refs@)
    &&& e.vars@.len() == n.base + n.fresh.len()
    &&& forall|i: int|
        0 <= i < n.fresh.len() ==> e.vars@[n.base + i] == #[trigger] n.fresh[i]
    &&& forall|i: int| 0 <= i < n.fresh.len() ==> !(#[trigger] n.fresh[i] is Link)
    &&& n.strings == e.strings@
    &&& n.naming == e.naming()
}

/// What annotations are read against, as the hydrator, the environment and the
/// engine stand.
pub open spec fn setting(h: &Hydrator, env: &TypeEnv, e: &InferEngine) -> Setting {
    Setting {
        context: h.context,
        types: env.now().types,
        params: e.type_params@,
        known: |t: Ty| e.has(t),
        targets: |t: Ty| e.term(t),
        level: e.current_level,
    }
}

/// What a type's record refers to is there.
pub open spec fn record_ok(s: Setting, strings: int, ti: TypeInfo) -> bool {
    &&& ti.name.0 < strings
    &&& ti.type_params.start + ti.type_params.len <= s.params.len()
    &&& ti.body matches TypeBody::Alias { target } ==> (s.known)(target)
}

pub open spec fn records_ok(s: Setting, strings: int) -> bool {
    forall|i: int| 0 <= i < s.types.vals.len() ==> record_ok(s, strings, #[trigger] s.types.vals[i])
}

/// The setting still holds.
pub open spec fn set_in(s: Setting, h: &Hydrator, env: &TypeEnv, e: &InferEngine) -> bool {
    &&& env.wf()
    &&& s.context == h.context
    &&& s.types == env.now().types
    &&& s.params == e.type_params@
    &&& s.level == e.current_level
    &&& records_ok(s, e.strings@.len() as int)
    &&& forall|t: Ty| #[trigger] (s.known)(t) ==> e.has(t) && e.term(t) == (s.targets)(t)
}

/// What hydration leaves of the engine.
pub open spec fn only_read(b: &InferEngine, a: &InferEngine, cost: int) -> bool {
    &&& b.wf()
    &&& grows(a.store(), b.store())
    &&& a.strings@.is_prefix_of(b.strings@)
    &&& b.strings@.len() <= a.strings@.len() + cost
    &&& b.nodes@.len() <= a.nodes@.len() + cost
    &&& b.children@.len() <= a.children@.len() + cost
    &&& b.vars@.len() <= a.vars@.len() + cost
    &&& b.only_types(a)
    &&& b.prim_ids == a.prim_ids
    &&& b.current_level == a.current_level
    &&& b.diagnostics == a.diagnostics
    &&& b.nullary_cache == a.nullary_cache
}

pub open spec fn room_to_read(e: &InferEngine, cost: int) -> bool {
    &&& 0 <= cost
    &&& e.nodes@.len() + cost < 0xFFFF_FFFF
    &&& e.children@.len() + cost <= 0xFFFF_FFFF
    &&& e.strings@.len() + cost <= 0xFFFF_FFFF
    &&& e.vars@.len() + cost <= i32::MAX
}

proof fn lemma_only_read_trans(a: &InferEngine, b: &InferEngine, c: &InferEngine, m: int, n: int)
    requires
        only_read(b, a, m),
        only_read(c, b, n),
    ensures
        only_read(c, a, m + n),
{
    lemma_grows_trans(a.store(), b.store(), c.store());
}

/// More of an engine leaves the hydrator's variables and occurrences alone.
proof fn lemma_kept(h: &Hydrator, a: &InferEngine, b: &InferEngine, n: int)
    requires
        h.wf(a),
        only_read(b, a, n),
    ensures
        h.wf(b),
        mentions_of(b.strings@, h.type_refs@) == mentions_of(a.strings@, h.type_refs@),
{
    assert forall|i: int| 0 <= i < h.created@.vals.len() implies stands_for(
        b,
        #[trigger] h.created@.vals[i],
    ) by {
        let p = h.created@.vals[i];
        assert(stands_for(a, p));
        assert(b.store().live[p.0.0 as int] == a.store().live[p.0.0 as int]);
        assert(term(b.store(), p.0) == term(a.store(), p.0));
    }
    assert forall|i: int| 0 <= i < h.type_refs@.len() implies hit_fits(
        b.strings@,
        #[trigger] h.type_refs@[i],
    ) && mention_of(b.strings@, h.type_refs@[i]) == mention_of(a.strings@, h.type_refs@[i]) by {
        assert(hit_fits(a.strings@, h.type_refs@[i]));
    }
    assert(mentions_of(b.strings@, h.type_refs@) =~= mentions_of(a.strings@, h.type_refs@));
}

proof fn lemma_set_in(
    s: Setting,
    h: &Hydrator,
    k: &Hydrator,
    env: &TypeEnv,
    a: &InferEngine,
    b: &InferEngine,
    n: int,
)
    requires
        set_in(s, h, env, a),
        k.context == h.context,
        only_read(b, a, n),
    ensures
        set_in(s, k, env, b),
{
    assert forall|t: Ty| #[trigger] (s.known)(t) implies b.has(t) && b.term(t) == (s.targets)(
        t,
    ) by {
        assert(b.store().live[t.0 as int] == a.store().live[t.0 as int]);
        assert(term(b.store(), t) == term(a.store(), t));
    }
    assert forall|i: int| 0 <= i < s.types.vals.len() implies record_ok(
        s,
        b.strings@.len() as int,
        #[trigger] s.types.vals[i],
    ) by {
        assert(record_ok(s, a.strings@.len() as int, s.types.vals[i]));
    }
}

proof fn lemma_fresh_kept(n: Notes, a: &InferEngine, b: &InferEngine)
    requires
        a.vars@.len() == n.base + n.fresh.len(),
        forall|i: int| 0 <= i < n.fresh.len() ==> a.vars@[n.base + i] == #[trigger] n.fresh[i],
        forall|i: int| 0 <= i < n.fresh.len() ==> !(#[trigger] n.fresh[i] is Link),
        grows(a.store(), b.store()),
    ensures
        forall|i: int| 0 <= i < n.fresh.len() ==> b.vars@[n.base + i] == #[trigger] n.fresh[i],
{
    assert forall|i: int| 0 <= i < n.fresh.len() implies b.vars@[n.base + i]
        == #[trigger] n.fresh[i] by {
        assert(a.store().vars[n.base + i] == n.fresh[i]);
    }
}

fn err(span: Span, message: String) -> (r: Diagnostic)
    ensures
        r == (Diagnostic { span, code: DiagnosticCode::TypeError, message }),
{
    Diagnostic::error(span, DiagnosticCode::TypeError, message)
}

fn arity_error(span: Span, name: &str, expected: usize, given: usize) -> (r: Diagnostic)
    ensures
        r.span == span,
        r.code == DiagnosticCode::TypeError,
        r.message@ == arity_text(name@, expected as nat, given as nat),
{
    let mut m = "Type '".to_owned();
    m.append(name);
    m.append("' expects ");
    push_decimal(&mut m, expected as u64);
    m.append(" type argument");
    if expected == 1 {
        m.append("");
    } else {
        m.append("s");
    }
    m.append(", got ");
    push_decimal(&mut m, given as u64);
    err(span, m)
}

/// Whether a name is that of a nominal type.
fn is_type_name(name: &str) -> (r: bool)
    ensures
        r == capitalized(name@),
{
    if name.unicode_len() == 0 {
        return false;
    }
    let c = name.get_char(0);
    'A' <= c && c <= 'Z'
}

/// The message for a bare name that no type in scope has.
fn unknown_bare_type(env: &TypeEnv, name: &str) -> (r: String)
    requires
        env.wf(),
    ensures
        ({
            let ss = quoted(spellings(env.now().types.keys, name@));
            r@ == if ss.len() == 0 {
                "Unknown type '"@ + name@ + "'"@
            } else if ss.len() == 1 {
                "Unknown type '"@ + name@ + "'. Did you mean "@ + ss[0] + "?"@
            } else {
                "Unknown type '"@ + name@ + "'. Did you mean one of "@ + joined(ss, ", "@) + "?"@
            }
        }),
{
    let found = env.qualified_spellings(name);
    let mut list: Vec<String> = Vec::new();
    let mut i: usize = 0;
    while i < found.len()
        invariant
            i <= found@.len(),
            list@.len() == i,
            forall|k: int|
                0 <= k < i ==> (#[trigger] list@[k])@ == "'"@ + texts(found@)[k] + "'"@,
        decreases found@.len() - i,
    {
        let mut q = "'".to_owned();
        q.append(found[i].as_str());
        q.append("'");
        list.push(q);
        i += 1;
    }
    proof {
        assert(texts(list@) =~= quoted(texts(found@)));
    }
    let mut m = "Unknown type '".to_owned();
    m.append(name);
    if list.len() == 0 {
        m.append("'");
    } else if list.len() == 1 {
        m.append("'. Did you mean ");
        m.append(list[0].as_str());
        m.append("?");
    } else {
        m.append("'. Did you mean one of ");
        let all = join(&list, ", ");
        m.append(all.as_str());
        m.append("?");
    }
    m
}

/// What hydrating one type promises.
pub open spec fn hydrated(
    h: &Hydrator,
    e: &InferEngine,
    before: &InferEngine,
    r: Result<Ty, Diagnostic>,
    o: Reading,
    spent: nat,
) -> bool {
    &&& only_read(e, before, o.notes.cost - spent)
    &&& noted(h, e, o.notes)
    &&& match r {
        Ok(t) => o.res is Ok && e.has(t) && e.term(t) == o.res->Ok_0,
        Err(d) => o.res is Err && d.code == DiagnosticCode::TypeError && (Complaint {
            span: d.span,
            message: d.message@,
        }) == o.res->Err_0,
    }
}

impl Hydrator {
    pub fn new(context: AnnotationContext) -> (r: Hydrator)
        ensures
            r.context == context,
            r.created.wf(),
            r.created@.keys == Seq::<Seq<char>>::empty(),
            r.created@.vals == Seq::<(Ty, i32)>::empty(),
            r.rigid_ids@ == Set::<i32>::empty(),
            r.type_refs@ == Seq::<TypeRefHit>::empty(),
            forall|e: &InferEngine| #[trigger] r.wf(e),
    {
        Hydrator {
            created: NameMap::new(),
            rigid_ids: HashSet::new(),
            context,
            type_refs: Vec::new(),
        }
    }

    /// The type-name occurrences resolved since the last call, handed out. A
    /// hydrator is reused across one signature's parameters and return, so
    /// that none is handed out twice.
    pub fn take_type_refs(&mut self) -> (r: Vec<TypeRefHit>)
        ensures
            r@ == old(self).type_refs@,
            final(self).type_refs@ == Seq::<TypeRefHit>::empty(),
            final(self).created == old(self).created,
            final(self).rigid_ids == old(self).rigid_ids,
            final(self).context == old(self).context,
    {
        let mut out: Vec<TypeRefHit> = Vec::new();
        std::mem::swap(&mut out, &mut self.type_refs);
        out
    }

    pub fn rigid_ids(&self) -> (r: &HashSet<i32>)
        ensures
            *r == self.rigid_ids,
    {
        &self.rigid_ids
    }

    /// Declare a type parameter (the `a` in `type Foo(a, b) { .. }`). A
    /// repeated name gives the variable it has. Unlike the variables that
    /// annotations introduce these are *not* rigid.
    pub fn add_type_variable(&mut self, name: &str, engine: &mut InferEngine) -> (r: AddedTypeVar)
        requires
            old(engine).wf(),
            old(self).wf(old(engine)),
            old(self).created@.has(name@) || room_to_read(old(engine), 1),
        ensures
            final(engine).wf(),
            stands_for(final(engine), (r.ty, r.id)),
            r.duplicate == old(self).created@.has(name@),
            if r.duplicate {
                &&& old(self).created@.get(name@) == Some((r.ty, r.id))
                &&& *final(self) == *old(self)
                &&& *final(engine) == *old(engine)
            } else {
                &&& r.id == old(engine).vars@.len()
                &&& only_read(final(engine), old(engine), 1)
                &&& noted(
                    final(self),
                    final(engine),
                    notes_of(old(self), old(engine)).declare(name@),
                )
                &&& final(self).created@ == old(self).created@.put(name@, (r.ty, r.id))
                &&& final(self).context == old(self).context
            },
    {
        if let Some(p) = self.created.get(name) {
            let p = *p;
            proof {
                let i = position(self.created@.keys, name@).unwrap() as int;
                assert(stands_for(engine, self.created@.vals[i]));
                lemma_has(self.created@, name@);
            }
            return AddedTypeVar { ty: p.0, id: p.1, duplicate: true };
        }
        let ghost n = notes_of(self, engine);
        proof {
            lemma_has(self.created@, name@);
        }
        let (ty, id) = self.declare(name, engine, Ghost(n));
        AddedTypeVar { ty, id, duplicate: false }
    }

    /// A fresh rigid variable for a name that has none.
    fn declare(&mut self, name: &str, engine: &mut InferEngine, Ghost(n): Ghost<Notes>) -> (r: (
        Ty,
        i32,
    ))
        requires
            old(engine).wf(),
            noted(old(self), old(engine), n),
            !old(self).created@.has(name@),
            room_to_read(old(engine), 1),
        ensures
            stands_for(final(engine), r),
            r.1 == n.next(),
            only_read(final(engine), old(engine), 1),
            noted(final(self), final(engine), n.declare(name@)),
            final(self).created@ == old(self).created@.put(name@, r),
            final(self).context == old(self).context,
    {
        let ghost e0 = *engine;
        let ghost h0 = *self;
        let (ty, id) = engine.fresh_generic_var();
        let ghost e1 = *engine;
        proof {
            lemma_term(e1.store(), ty);
        }
        let name_id = engine.intern(name);
        let ghost e2 = *engine;
        engine.name_var(ty, name_id);
        proof {
            lemma_naming_strings(&e0, &e1);
            lemma_naming_strings(&e1, &e2);
            lemma_called(&e2, engine, id, name_id);
            assert(grows(e1.store(), engine.store()));
            lemma_with(e1.strings@, name@);
            assert(only_read(engine, &e0, 1)) by {
                assert(engine.store() == e1.store());
            }
            lemma_kept(self, &e0, engine, 1);
            lemma_put(self.created@, name@, (ty, id));
            lemma_fresh_kept(n, &e0, engine);
        }
        self.created.put(name, (ty, id));
        proof {
            let m = n.declare(name@);
            assert forall|i: int| 0 <= i < h0.created@.vals.len() implies (
            #[trigger] h0.created@.vals[i]).1 < id by {
                let p = h0.created@.vals[i];
                assert(stands_for(&e0, p));
                lemma_term_vars(e0.store(), p.0, p.1);
            }
            lemma_has(h0.created@, name@);
            assert(ids_of(self.created@).vals =~= m.created.vals);
            assert forall|i: int| 0 <= i < self.created@.vals.len() implies stands_for(
                engine,
                #[trigger] self.created@.vals[i],
            ) by {
                if i < h0.created@.vals.len() {
                    assert(stands_for(engine, h0.created@.vals[i]));
                }
            }
            assert forall|i: int| 0 <= i < m.fresh.len() implies engine.vars@[m.base + i]
                == #[trigger] m.fresh[i] by {
                if i < n.fresh.len() {
                    assert(engine.vars@[n.base + i] == n.fresh[i]);
                }
            }
            assert forall|i: int| 0 <= i < m.fresh.len() implies !(
            #[trigger] m.fresh[i] is Link) by {
                if i < n.fresh.len() {
                    assert(!(n.fresh[i] is Link));
                }
            }
        }
        (ty, id)
    }

    /// The type that an annotation stands for.
    pub fn type_from_ast(
        &mut self,
        t: &TypeIdentifier,
        env: &TypeEnv,
        engine: &mut InferEngine,
    ) -> (r: Result<Ty, Diagnostic>)
        requires
            old(engine).wf(),
            old(self).wf(old(engine)),
            env.wf(),
            records_ok(
                setting(old(self), env, old(engine)),
                old(engine).strings@.len() as int,
            ),
            short(*t),
            room_to_read(
                old(engine),
                read(
                    setting(old(self), env, old(engine)),
                    *t,
                    notes_of(old(self), old(engine)),
                ).notes.cost as int,
            ),
        ensures
            final(self).context == old(self).context,
            names_kept(old(self).created@, final(self).created@),
            hydrated(
                final(self),
                final(engine),
                old(engine),
                r,
                read(
                    setting(old(self), env, old(engine)),
                    *t,
                    notes_of(old(self), old(engine)),
                ),
                0,
            ),
            r matches Ok(ty) ==> t.kind matches TypeKind::NamedType(nt) ==> gives_its_own(
                old(self),
                final(self),
                nt,
                ty,
            ),
    {
        let ghost s = setting(self, env, engine);
        let ghost n = notes_of(self, engine);
        self.hydrate(t, env, engine, Ghost(s), Ghost(n))
    }

    fn hydrate(
        &mut self,
        t: &TypeIdentifier,
        env: &TypeEnv,
        engine: &mut InferEngine,
        Ghost(s): Ghost<Setting>,
        Ghost(n): Ghost<Notes>,
    ) -> (r: Result<Ty, Diagnostic>)
        requires
            old(engine).wf(),
            set_in(s, old(self), env, old(engine)),
            noted(old(self), old(engine), n),
            short(*t),
            room_to_read(old(engine), read(s, *t, n).notes.cost - n.cost),
        ensures
            final(self).context == old(self).context,
            names_kept(old(self).created@, final(self).created@),
            hydrated(final(self), final(engine), old(engine), r, read(s, *t, n), n.cost),
            r matches Ok(ty) ==> t.kind matches TypeKind::NamedType(nt) ==> gives_its_own(
                old(self),
                final(self),
                nt,
                ty,
            ),
        decreases t,
    {
        match &t.kind {
            TypeKind::NamedType(nt) => self.named_type(nt, t.span, env, engine, Ghost(s), Ghost(n)),
            TypeKind::TupleType(tt) => {
                let ghost e0 = *engine;
                let ghost es = read_all(s, tt.elements@, n);
                proof {
                    lemma_read_all_cost(s, tt.elements@, n);
                }
                let mut list = TyList::new();
                if let Err(d) = self.hydrate_all(
                    &tt.elements,
                    &mut list,
                    env,
                    engine,
                    Ghost(s),
                    Ghost(n),
                ) {
                    return Err(d);
                }
                let ghost e1 = *engine;
                let r = engine.mk_tuple(list.as_slice());
                proof {
                    let c = (1 + list@.len()) as int;
                    lemma_naming_strings(&e1, engine);
                    assert(only_read(engine, &e1, c));
                    lemma_only_read_trans(&e0, &e1, engine, es.notes.cost - n.cost, c);
                    lemma_kept(self, &e1, engine, c);
                    lemma_fresh_kept(es.notes, &e1, engine);
                }
                Ok(r)
            },
            TypeKind::FunctionType(ft) => self.function_type(
                ft,
                t.span,
                env,
                engine,
                Ghost(s),
                Ghost(n),
            ),
        }
    }

    fn function_type(
        &mut self,
        ft: &FunctionType,
        span: Span,
        env: &TypeEnv,
        engine: &mut InferEngine,
        Ghost(s): Ghost<Setting>,
        Ghost(n): Ghost<Notes>,
    ) -> (r: Result<Ty, Diagnostic>)
        requires
            old(engine).wf(),
            set_in(s, old(self), env, old(engine)),
            noted(old(self), old(engine), n),
            ft.params@.len() <= 0xFFFF,
            short_all(ft.params@),
            ft.return_type matches Some(r) ==> short(*r),
            room_to_read(old(engine), read_function(s, *ft, span, n).notes.cost - n.cost),
        ensures
            final(self).context == old(self).context,
            names_kept(old(self).created@, final(self).created@),
            hydrated(
                final(self),
                final(engine),
                old(engine),
                r,
                read_function(s, *ft, span, n),
                n.cost,
            ),
        decreases ft,
    {
        let ghost e0 = *engine;
        let ghost ps = read_all(s, ft.params@, n);
        let ghost o = read_function(s, *ft, span, n);
        proof {
            lemma_read_all_cost(s, ft.params@, n);
            match &ft.return_type {
                Some(r) => lemma_read_cost(s, **r, ps.notes),
                None => {},
            }
        }
        let mut list = TyList::new();
        if let Err(d) = self.hydrate_all(&ft.params, &mut list, env, engine, Ghost(s), Ghost(n)) {
            return Err(d);
        }
        let ghost e1 = *engine;
        let ghost h1 = *self;
        let ghost kept: Notes;
        let ret = match &ft.return_type {
            Some(r) => {
                proof {
                    lemma_set_in(s, &h1, self, env, &e0, &e1, ps.notes.cost - n.cost);
                    kept = read(s, **r, ps.notes).notes;
                }
                match self.hydrate(r, env, engine, Ghost(s), Ghost(ps.notes)) {
                    Ok(t) => {
                        proof {
                            lemma_only_read_trans(
                                &e0,
                                &e1,
                                engine,
                                ps.notes.cost - n.cost,
                                kept.cost - ps.notes.cost,
                            );
                        }
                        t
                    },
                    Err(d) => {
                        proof {
                            lemma_only_read_trans(
                                &e0,
                                &e1,
                                engine,
                                ps.notes.cost - n.cost,
                                kept.cost - ps.notes.cost,
                            );
                        }
                        return Err(d);
                    },
                }
            },
            None => {
                // An omitted return type means "infer it", but a type
                // definition has no inference context.
                if self.context.requires_fn_return() {
                    return Err(
                        err(
                            span,
                            "Function type in a type definition must declare a return type".to_owned(),
                        ),
                    );
                }
                let t = engine.fresh_var();
                proof {
                    kept = ps.notes.solve_for(s.level);
                    lemma_naming_strings(&e1, engine);
                    assert(only_read(engine, &e1, 1));
                    lemma_only_read_trans(&e0, &e1, engine, ps.notes.cost - n.cost, 1);
                    lemma_kept(self, &e1, engine, 1);
                    lemma_fresh_kept(ps.notes, &e1, engine);
                    assert forall|i: int| 0 <= i < kept.fresh.len() implies engine.vars@[kept.base
                        + i] == #[trigger] kept.fresh[i] && !(kept.fresh[i] is Link) by {
                        if i < ps.notes.fresh.len() {
                            assert(engine.vars@[ps.notes.base + i] == ps.notes.fresh[i]);
                            assert(!(ps.notes.fresh[i] is Link));
                        }
                    }
                    lemma_term(engine.store(), t);
                }
                t
            },
        };
        let ghost e2 = *engine;
        proof {
            assert forall|i: int| 0 <= i < list@.len() implies e2.has(#[trigger] list@[i]) by {
                assert(e2.store().live[list@[i].0 as int] == e1.store().live[list@[i].0 as int]);
            }
            lemma_terms_kept(&e1, &e2, list@);
        }
        let r = engine.mk_fun(list.as_slice(), ret);
        proof {
            let c = (1 + list@.len()) as int;
            lemma_naming_strings(&e2, engine);
            assert(only_read(engine, &e2, c));
            lemma_only_read_trans(&e0, &e2, engine, kept.cost - n.cost, c);
            lemma_kept(self, &e2, engine, c);
            lemma_fresh_kept(kept, &e2, engine);
        }
        Ok(r)
    }

    /// The types that a list of annotations stand for, up to the first that
    /// stands for none.
    fn hydrate_all(
        &mut self,
        ts: &Vec<TypeIdentifier>,
        list: &mut TyList,
        env: &TypeEnv,
        engine: &mut InferEngine,
        Ghost(s): Ghost<Setting>,
        Ghost(n): Ghost<Notes>,
    ) -> (r: Result<(), Diagnostic>)
        requires
            old(engine).wf(),
            set_in(s, old(self), env, old(engine)),
            noted(old(self), old(engine), n),
            short_all(ts@),
            old(list)@.len() == 0,
            room_to_read(old(engine), read_all(s, ts@, n).notes.cost - n.cost),
        ensures
            final(self).context == old(self).context,
            names_kept(old(self).created@, final(self).created@),
            only_read(final(engine), old(engine), read_all(s, ts@, n).notes.cost - n.cost),
            noted(final(self), final(engine), read_all(s, ts@, n).notes),
            match r {
                Ok(_) => {
                    &&& read_all(s, ts@, n).res is Ok
                    &&& forall|i: int|
                        0 <= i < final(list)@.len() ==> final(engine).has(#[trigger] final(list)@[i])
                    &&& final(list)@.len() == ts@.len()
                    &&& terms(final(engine).store(), final(list)@) == read_all(s, ts@, n).res->Ok_0
                },
                Err(d) => read_all(s, ts@, n).res is Err && d.code == DiagnosticCode::TypeError && (
                Complaint { span: d.span, message: d.message@ }) == read_all(s, ts@, n).res->Err_0,
            },
        decreases ts@,
    {
        let ghost e0 = *engine;
        let ghost h0 = *self;
        let mut i: usize = 0;
        proof {
            assert(ts@.take(0) =~= Seq::empty());
            assert(terms(engine.store(), list@) =~= Seq::empty());
            assert(grows(e0.store(), e0.store()));
        }
        while i < ts.len()
            invariant
                i <= ts@.len(),
                e0 == *old(engine),
                h0 == *old(self),
                e0.wf(),
                self.context == h0.context,
                names_kept(h0.created@, self.created@),
                set_in(s, &h0, env, &e0),
                short_all(ts@),
                room_to_read(&e0, read_all(s, ts@, n).notes.cost - n.cost),
                n.cost <= read_all(s, ts@.take(i as int), n).notes.cost,
                only_read(engine, &e0, read_all(s, ts@.take(i as int), n).notes.cost - n.cost),
                noted(self, engine, read_all(s, ts@.take(i as int), n).notes),
                read_all(s, ts@.take(i as int), n).res is Ok,
                list@.len() == i,
                forall|k: int| 0 <= k < i ==> engine.has(#[trigger] list@[k]),
                terms(engine.store(), list@) == read_all(s, ts@.take(i as int), n).res->Ok_0,
            decreases ts@.len() - i,
        {
            let ghost e1 = *engine;
            let ghost h1 = *self;
            let ghost sofar = read_all(s, ts@.take(i as int), n);
            let ghost one = read(s, ts@[i as int], sofar.notes);
            let ghost kinds = list@;
            proof {
                assert(ts@.take(i + 1).drop_last() =~= ts@.take(i as int));
                assert(ts@.take(i + 1).last() == ts@[i as int]);
                lemma_read_more(s, ts@, n, i + 1);
                lemma_read_cost(s, ts@[i as int], sofar.notes);
                lemma_set_in(s, &h0, self, env, &e0, &e1, sofar.notes.cost - n.cost);
            }
            match self.hydrate(&ts[i], env, engine, Ghost(s), Ghost(sofar.notes)) {
                Ok(t) => {
                    list.push(t);
                    proof {
                        lemma_only_read_trans(
                            &e0,
                            &e1,
                            engine,
                            sofar.notes.cost - n.cost,
                            one.notes.cost - sofar.notes.cost,
                        );
                        lemma_terms_kept(&e1, engine, kinds);
                        assert forall|k: int| 0 <= k < list@.len() implies engine.has(
                            #[trigger] list@[k],
                        ) by {
                            if k < i {
                                assert(e1.has(kinds[k]));
                                assert(engine.store().live[kinds[k].0 as int]
                                    == e1.store().live[kinds[k].0 as int]);
                            }
                        }
                        assert(terms(engine.store(), list@) =~= terms(engine.store(), kinds).push(
                            engine.term(t),
                        ));
                    }
                },
                Err(d) => {
                    proof {
                        lemma_only_read_trans(
                            &e0,
                            &e1,
                            engine,
                            sofar.notes.cost - n.cost,
                            one.notes.cost - sofar.notes.cost,
                        );
                    }
                    return Err(d);
                },
            }
            i += 1;
        }
        proof {
            assert(ts@.take(i as int) =~= ts@);
        }
        Ok(())
    }

    fn named_type(
        &mut self,
        nt: &NamedType,
        span: Span,
        env: &TypeEnv,
        engine: &mut InferEngine,
        Ghost(s): Ghost<Setting>,
        Ghost(n): Ghost<Notes>,
    ) -> (r: Result<Ty, Diagnostic>)
        requires
            old(engine).wf(),
            set_in(s, old(self), env, old(engine)),
            noted(old(self), old(engine), n),
            short_all(nt.type_args@),
            room_to_read(old(engine), read_named(s, *nt, span, n).notes.cost - n.cost),
        ensures
            final(self).context == old(self).context,
            names_kept(old(self).created@, final(self).created@),
            hydrated(
                final(self),
                final(engine),
                old(engine),
                r,
                read_named(s, *nt, span, n),
                n.cost,
            ),
            r matches Ok(t) ==> gives_its_own(old(self), final(self), *nt, t),
        decreases nt,
    {
        let ghost e0 = *engine;
        let ghost h0 = *self;
        let name = nt.identifier.name.as_str();
        let name_span = nt.identifier.span;
        proof {
            assert(grows(e0.store(), e0.store()));
            lemma_has(self.created@, name@);
            lemma_has(n.created, name@);
            lemma_read_all_cost(s, nt.type_args@, n);
        }
        // A qualified name can only be a nominal type in the named module: the
        // type-variable paths below are for bare lowercase names.
        if nt.qualifier.is_none() {
            if let Some(p) = self.created.get(name) {
                let v = p.0;
                if nt.type_args.len() > 0 {
                    return Err(err(span, no_arguments(name)));
                }
                proof {
                    let i = position(self.created@.keys, name@).unwrap() as int;
                    assert(stands_for(engine, self.created@.vals[i]));
                    assert(n.created.vals[i] == self.created@.vals[i].1);
                }
                return Ok(v);
            }
        }
        let ghost args = read_all(s, nt.type_args@, n);
        let mut list = TyList::new();
        if let Err(d) = self.hydrate_all(
            &nt.type_args,
            &mut list,
            env,
            engine,
            Ghost(s),
            Ghost(n),
        ) {
            return Err(d);
        }
        let ghost e1 = *engine;
        let ghost h1 = *self;
        let ghost c1 = args.notes.cost - n.cost;
        proof {
            lemma_set_in(s, &h0, self, env, &e0, &e1, c1);
        }
        let given: usize = nt.type_args.len();
        // Lowercase identifiers are type variables.
        if nt.qualifier.is_none() && !is_type_name(name) {
            if given > 0 {
                return Err(err(span, no_arguments(name)));
            }
            if !self.context.permits_new_type_variables() {
                let mut m = "Unknown type variable '".to_owned();
                m.append(name);
                m.append("'");
                return Err(err(name_span, m));
            }
            proof {
                assert(nt.type_args@ =~= Seq::empty());
                assert(args.notes == n);
                assert(ids_of(self.created@) == ids_of(h0.created@));
                lemma_has(self.created@, name@);
            }
            let (t, id) = self.declare(name, engine, Ghost(args.notes));
            self.rigid_ids.insert(id);
            proof {
                lemma_only_read_trans(&e0, &e1, engine, c1, 1);
                lemma_put(h1.created@, name@, (t, id));
            }
            return Ok(t);
        }
        // Imported modules register their public types under the mangled
        // `qualifier.Name` key, so a qualified reference resolves through the
        // same table as a bare one. Type names cannot contain '.', so mangled
        // keys never collide with local types.
        let display = match &nt.qualifier {
            Some(q) => {
                let mut full = q.name.clone();
                full.append(".");
                full.append(name);
                full
            },
            None => name.to_owned(),
        };
        match env.lookup_type_info(display.as_str()) {
            Some(ti) => {
                let arity = ti.arity();
                if given != arity {
                    return Err(arity_error(span, display.as_str(), arity, given));
                }
                let ghost m = args.notes.mention(*nt, ti);
                proof {
                    let i = position(s.types.keys, display@).unwrap() as int;
                    lemma_has(s.types, display@);
                    assert(record_ok(s, e1.strings@.len() as int, s.types.vals[i]));
                }
                let qualifier = match &nt.qualifier {
                    Some(q) => {
                        proof {
                            lemma_with(engine.strings@, q.name@);
                        }
                        Some((engine.intern(q.name.as_str()), q.span))
                    },
                    None => None,
                };
                let ghost e2 = *engine;
                proof {
                    lemma_naming_strings(&e1, &e2);
                    assert(grows(e1.store(), e1.store()));
                    assert(only_read(&e2, &e1, 1));
                    lemma_only_read_trans(&e0, &e1, &e2, c1, 1);
                    lemma_kept(self, &e1, &e2, 1);
                    lemma_fresh_kept(args.notes, &e1, &e2);
                    lemma_set_in(s, self, self, env, &e1, &e2, 1);
                }
                let hit = TypeRefHit { span: name_span, name: ti.name, module: ti.module, qualifier };
                self.type_refs.push(hit);
                proof {
                    assert(mentions_of(e2.strings@, self.type_refs@) =~= m.mentions);
                    assert(noted(self, &e2, m)) by {
                        assert forall|i: int| 0 <= i < self.type_refs@.len() implies hit_fits(
                            e2.strings@,
                            #[trigger] self.type_refs@[i],
                        ) by {
                            if i < h1.type_refs@.len() {
                                assert(hit_fits(e2.strings@, h1.type_refs@[i]));
                            }
                        }
                    }
                    lemma_terms_kept(&e1, &e2, list@);
                }
                match ti.body {
                    TypeBody::Alias { target } => {
                        let r = engine.substitute_type_vars(
                            target,
                            ti.type_params,
                            list.as_slice(),
                        );
                        proof {
                            let c = weight((s.targets)(target)) as int;
                            lemma_naming_strings(&e2, engine);
                            assert(only_read(engine, &e2, c));
                            lemma_only_read_trans(&e0, &e2, engine, c1 + 1, c);
                            lemma_kept(self, &e2, engine, c);
                            lemma_fresh_kept(m, &e2, engine);
                        }
                        Ok(r)
                    },
                    _ => {
                        let r = engine.mk_con_id(ti.id, ti.name, list.as_slice());
                        proof {
                            let c = (1 + list@.len()) as int;
                            lemma_naming_strings(&e2, engine);
                            assert(only_read(engine, &e2, c));
                            lemma_only_read_trans(&e0, &e2, engine, c1 + 1, c);
                            lemma_kept(self, &e2, engine, c);
                            lemma_fresh_kept(m, &e2, engine);
                        }
                        Ok(r)
                    },
                }
            },
            None => {
                let m = match &nt.qualifier {
                    Some(q) => {
                        let mut m = "Unknown type '".to_owned();
                        m.append(display.as_str());
                        m.append("'. Import '");
                        m.append(q.name.as_str());
                        m.append("' and verify it exports a type '");
                        m.append(name);
                        m.append("'.");
                        m
                    },
                    None => unknown_bare_type(env, name),
                };
                Err(err(name_span, m))
            },
        }
    }
}

fn no_arguments(name: &str) -> (r: String)
    ensures
        r@ == "Type variable '"@ + name@ + "' cannot take arguments"@,
{
    let mut m = "Type variable '".to_owned();
    m.append(name);
    m.append("' cannot take arguments");
    m
}

proof fn lemma_has<V>(m: Entries<Seq<char>, V>, k: Seq<char>)
    ensures
        m.has(k) <==> position(m.keys, k) is Some,
        m.has(k) ==> position(m.keys, k).unwrap() < m.keys.len(),
{
    if m.has(k) {
        let i = m.keys.index_of(k);
        assert(m.keys[i] == k);
    }
}

proof fn lemma_terms_kept(a: &InferEngine, b: &InferEngine, ks: Seq<Ty>)
    requires
        grows(a.store(), b.store()),
        forall|i: int| 0 <= i < ks.len() ==> a.has(#[trigger] ks[i]),
    ensures
        terms(b.store(), ks) == terms(a.store(), ks),
        forall|i: int| 0 <= i < ks.len() ==> b.has(#[trigger] ks[i]),
{
    assert forall|i: int| 0 <= i < ks.len() implies b.has(#[trigger] ks[i]) && term(
        b.store(),
        ks[i],
    ) == term(a.store(), ks[i]) by {
        assert(a.has(ks[i]));
        assert(b.store().live[ks[i].0 as int] == a.store().live[ks[i].0 as int]);
        assert(term(b.store(), ks[i]) == term(a.store(), ks[i]));
    }
    assert(terms(b.store(), ks) =~= terms(a.store(), ks));
}

/// Giving a variable a name is that in the naming too.
proof fn lemma_called(a: &InferEngine, b: &InferEngine, v: i32, name: StrId)
    requires
        a.wf(),
        b.strings == a.strings,
        b.next_name_uid == a.next_name_uid,
        b.var_names@ == a.var_names@.insert(v, name),
        b.used_names@ == a.used_names@.insert(name.0),
        name.0 < a.strings@.len(),
    ensures
        b.naming() == a.naming().called(v, a.strings@[name.0 as int]),
{
    let text = a.strings@[name.0 as int];
    assert(b.naming().names =~= a.naming().names.insert(v, text));
    assert forall|x: Seq<char>| #[trigger] claimed(b.strings@, b.used_names@, x) <==> claimed(
        a.strings@,
        a.used_names@,
        x,
    ) || x == text by {
        assert(b.used_names@.contains(name.0));
        if claimed(a.strings@, a.used_names@, x) {
            let k = choose|k: u32| #[trigger]
                a.used_names@.contains(k) && a.strings@[k as int] == x;
            assert(b.used_names@.contains(k));
        }
        if claimed(b.strings@, b.used_names@, x) && x != text {
            let k = choose|k: u32| #[trigger]
                b.used_names@.contains(k) && b.strings@[k as int] == x;
            assert(a.used_names@.contains(k));
        }
    }
    assert(b.naming().used =~= a.naming().used.insert(text));
}

/// What was kept twice was kept.
pub proof fn law_names_kept_throughout(
    a: Entries<Seq<char>, (Ty, i32)>,
    b: Entries<Seq<char>, (Ty, i32)>,
    c: Entries<Seq<char>, (Ty, i32)>,
)
    requires
        names_kept(a, b),
        names_kept(b, c),
    ensures
        names_kept(a, c),
{
}

/// One name is one type: over a run of annotations, two that are type variables
/// give the same type and the same variable if their names are the same, and
/// another type and another variable if they are not. `a` is the hydrator after
/// the first of them and `b` after the second.
pub proof fn law_one_type_per_name(
    a: &Hydrator,
    b: &Hydrator,
    e: &InferEngine,
    x: Seq<char>,
    y: Seq<char>,
)
    requires
        a.created@.wf(),
        b.wf(e),
        names_kept(a.created@, b.created@),
        a.created@.has(x),
        b.created@.has(y),
    ensures
        a.created@.get(x) is Some,
        b.created@.get(y) is Some,
        x == y <==> a.created@.get(x).unwrap().0 == b.created@.get(y).unwrap().0,
        x == y <==> a.created@.get(x).unwrap().1 == b.created@.get(y).unwrap().1,
{
    let i = a.created@.keys.index_of(x);
    let j = b.created@.keys.index_of(y);
    crate::entries::lemma_get(a.created@, x, i);
    crate::entries::lemma_get(b.created@, y, j);
    assert(b.created@.keys[i] == x);
    assert(b.created@.vals[i] == a.created@.vals[i]);
    assert(stands_for(e, b.created@.vals[i]));
    assert(stands_for(e, b.created@.vals[j]));
    if x == y {
        assert(i == j);
    } else if i < j {
        assert(b.created@.vals[i].1 != b.created@.vals[j].1);
    } else {
        assert(b.created@.vals[j].1 != b.created@.vals[i].1);
    }
}

} // verus!
