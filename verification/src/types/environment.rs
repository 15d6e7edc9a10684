//! Names in scope: values, types, definitions and docs.

use crate::entries::{covers, Entries, lemma_journaled_put, lemma_new_put, lemma_put, put_back};
use crate::syntax::Span;
use crate::type_def::TypeId;
use crate::types::node::{ArenaSlice, Scheme, StrId, Ty};
use crate::types::pool::{StrSlices, TypeParams, VariantFields, Variants};
use vstd::prelude::*;

verus! {

/// What a definition *is*.
#[derive(Debug, Clone, Copy, PartialEq, Eq, Structural, Hash)]
pub enum EntityKind {
    /// A `let`/parameter/match binder — a local value.
    Value,
    /// A top-level `fn`.
    Function,
    /// A top-level `const`.
    Constant,
    /// A data constructor of a `type`.
    Constructor,
    /// A nominal `type` (custom, alias, or external).
    Type,
    /// The local binding introduced by `import a/b` or `import a/b as c`.
    ModuleAlias,
    /// A labelled field of a constructor variant.
    Field,
}

/// The definition site of a name.
#[derive(Clone, Copy)]
pub struct DefinitionLocation {
    pub line: i32,
    pub column: i32,
    pub end_col: i32,
    /// The owning module's path segments.
    pub module: ArenaSlice<StrSlices>,
    pub entity: EntityKind,
}

/// A type parameter on a nominal type. `name` is for diagnostics only; `id` is
/// the engine variable that stands for it in an open body.
#[derive(Clone, Copy)]
pub struct TypeParam {
    pub name: StrId,
    pub id: i32,
}

/// A field of a constructor variant in template form: the owning type's
/// parameters appear in `ty` as their variables, or as `Bound` once the body
/// is closed.
#[derive(Clone, Copy)]
pub struct VariantField {
    pub label: StrId,
    pub ty: Ty,
}

/// One constructor of a custom type.
#[derive(Clone, Copy)]
pub struct Variant {
    pub name: StrId,
    pub fields: ArenaSlice<VariantFields>,
}

/// The body of a registered type. Separate from the head so every head can be
/// registered before any body is hydrated, which is what makes mutually
/// recursive type declarations work.
#[derive(Clone, Copy)]
pub enum TypeBody {
    /// Head registered, body not yet hydrated.
    Unresolved,
    /// `type Name(params) { Ctor(label Type, ...) ... }`
    Custom {
        variants: ArenaSlice<Variants>,
        /// Whether a module other than the declaring one may name these
        /// constructors: `pub` and not `opaque`.
        ctors_public: bool,
        /// `@exhaustive` was declared on this type: a match on it may not use
        /// a wildcard arm to stand in for variants it does not name.
        must_name_variants: bool,
    },
    /// `type Name(params) = Target`
    Alias { target: Ty },
    /// `pub type Name` with no body.
    External,
}

/// Record of a user-defined nominal type. `name` is the name as declared,
/// which may differ from the local binding under `import {X as Y}`.
#[derive(Clone, Copy)]
pub struct TypeInfo {
    pub id: TypeId,
    pub name: StrId,
    pub module: ArenaSlice<StrSlices>,
    pub type_params: ArenaSlice<TypeParams>,
    pub body: TypeBody,
}

impl EntityKind {
    pub open spec fn spec_noun(self) -> Seq<char> {
        match self {
            EntityKind::Value => "value"@,
            EntityKind::Function => "function"@,
            EntityKind::Constant => "constant"@,
            EntityKind::Constructor => "constructor"@,
            EntityKind::Type => "type"@,
            EntityKind::ModuleAlias => "module"@,
            EntityKind::Field => "field"@,
        }
    }

    /// Human-readable noun.
    pub fn noun(self) -> (r: &'static str)
        ensures
            r@ == self.spec_noun(),
    {
        match self {
            EntityKind::Value => "value",
            EntityKind::Function => "function",
            EntityKind::Constant => "constant",
            EntityKind::Constructor => "constructor",
            EntityKind::Type => "type",
            EntityKind::ModuleAlias => "module",
            EntityKind::Field => "field",
        }
    }

    /// Whether going to a definition of this kind navigates. A `ModuleAlias`
    /// spans the whole `import`, so jumping to it is a no-op.
    pub fn is_navigable(self) -> (r: bool)
        ensures
            r == !(self is ModuleAlias),
    {
        match self {
            EntityKind::ModuleAlias => false,
            _ => true,
        }
    }
}

impl DefinitionLocation {
    pub fn new(sp: Span, module: ArenaSlice<StrSlices>, entity: EntityKind) -> (r: Self)
        ensures
            r == (DefinitionLocation {
                line: sp.start_line,
                column: sp.start_column,
                end_col: sp.end_column,
                module,
                entity,
            }),
    {
        DefinitionLocation {
            line: sp.start_line,
            column: sp.start_column,
            end_col: sp.end_column,
            module,
            entity,
        }
    }

    pub open spec fn spec_span(self) -> Span {
        Span {
            start_line: self.line,
            start_column: self.column,
            end_line: self.line,
            end_column: self.end_col,
        }
    }

    /// The span of the declaring name, which is always on one line.
    pub fn span(&self) -> (r: Span)
        ensures
            r == self.spec_span(),
    {
        Span {
            start_line: self.line,
            start_column: self.column,
            end_line: self.line,
            end_column: self.end_col,
        }
    }
}

/// A location gives back the span it was made from, when that is on one line.
pub proof fn law_location_keeps_its_span(
    sp: Span,
    module: ArenaSlice<StrSlices>,
    entity: EntityKind,
    loc: DefinitionLocation,
)
    requires
        loc == (DefinitionLocation {
            line: sp.start_line,
            column: sp.start_column,
            end_col: sp.end_column,
            module,
            entity,
        }),
        sp.start_line == sp.end_line,
    ensures
        loc.spec_span() == sp,
{
}

impl TypeInfo {
    /// Number of type parameters.
    pub fn arity(&self) -> (r: usize)
        ensures
            r == self.type_params.len,
    {
        self.type_params.len as usize
    }

    /// The variants when the body is `Custom`.
    pub fn variants(&self) -> (r: Option<ArenaSlice<Variants>>)
        ensures
            match self.body {
                TypeBody::Custom { variants, ctors_public, must_name_variants } => r == Some(
                    variants,
                ),
                _ => r is None,
            },
    {
        match self.body {
            TypeBody::Custom { variants, ctors_public, must_name_variants } => Some(variants),
            _ => None,
        }
    }

    /// Whether importers may name this type's constructors, or `None` when it
    /// has none to name (alias, external, or not yet hydrated).
    pub fn ctors_public(&self) -> (r: Option<bool>)
        ensures
            match self.body {
                TypeBody::Custom { variants, ctors_public, must_name_variants } => r == Some(
                    ctors_public,
                ),
                _ => r is None,
            },
    {
        match self.body {
            TypeBody::Custom { variants, ctors_public, must_name_variants } => Some(ctors_public),
            _ => None,
        }
    }

    /// Whether `@exhaustive` was declared on this type; `false` for anything
    /// without variants to name.
    pub fn must_name_variants(&self) -> (r: bool)
        ensures
            match self.body {
                TypeBody::Custom { variants, ctors_public, must_name_variants } => r
                    == must_name_variants,
                _ => !r,
            },
    {
        match self.body {
            TypeBody::Custom { variants, ctors_public, must_name_variants } => must_name_variants,
            _ => false,
        }
    }
}

/// One in-place replacement of an entry that already existed. The maps roll
/// back by truncating to a length, which cannot undo a replacement.
pub enum Overwrite {
    /// A root-scope `define` that replaced an existing entry.
    Binding(String, Scheme),
    TypeInfo(String, TypeInfo),
    TypeInfoById(TypeId, TypeInfo),
    Definition(String, DefinitionLocation),
    Doc(String, String),
}

/// One by-name mutation made while a module frame was open. `None` records the
/// insertion of a new key, `Some` an in-place overwrite.
///
/// A module's names are visible only while that module compiles. The by-id
/// registry is not covered: ids are the identity that hydrated annotations
/// carry across modules.
pub enum FrameUndo {
    Binding(String, Option<Scheme>),
    TypeInfo(String, Option<TypeInfo>),
    Definition(String, Option<DefinitionLocation>),
    Doc(String, Option<String>),
}

pub open spec fn binding_undos(log: Seq<FrameUndo>) -> Seq<(Seq<char>, Option<Scheme>)>
    decreases log.len(),
{
    if log.len() == 0 {
        Seq::empty()
    } else {
        match log.last() {
            FrameUndo::Binding(n, p) => binding_undos(log.drop_last()).push((n@, p)),
            _ => binding_undos(log.drop_last()),
        }
    }
}

pub open spec fn type_undos(log: Seq<FrameUndo>) -> Seq<(Seq<char>, Option<TypeInfo>)>
    decreases log.len(),
{
    if log.len() == 0 {
        Seq::empty()
    } else {
        match log.last() {
            FrameUndo::TypeInfo(n, p) => type_undos(log.drop_last()).push((n@, p)),
            _ => type_undos(log.drop_last()),
        }
    }
}

pub open spec fn definition_undos(log: Seq<FrameUndo>) -> Seq<
    (Seq<char>, Option<DefinitionLocation>),
>
    decreases log.len(),
{
    if log.len() == 0 {
        Seq::empty()
    } else {
        match log.last() {
            FrameUndo::Definition(n, p) => definition_undos(log.drop_last()).push((n@, p)),
            _ => definition_undos(log.drop_last()),
        }
    }
}

pub open spec fn doc_undos(log: Seq<FrameUndo>) -> Seq<(Seq<char>, Option<String>)>
    decreases log.len(),
{
    if log.len() == 0 {
        Seq::empty()
    } else {
        match log.last() {
            FrameUndo::Doc(n, p) => doc_undos(log.drop_last()).push((n@, p)),
            _ => doc_undos(log.drop_last()),
        }
    }
}

pub proof fn lemma_undos_push(log: Seq<FrameUndo>, u: FrameUndo)
    ensures
        binding_undos(log.push(u)) == (match u {
            FrameUndo::Binding(n, p) => binding_undos(log).push((n@, p)),
            _ => binding_undos(log),
        }),
        type_undos(log.push(u)) == (match u {
            FrameUndo::TypeInfo(n, p) => type_undos(log).push((n@, p)),
            _ => type_undos(log),
        }),
        definition_undos(log.push(u)) == (match u {
            FrameUndo::Definition(n, p) => definition_undos(log).push((n@, p)),
            _ => definition_undos(log),
        }),
        doc_undos(log.push(u)) == (match u {
            FrameUndo::Doc(n, p) => doc_undos(log).push((n@, p)),
            _ => doc_undos(log),
        }),
{
    assert(log.push(u).drop_last() =~= log);
}

pub proof fn lemma_undos_split(log: Seq<FrameUndo>, n: int)
    requires
        0 <= n <= log.len(),
    ensures
        binding_undos(log) == binding_undos(log.take(n)) + binding_undos(log.skip(n)),
        type_undos(log) == type_undos(log.take(n)) + type_undos(log.skip(n)),
        definition_undos(log) == definition_undos(log.take(n)) + definition_undos(log.skip(n)),
        doc_undos(log) == doc_undos(log.take(n)) + doc_undos(log.skip(n)),
    decreases log.len(),
{
    if n == log.len() {
        assert(log.take(n) =~= log);
        assert(log.skip(n) =~= Seq::empty());
        assert(binding_undos(log) =~= binding_undos(log.take(n)) + binding_undos(log.skip(n)));
        assert(type_undos(log) =~= type_undos(log.take(n)) + type_undos(log.skip(n)));
        assert(definition_undos(log) =~= definition_undos(log.take(n)) + definition_undos(
            log.skip(n),
        ));
        assert(doc_undos(log) =~= doc_undos(log.take(n)) + doc_undos(log.skip(n)));
    } else {
        let init = log.drop_last();
        lemma_undos_split(init, n);
        assert(init.take(n) =~= log.take(n));
        assert(log.skip(n) =~= init.skip(n).push(log.last()));
        lemma_undos_push(init.skip(n), log.last());
        assert(binding_undos(log) =~= binding_undos(log.take(n)) + binding_undos(log.skip(n)));
        assert(type_undos(log) =~= type_undos(log.take(n)) + type_undos(log.skip(n)));
        assert(definition_undos(log) =~= definition_undos(log.take(n)) + definition_undos(
            log.skip(n),
        ));
        assert(doc_undos(log) =~= doc_undos(log.take(n)) + doc_undos(log.skip(n)));
    }
}

pub open spec fn binding_overwrites(log: Seq<Overwrite>) -> Seq<(Seq<char>, Scheme)>
    decreases log.len(),
{
    if log.len() == 0 {
        Seq::empty()
    } else {
        match log.last() {
            Overwrite::Binding(n, p) => binding_overwrites(log.drop_last()).push((n@, p)),
            _ => binding_overwrites(log.drop_last()),
        }
    }
}

pub open spec fn type_overwrites(log: Seq<Overwrite>) -> Seq<(Seq<char>, TypeInfo)>
    decreases log.len(),
{
    if log.len() == 0 {
        Seq::empty()
    } else {
        match log.last() {
            Overwrite::TypeInfo(n, p) => type_overwrites(log.drop_last()).push((n@, p)),
            _ => type_overwrites(log.drop_last()),
        }
    }
}

pub open spec fn id_overwrites(log: Seq<Overwrite>) -> Seq<(i32, TypeInfo)>
    decreases log.len(),
{
    if log.len() == 0 {
        Seq::empty()
    } else {
        match log.last() {
            Overwrite::TypeInfoById(n, p) => id_overwrites(log.drop_last()).push((n.0, p)),
            _ => id_overwrites(log.drop_last()),
        }
    }
}

pub open spec fn definition_overwrites(log: Seq<Overwrite>) -> Seq<
    (Seq<char>, DefinitionLocation),
>
    decreases log.len(),
{
    if log.len() == 0 {
        Seq::empty()
    } else {
        match log.last() {
            Overwrite::Definition(n, p) => definition_overwrites(log.drop_last()).push((n@, p)),
            _ => definition_overwrites(log.drop_last()),
        }
    }
}

pub open spec fn doc_overwrites(log: Seq<Overwrite>) -> Seq<(Seq<char>, String)>
    decreases log.len(),
{
    if log.len() == 0 {
        Seq::empty()
    } else {
        match log.last() {
            Overwrite::Doc(n, p) => doc_overwrites(log.drop_last()).push((n@, p)),
            _ => doc_overwrites(log.drop_last()),
        }
    }
}

pub proof fn lemma_overwrites_push(log: Seq<Overwrite>, o: Overwrite)
    ensures
        binding_overwrites(log.push(o)) == (match o {
            Overwrite::Binding(n, p) => binding_overwrites(log).push((n@, p)),
            _ => binding_overwrites(log),
        }),
        type_overwrites(log.push(o)) == (match o {
            Overwrite::TypeInfo(n, p) => type_overwrites(log).push((n@, p)),
            _ => type_overwrites(log),
        }),
        id_overwrites(log.push(o)) == (match o {
            Overwrite::TypeInfoById(n, p) => id_overwrites(log).push((n.0, p)),
            _ => id_overwrites(log),
        }),
        definition_overwrites(log.push(o)) == (match o {
            Overwrite::Definition(n, p) => definition_overwrites(log).push((n@, p)),
            _ => definition_overwrites(log),
        }),
        doc_overwrites(log.push(o)) == (match o {
            Overwrite::Doc(n, p) => doc_overwrites(log).push((n@, p)),
            _ => doc_overwrites(log),
        }),
{
    assert(log.push(o).drop_last() =~= log);
}

/// Rollback payload for [`TypeEnv::truncate_to`].
#[derive(Debug, Clone, Copy, PartialEq, Eq, Structural)]
pub struct EnvWatermark {
    pub root_scope: usize,
    pub type_info: usize,
    pub type_info_by_id: usize,
    pub definitions: usize,
    pub docs: usize,
    pub journal: usize,
    pub next_type_id: TypeId,
}

impl Default for EnvWatermark {
    /// The watermark of a new environment, whose ids start at 1.
    fn default() -> (r: EnvWatermark)
        ensures
            r == (EnvWatermark {
                root_scope: 0,
                type_info: 0,
                type_info_by_id: 0,
                definitions: 0,
                docs: 0,
                journal: 0,
                next_type_id: TypeId(1),
            }),
    {
        EnvWatermark {
            root_scope: 0,
            type_info: 0,
            type_info_by_id: 0,
            definitions: 0,
            docs: 0,
            journal: 0,
            next_type_id: TypeId(1),
        }
    }
}

/// What the maps of an environment hold.
#[verifier::ext_equal]
pub struct Maps {
    pub bindings: Entries<Seq<char>, Scheme>,
    pub types: Entries<Seq<char>, TypeInfo>,
    pub ids: Entries<i32, TypeInfo>,
    pub definitions: Entries<Seq<char>, DefinitionLocation>,
    pub docs: Entries<Seq<char>, String>,
}

/// What is left when every scope and frame is closed, and the journal.
pub struct Rooted {
    pub maps: Maps,
    pub journal: Seq<Overwrite>,
}

impl Rooted {
    pub open spec fn wf(self) -> bool {
        &&& self.maps.bindings.wf()
        &&& self.maps.types.wf()
        &&& self.maps.ids.wf()
        &&& self.maps.definitions.wf()
        &&& self.maps.docs.wf()
        &&& covers(self.maps.bindings, binding_overwrites(self.journal))
        &&& covers(self.maps.types, type_overwrites(self.journal))
        &&& covers(self.maps.ids, id_overwrites(self.journal))
        &&& covers(self.maps.definitions, definition_overwrites(self.journal))
        &&& covers(self.maps.docs, doc_overwrites(self.journal))
    }

    /// The watermark lies in the past of this state.
    pub open spec fn reaches(self, w: EnvWatermark) -> bool {
        let j = self.journal.take(w.journal as int);
        &&& w.journal <= self.journal.len()
        &&& w.root_scope <= self.maps.bindings.len()
        &&& w.type_info <= self.maps.types.len()
        &&& w.type_info_by_id <= self.maps.ids.len()
        &&& w.definitions <= self.maps.definitions.len()
        &&& w.docs <= self.maps.docs.len()
        &&& covers(self.maps.bindings.cut(w.root_scope as int), binding_overwrites(j))
        &&& covers(self.maps.types.cut(w.type_info as int), type_overwrites(j))
        &&& covers(self.maps.ids.cut(w.type_info_by_id as int), id_overwrites(j))
        &&& covers(self.maps.definitions.cut(w.definitions as int), definition_overwrites(j))
        &&& covers(self.maps.docs.cut(w.docs as int), doc_overwrites(j))
    }

    /// The maps rolled back to the watermark.
    pub open spec fn back_to(self, w: EnvWatermark) -> Maps {
        let j = self.journal.skip(w.journal as int);
        Maps {
            bindings: put_back(self.maps.bindings, binding_overwrites(j)).cut(w.root_scope as int),
            types: put_back(self.maps.types, type_overwrites(j)).cut(w.type_info as int),
            ids: put_back(self.maps.ids, id_overwrites(j)).cut(w.type_info_by_id as int),
            definitions: put_back(self.maps.definitions, definition_overwrites(j)).cut(
                w.definitions as int,
            ),
            docs: put_back(self.maps.docs, doc_overwrites(j)).cut(w.docs as int),
        }
    }

    /// Rolling back from `self` gives what rolling back from `past` gave.
    pub open spec fn remembers(self, past: Rooted) -> bool {
        forall|w: EnvWatermark| #[trigger]
            past.reaches(w) ==> self.reaches(w) && self.back_to(w) == past.back_to(w)
    }
}

/// One map changed at a key, its old value logged where there was one: rolling
/// back to before gives what it gave.
pub proof fn lemma_part<K, V>(
    m0: Entries<K, V>,
    m1: Entries<K, V>,
    past: Seq<(K, V)>,
    j0: Seq<(K, V)>,
    j1: Seq<(K, V)>,
    k: K,
    v: V,
    n: int,
)
    requires
        m0.wf(),
        m1 == m0.put(k, v),
        covers(m0, j0),
        j1 == (if m0.has(k) {
            j0.push((k, m0.get(k)->0))
        } else {
            j0
        }),
        0 <= n <= m0.len(),
        covers(m0.cut(n), past),
    ensures
        put_back(m1, j1).cut(n) == put_back(m0, j0).cut(n),
        covers(m1.cut(n), past),
        n <= m1.len(),
{
    lemma_put(m0, k, v);
    if m0.has(k) {
        lemma_journaled_put(m0, j0, k, v);
    } else {
        lemma_new_put(m0, j0, k, v, n);
    }
    assert(m1.cut(n).keys =~= m0.cut(n).keys);
    assert forall|i: int| 0 <= i < past.len() implies m1.cut(n).has((#[trigger] past[i]).0) by {
        assert(m0.cut(n).has(past[i].0));
    }
}

pub proof fn lemma_covers_put<K, V>(
    m0: Entries<K, V>,
    j0: Seq<(K, V)>,
    k: K,
    v: V,
    logged: bool,
    old: V,
)
    requires
        m0.wf(),
        covers(m0, j0),
        logged ==> m0.has(k),
    ensures
        m0.put(k, v).wf(),
        covers(
            m0.put(k, v),
            if logged {
                j0.push((k, old))
            } else {
                j0
            },
        ),
{
    lemma_put(m0, k, v);
    let j1 = if logged {
        j0.push((k, old))
    } else {
        j0
    };
    assert forall|i: int| 0 <= i < j1.len() implies m0.put(k, v).has((#[trigger] j1[i]).0) by {
        if i < j0.len() {
            assert(m0.has(j0[i].0));
        }
    }
}

/// The part of the journal since a watermark, and the part before, as the
/// journal grows.
pub proof fn lemma_journal_push(j: Seq<Overwrite>, o: Overwrite, n: int)
    requires
        0 <= n <= j.len(),
    ensures
        j.push(o).skip(n) == j.skip(n).push(o),
        j.push(o).take(n) == j.take(n),
{
    assert(j.push(o).skip(n) =~= j.skip(n).push(o));
    assert(j.push(o).take(n) =~= j.take(n));
}

/// What the journal has to say of a suffix it says of the whole.
pub proof fn lemma_overwrites_suffix(j: Seq<Overwrite>, m: Maps, n: int)
    requires
        0 <= n <= j.len(),
        (Rooted { maps: m, journal: j }).wf(),
    ensures
        covers(m.bindings, binding_overwrites(j.skip(n))),
        covers(m.types, type_overwrites(j.skip(n))),
        covers(m.ids, id_overwrites(j.skip(n))),
        covers(m.definitions, definition_overwrites(j.skip(n))),
        covers(m.docs, doc_overwrites(j.skip(n))),
    decreases j.len(),
{
    if n == j.len() {
        assert(j.skip(n) =~= Seq::empty());
    } else {
        let init = j.drop_last();
        assert(init.push(j.last()) =~= j);
        lemma_overwrites_push(init, j.last());
        assert((Rooted { maps: m, journal: init }).wf()) by {
            lemma_covers_init(m.bindings, binding_overwrites(init), binding_overwrites(j));
            lemma_covers_init(m.types, type_overwrites(init), type_overwrites(j));
            lemma_covers_init(m.ids, id_overwrites(init), id_overwrites(j));
            lemma_covers_init(m.definitions, definition_overwrites(init), definition_overwrites(j));
            lemma_covers_init(m.docs, doc_overwrites(init), doc_overwrites(j));
        }
        lemma_overwrites_suffix(init, m, n);
        assert(j.skip(n) =~= init.skip(n).push(j.last()));
        lemma_overwrites_push(init.skip(n), j.last());
        lemma_covers_step(
            m.bindings,
            binding_overwrites(init.skip(n)),
            binding_overwrites(j.skip(n)),
            binding_overwrites(j),
        );
        lemma_covers_step(
            m.types,
            type_overwrites(init.skip(n)),
            type_overwrites(j.skip(n)),
            type_overwrites(j),
        );
        lemma_covers_step(
            m.ids,
            id_overwrites(init.skip(n)),
            id_overwrites(j.skip(n)),
            id_overwrites(j),
        );
        lemma_covers_step(
            m.definitions,
            definition_overwrites(init.skip(n)),
            definition_overwrites(j.skip(n)),
            definition_overwrites(j),
        );
        lemma_covers_step(
            m.docs,
            doc_overwrites(init.skip(n)),
            doc_overwrites(j.skip(n)),
            doc_overwrites(j),
        );
    }
}

proof fn lemma_covers_init<K, V>(m: Entries<K, V>, init: Seq<(K, V)>, all: Seq<(K, V)>)
    requires
        covers(m, all),
        init.is_prefix_of(all),
    ensures
        covers(m, init),
{
    assert forall|i: int| 0 <= i < init.len() implies m.has((#[trigger] init[i]).0) by {
        assert(all[i] == init[i]);
        assert(m.has(all[i].0));
    }
}

proof fn lemma_covers_step<K, V>(
    m: Entries<K, V>,
    init: Seq<(K, V)>,
    next: Seq<(K, V)>,
    all: Seq<(K, V)>,
)
    requires
        covers(m, init),
        covers(m, all),
        next == init || (all.len() > 0 && next == init.push(all.last())),
    ensures
        covers(m, next),
{
    assert forall|i: int| 0 <= i < next.len() implies m.has((#[trigger] next[i]).0) by {
        if i < init.len() {
            assert(next[i] == init[i]);
            assert(m.has(init[i].0));
        } else {
            assert(m.has(all[all.len() - 1].0));
        }
    }
}

} // verus!
