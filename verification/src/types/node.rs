//! The flat pieces of the type arena, and what schemes are made of.

use crate::type_def::{PrimitiveKind, TypeId};
use crate::types::environment::DefinitionLocation;
use crate::types::pool::{Children, Quants, StrSlices};
use std::marker::PhantomData;
use vstd::prelude::*;

verus! {

/// The primitives under the short name the inference paths use.
pub type Prim = PrimitiveKind;

/// An Elm-style constrained type variable.
#[derive(Debug, Clone, Copy, PartialEq, Eq, Structural)]
pub enum Constraint {
    Addable,
    Numeric,
}

impl Constraint {
    /// Whether a primitive meets the constraint.
    pub open spec fn allows(self, p: Prim) -> bool {
        match self {
            Constraint::Addable => true,
            Constraint::Numeric => p == Prim::Int || p == Prim::Float,
        }
    }

    /// The primitives that meet the constraint.
    pub fn allowed_types(&self) -> (r: Vec<Prim>)
        ensures
            forall|p: Prim| r@.contains(p) <==> self.allows(p),
            r@.no_duplicates(),
            r@ == if *self is Numeric {
                seq![Prim::Int, Prim::Float]
            } else {
                seq![Prim::Int, Prim::Float, Prim::String]
            },
    {
        match self {
            Constraint::Addable => {
                let r = vec![Prim::Int, Prim::Float, Prim::String];
                proof {
                    assert(r@[0] == Prim::Int && r@[1] == Prim::Float && r@[2] == Prim::String);
                    assert forall|p: Prim| r@.contains(p) <==> self.allows(p) by {
                        match p {
                            Prim::Int => assert(r@[0] == p),
                            Prim::Float => assert(r@[1] == p),
                            Prim::String => assert(r@[2] == p),
                        }
                    }
                }
                r
            },
            Constraint::Numeric => {
                let r = vec![Prim::Int, Prim::Float];
                proof {
                    assert forall|p: Prim| r@.contains(p) <==> self.allows(p) by {
                        match p {
                            Prim::Int => assert(r@[0] == p),
                            Prim::Float => assert(r@[1] == p),
                            Prim::String => {},
                        }
                    }
                }
                r
            },
        }
    }

    /// Whether `p` is among the allowed primitives.
    pub fn admits(self, p: Prim) -> (r: bool)
        ensures
            r == self.allows(p),
    {
        has_prim(&self.allowed_types(), p)
    }

    pub open spec fn spec_name(self) -> Seq<char> {
        match self {
            Constraint::Addable => "addable"@,
            Constraint::Numeric => "numeric"@,
        }
    }

    pub fn name(&self) -> (r: &'static str)
        ensures
            r@ == self.spec_name(),
    {
        match self {
            Constraint::Addable => "addable",
            Constraint::Numeric => "numeric",
        }
    }

    /// Greatest lower bound: the constraint admitting exactly the types both
    /// admit, or `None` when there are none.
    pub fn intersect(self, other: Constraint) -> (r: Option<Constraint>)
        ensures
            match r {
                Some(c) => forall|p: Prim| c.allows(p) <==> self.allows(p) && other.allows(p),
                None => forall|p: Prim| !(self.allows(p) && other.allows(p)),
            },
            r == Some(self.meet(other)),
    {
        match (self, other) {
            (Constraint::Addable, Constraint::Addable) => Some(Constraint::Addable),
            (Constraint::Numeric, Constraint::Numeric) => Some(Constraint::Numeric),
            (Constraint::Numeric, Constraint::Addable) => Some(Constraint::Numeric),
            (Constraint::Addable, Constraint::Numeric) => Some(Constraint::Numeric),
        }
    }

    pub open spec fn meet(self, other: Constraint) -> Constraint {
        if self == Constraint::Addable && other == Constraint::Addable {
            Constraint::Addable
        } else {
            Constraint::Numeric
        }
    }

    /// A rigid generic carrying `generic` guarantees this constraint: whatever
    /// it stands for is allowed here. An unconstrained one guarantees nothing.
    pub open spec fn met_by(self, generic: Option<Constraint>) -> bool {
        match generic {
            Some(g) => forall|p: Prim| g.allows(p) ==> self.allows(p),
            None => false,
        }
    }

    pub fn satisfied_by_generic(self, generic: Option<Constraint>) -> (r: bool)
        ensures
            r == self.met_by(generic),
    {
        match generic {
            Some(g) => {
                let required = self.allowed_types();
                let given = g.allowed_types();
                let mut i: usize = 0;
                while i < given.len()
                    invariant
                        i <= given.len(),
                        generic == Some(g),
                        forall|p: Prim| required@.contains(p) <==> self.allows(p),
                        forall|p: Prim| given@.contains(p) <==> g.allows(p),
                        forall|k: int| 0 <= k < i ==> self.allows(#[trigger] given@[k]),
                    decreases given.len() - i,
                {
                    if !has_prim(&required, given[i]) {
                        proof {
                            let p = given@[i as int];
                            assert(given@.contains(p));
                            assert(g.allows(p) && !self.allows(p));
                        }
                        return false;
                    }
                    i += 1;
                }
                proof {
                    assert forall|p: Prim| g.allows(p) implies self.allows(p) by {
                        assert(given@.contains(p));
                    }
                }
                true
            },
            None => false,
        }
    }
}

fn has_prim(ps: &Vec<Prim>, p: Prim) -> (r: bool)
    ensures
        r == ps@.contains(p),
{
    let mut i: usize = 0;
    while i < ps.len()
        invariant
            i <= ps.len(),
            forall|k: int| 0 <= k < i ==> #[trigger] ps@[k] != p,
        decreases ps.len() - i,
    {
        if ps[i] == p {
            return true;
        }
        i += 1;
    }
    false
}

/// Index into the engine's nodes. Meaningful only relative to the engine that
/// minted it.
#[derive(Clone, Copy, PartialEq, Eq, Structural, Hash, Debug)]
pub struct Ty(pub u32);

impl Ty {
    /// Sentinel meaning "no arena node".
    pub fn none() -> (r: Ty)
        ensures
            r == Ty(0xFFFF_FFFF),
    {
        Ty(0xFFFF_FFFF)
    }

    pub fn idx(self) -> (r: usize)
        ensures
            r == self.0,
    {
        self.0 as usize
    }
}

/// Index into the engine's strings.
#[derive(Clone, Copy, PartialEq, Eq, Structural, Hash, Debug)]
pub struct StrId(pub u32);

impl StrId {
    /// Sentinel meaning "no string".
    pub fn none() -> (r: StrId)
        ensures
            r == StrId(0xFFFF_FFFF),
    {
        StrId(0xFFFF_FFFF)
    }

    pub fn idx(self) -> (r: usize)
        ensures
            r == self.0,
    {
        self.0 as usize
    }
}

/// Half-open `[start, start+len)` into the engine pool `P`.
pub struct ArenaSlice<P> {
    pub start: u32,
    pub len: u16,
    pub pool: PhantomData<P>,
}

impl<P> Clone for ArenaSlice<P> {
    fn clone(&self) -> (r: Self)
        ensures
            r == *self,
    {
        *self
    }
}

impl<P> Copy for ArenaSlice<P> {

}

impl<P> ArenaSlice<P> {
    pub fn new(start: u32, len: u16) -> (r: Self)
        ensures
            r.start == start,
            r.len == len,
    {
        ArenaSlice { start, len, pool: PhantomData }
    }

    /// The indices the slice covers.
    pub fn range(self) -> (r: std::ops::Range<usize>)
        requires
            self.start + self.len <= usize::MAX,
        ensures
            r.start == self.start,
            r.end == self.start + self.len,
    {
        self.start as usize..(self.start as usize + self.len as usize)
    }
}

/// The items a slice covers in its pool.
pub open spec fn covered<T, P>(pool: Seq<T>, sl: ArenaSlice<P>) -> Seq<T> {
    pool.subrange(sl.start as int, sl.start + sl.len)
}

/// One node of a type, stored flat in the engine's arena.
#[derive(Clone, Copy)]
pub enum TypeNode {
    /// A unification variable.
    Var(i32),
    /// A quantified variable, indexing into the enclosing scheme's quantified
    /// ones. Appears only inside a scheme's type.
    Bound(u32),
    /// `Name(args...)`, a nominal type application. `name` is for display
    /// only: two types are the same when their ids are.
    Con { id: TypeId, name: StrId, args: ArenaSlice<Children> },
    /// `fn(params...) ret`.
    Fun { params: ArenaSlice<Children>, ret: Ty },
    /// `(elems...)`.
    Tuple { elems: ArenaSlice<Children> },
}

/// What a type variable stands for so far.
#[derive(Clone, Copy)]
pub enum TyVarState {
    Unbound { level: i32, constraint: Option<Constraint> },
    /// The variable is the type at `ty`.
    Link { ty: Ty },
    /// A rigid quantified variable. `id` is the variable it was made from.
    Generic { id: i32, constraint: Option<Constraint> },
}

/// What a variable holds that is no link.
#[derive(Clone, Copy)]
pub enum RootVarState {
    Unbound { level: i32, constraint: Option<Constraint> },
    Generic { id: i32, constraint: Option<Constraint> },
}

/// Which built-in a `@vm(key)` declaration names.
#[derive(Debug, Clone, Copy, PartialEq, Eq, Structural)]
pub struct IntrinsicKey(pub u32);

/// What a value name refers to.
#[derive(Clone, Copy)]
pub enum ValueKind {
    /// Ordinary `let`/param binding. Never instantiated.
    Local,
    /// Top-level `fn` in a module. An empty slice of labels means "not
    /// recorded".
    ModuleFn { param_labels: ArenaSlice<StrSlices> },
    /// A built-in function.
    Builtin { intrinsic: IntrinsicKey },
    /// A data constructor.
    Constructor {
        owner: StrId,
        type_id: TypeId,
        variant_idx: u16,
        variant_name: StrId,
        arity: u16,
        field_labels: ArenaSlice<StrSlices>,
    },
}

/// One quantified variable of a scheme. `origin_id` is the engine variable it
/// was generalized from, meaningful within the epoch it was minted in.
#[derive(Clone, Copy)]
pub struct QuantVar {
    pub constraint: Option<Constraint>,
    /// Display name; `StrId::none()` when unset.
    pub name: StrId,
    pub origin_id: Option<i32>,
    pub epoch: u32,
}

#[derive(Clone, Copy)]
pub struct Scheme {
    /// Bound variables, in `Bound(i)` index order.
    pub quantified: ArenaSlice<Quants>,
    pub ty: Ty,
    pub kind: ValueKind,
    pub def: Option<DefinitionLocation>,
}

/// The scheme of a type that is not generalized.
pub fn mono(ty: Ty) -> (r: Scheme)
    ensures
        r.quantified.start == 0,
        r.quantified.len == 0,
        r.ty == ty,
        r.kind is Local,
        r.def is None,
{
    Scheme { quantified: ArenaSlice::new(0, 0), ty, kind: ValueKind::Local, def: None }
}

#[derive(Debug, Clone, Copy, PartialEq, Eq, Structural)]
pub enum UnifyErrorSituation {
    FunctionArity { expected: usize, given: usize },
}

#[derive(Debug, Clone, Copy, PartialEq, Eq, Structural)]
pub enum UnifyError {
    CouldNotUnify { expected: Ty, given: Ty, situation: Option<UnifyErrorSituation> },
    RecursiveType,
}

impl UnifyError {
    pub open spec fn flipped(self) -> UnifyError {
        match self {
            UnifyError::CouldNotUnify { expected, given, situation } => UnifyError::CouldNotUnify {
                expected: given,
                given: expected,
                situation,
            },
            UnifyError::RecursiveType => UnifyError::RecursiveType,
        }
    }

    /// The error with its two sides exchanged.
    pub fn flip(self) -> (r: UnifyError)
        ensures
            r == self.flipped(),
    {
        match self {
            UnifyError::CouldNotUnify { expected, given, situation } => UnifyError::CouldNotUnify {
                expected: given,
                given: expected,
                situation,
            },
            UnifyError::RecursiveType => UnifyError::RecursiveType,
        }
    }
}

pub fn could_not_unify(expected: Ty, given: Ty) -> (r: UnifyError)
    ensures
        r == (UnifyError::CouldNotUnify { expected, given, situation: None }),
{
    UnifyError::CouldNotUnify { expected, given, situation: None }
}

pub open spec fn enclosed(err: UnifyError, expected: Ty, given: Ty) -> UnifyError {
    match err {
        UnifyError::CouldNotUnify { expected: e, given: g, situation } => UnifyError::CouldNotUnify {
            expected,
            given,
            situation,
        },
        UnifyError::RecursiveType => UnifyError::RecursiveType,
    }
}

/// Re-express a child failure in terms of the enclosing types, so the user
/// sees the whole shape and not just the leaf that disagreed.
pub fn unify_enclosed(err: UnifyError, expected: Ty, given: Ty) -> (r: UnifyError)
    ensures
        r == enclosed(err, expected, given),
{
    match err {
        UnifyError::CouldNotUnify { expected: _, given: _, situation } => UnifyError::CouldNotUnify {
            expected,
            given,
            situation,
        },
        UnifyError::RecursiveType => UnifyError::RecursiveType,
    }
}

/// Nominal ids of the primitives the engine recognises directly.
#[derive(Debug, Clone, Copy, PartialEq, Eq, Structural)]
pub struct PrimIds {
    pub int: TypeId,
    pub float: TypeId,
    pub string: TypeId,
    pub array: TypeId,
}

impl PrimIds {
    pub open spec fn spec_prim_of(self, id: TypeId) -> Option<Prim> {
        if id == self.int {
            Some(Prim::Int)
        } else if id == self.float {
            Some(Prim::Float)
        } else if id == self.string {
            Some(Prim::String)
        } else {
            None
        }
    }

    /// The primitive a nominal type id is, if it is one. By id, never name: a
    /// user's `type Int { }` is not `Int`.
    pub fn prim_of(self, id: TypeId) -> (r: Option<Prim>)
        ensures
            r == self.spec_prim_of(id),
    {
        if id == self.int {
            Some(Prim::Int)
        } else if id == self.float {
            Some(Prim::Float)
        } else if id == self.string {
            Some(Prim::String)
        } else {
            None
        }
    }
}

impl Default for PrimIds {
    /// Placeholders for an engine without a prelude, distinct from each other
    /// and from the ids an environment allocates.
    fn default() -> (r: PrimIds)
        ensures
            r.int.0 == -1,
            r.float.0 == -2,
            r.string.0 == -3,
            r.array.0 == -4,
    {
        PrimIds { int: TypeId(-1i32), float: TypeId(-2i32), string: TypeId(-3i32), array: TypeId(-4) }
    }
}

} // verus!
