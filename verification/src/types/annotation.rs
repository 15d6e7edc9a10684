//! What a written type stands for: the type, the variables it introduces and
//! the complaint when it stands for nothing.

use crate::entries::Entries;
use crate::syntax::{FunctionType, NamedType, Span, TypeIdentifier, TypeKind};
use crate::text::{decimal, joined};
use crate::types::environment::{TypeBody, TypeInfo, TypeParam};
use crate::types::naming::Naming;
use crate::types::node::{ArenaSlice, covered, StrId, Ty, TyVarState};
use crate::types::pool::StrSlices;
use crate::types::rewrite::{rewritten, substituting, weight};
use crate::types::suggest::spellings;
use crate::types::term::Term;
use vstd::prelude::*;

verus! {

/// Where the annotation being hydrated appears. Each position answers two
/// questions: may an unseen lowercase name mint a fresh type variable, and may
/// a function type omit its return type?
#[derive(Debug, Clone, Copy, PartialEq, Eq, Structural)]
pub enum AnnotationContext {
    /// An annotation that opens its own type-variable scope: fn signatures,
    /// lambda parameters, toplevel const annotations. New lowercase names mint
    /// fresh rigid vars, and a bare `fn(..)` return gets a fresh var that
    /// inference constrains against the body.
    Signature,
    /// A `let x: T = ...` annotation. An unseen lowercase name is an error. A
    /// bare `fn(..)` return is still allowed: the fresh var unifies with the
    /// initializer's type.
    Binding,
    /// A type-definition body: constructor fields or an alias target. Type
    /// parameters are declared beforehand, so an unseen lowercase name is an
    /// error. Every function type must declare its return type: there is no
    /// inference context, so a fresh return var would be generalized into the
    /// stored scheme and escape unconstrained.
    TypeDefinition,
}

impl AnnotationContext {
    pub fn permits_new_type_variables(self) -> (r: bool)
        ensures
            r == (self is Signature),
    {
        match self {
            AnnotationContext::Signature => true,
            _ => false,
        }
    }

    pub fn requires_fn_return(self) -> (r: bool)
        ensures
            r == (self is TypeDefinition),
    {
        match self {
            AnnotationContext::TypeDefinition => true,
            _ => false,
        }
    }
}

/// Whether a name is that of a nominal type: those start with a capital.
pub open spec fn capitalized(name: Seq<char>) -> bool {
    name.len() > 0 && 'A' <= name[0] <= 'Z'
}

/// What annotations are read against.
pub struct Setting {
    pub context: AnnotationContext,
    pub types: Entries<Seq<char>, TypeInfo>,
    pub params: Seq<TypeParam>,
    pub known: spec_fn(Ty) -> bool,
    pub targets: spec_fn(Ty) -> Term,
    pub level: i32,
}

/// A nominal type that was written: where, which, and under what qualifier.
pub struct Mention {
    pub span: Span,
    pub name: StrId,
    pub module: ArenaSlice<StrSlices>,
    pub qualifier: Option<(Seq<char>, Span)>,
}

/// What reading annotations has come to so far. `base` counts the variables
/// there were at the start, `fresh` are those made since; `cost` bounds what
/// was added to each table.
pub struct Notes {
    pub created: Entries<Seq<char>, i32>,
    pub rigid: Set<i32>,
    pub mentions: Seq<Mention>,
    pub base: nat,
    pub fresh: Seq<TyVarState>,
    pub strings: Seq<Seq<char>>,
    pub naming: Naming,
    pub cost: nat,
}

pub struct Complaint {
    pub span: Span,
    pub message: Seq<char>,
}

pub struct Reading {
    pub res: Result<Term, Complaint>,
    pub notes: Notes,
}

pub struct Readings {
    pub res: Result<Seq<Term>, Complaint>,
    pub notes: Notes,
}

impl Notes {
    pub open spec fn spend(self, n: nat) -> Notes {
        Notes { cost: self.cost + n, ..self }
    }

    /// The number the next variable gets.
    pub open spec fn next(self) -> i32 {
        (self.base + self.fresh.len()) as i32
    }

    /// A fresh rigid variable for a name.
    pub open spec fn declare(self, name: Seq<char>) -> Notes {
        Notes {
            created: self.created.put(name, self.next()),
            fresh: self.fresh.push(
                TyVarState::Generic { id: self.next(), constraint: None },
            ),
            strings: crate::names::with(self.strings, name),
            naming: self.naming.called(self.next(), name),
            cost: self.cost + 1,
            ..self
        }
    }

    /// A fresh variable to be solved.
    pub open spec fn solve_for(self, level: i32) -> Notes {
        Notes {
            fresh: self.fresh.push(TyVarState::Unbound { level, constraint: None }),
            cost: self.cost + 1,
            ..self
        }
    }

    /// A nominal type is mentioned; its qualifier joins the strings.
    pub open spec fn mention(self, nt: NamedType, ti: TypeInfo) -> Notes {
        Notes {
            mentions: self.mentions.push(
                Mention {
                    span: nt.identifier.span,
                    name: ti.name,
                    module: ti.module,
                    qualifier: match nt.qualifier {
                        Some(q) => Some((q.name@, q.span)),
                        None => None,
                    },
                },
            ),
            strings: match nt.qualifier {
                Some(q) => crate::names::with(self.strings, q.name@),
                None => self.strings,
            },
            cost: self.cost + 1,
            ..self
        }
    }
}

/// What a written type stands for.
pub open spec fn read(h: Setting, t: TypeIdentifier, n: Notes) -> Reading
    decreases t,
{
    match t.kind {
        TypeKind::NamedType(nt) => read_named(h, nt, t.span, n),
        TypeKind::TupleType(tt) => {
            let es = read_all(h, tt.elements@, n);
            match es.res {
                Ok(ts) => Reading {
                    res: Ok(Term::Tuple { elems: ts }),
                    notes: es.notes.spend(1 + ts.len()),
                },
                Err(c) => Reading { res: Err(c), notes: es.notes },
            }
        },
        TypeKind::FunctionType(ft) => read_function(h, ft, t.span, n),
    }
}

pub open spec fn read_function(h: Setting, ft: FunctionType, span: Span, n: Notes) -> Reading
    decreases ft,
{
    let ps = read_all(h, ft.params@, n);
    match ps.res {
        Ok(ts) => {
            let ret = match ft.return_type {
                Some(r) => read(h, *r, ps.notes),
                None => if h.context is TypeDefinition {
                    Reading {
                        res: Err(
                            Complaint {
                                span,
                                message: "Function type in a type definition must declare a return type"@,
                            },
                        ),
                        notes: ps.notes,
                    }
                } else {
                    Reading {
                        res: Ok(Term::Var(ps.notes.next())),
                        notes: ps.notes.solve_for(h.level),
                    }
                },
            };
            match ret.res {
                Ok(r) => Reading {
                    res: Ok(Term::Fun { params: ts, ret: Box::new(r) }),
                    notes: ret.notes.spend(1 + ts.len()),
                },
                Err(c) => ret,
            }
        },
        Err(c) => Reading { res: Err(c), notes: ps.notes },
    }
}

pub open spec fn read_all(h: Setting, ts: Seq<TypeIdentifier>, n: Notes) -> Readings
    decreases ts,
{
    if ts.len() == 0 {
        Readings { res: Ok(Seq::empty()), notes: n }
    } else {
        let init = read_all(h, ts.drop_last(), n);
        match init.res {
            Ok(xs) => {
                let last = read(h, ts.last(), init.notes);
                match last.res {
                    Ok(x) => Readings { res: Ok(xs.push(x)), notes: last.notes },
                    Err(c) => Readings { res: Err(c), notes: last.notes },
                }
            },
            Err(c) => init,
        }
    }
}

pub open spec fn read_named(h: Setting, nt: NamedType, span: Span, n: Notes) -> Reading
    decreases nt,
{
    let name = nt.identifier.name@;
    let no_arguments = Complaint {
        span,
        message: "Type variable '"@ + name + "' cannot take arguments"@,
    };
    if nt.qualifier is None && n.created.has(name) {
        if nt.type_args@.len() > 0 {
            Reading { res: Err(no_arguments), notes: n }
        } else {
            Reading { res: Ok(Term::Var(n.created.get(name).unwrap())), notes: n }
        }
    } else {
        let args = read_all(h, nt.type_args@, n);
        match args.res {
            Ok(ts) => if nt.qualifier is None && !capitalized(name) {
                if ts.len() > 0 {
                    Reading { res: Err(no_arguments), notes: args.notes }
                } else if !(h.context is Signature) {
                    Reading {
                        res: Err(
                            Complaint {
                                span: nt.identifier.span,
                                message: "Unknown type variable '"@ + name + "'"@,
                            },
                        ),
                        notes: args.notes,
                    }
                } else {
                    let made = args.notes.declare(name);
                    Reading {
                        res: Ok(Term::Var(args.notes.next())),
                        notes: Notes { rigid: made.rigid.insert(args.notes.next()), ..made },
                    }
                }
            } else {
                match h.types.get(written(nt)) {
                    Some(ti) => if ts.len() != ti.type_params.len {
                        Reading {
                            res: Err(
                                Complaint {
                                    span,
                                    message: arity_text(
                                        written(nt),
                                        ti.type_params.len as nat,
                                        ts.len(),
                                    ),
                                },
                            ),
                            notes: args.notes,
                        }
                    } else {
                        applied(h, ti, ts, args.notes.mention(nt, ti))
                    },
                    None => Reading {
                        res: Err(
                            Complaint {
                                span: nt.identifier.span,
                                message: unknown_text(h, nt),
                            },
                        ),
                        notes: args.notes,
                    },
                }
            },
            Err(c) => Reading { res: Err(c), notes: args.notes },
        }
    }
}

/// A type's record at its arguments: an alias is its target with the
/// parameters replaced, every other type is nominal, under its own name and
/// not the one it was imported as.
pub open spec fn applied(h: Setting, ti: TypeInfo, ts: Seq<Term>, n: Notes) -> Reading {
    match ti.body {
        TypeBody::Alias { target } => Reading {
            res: Ok(
                rewritten(
                    substituting(covered(h.params, ti.type_params), ts),
                    (h.targets)(target),
                ),
            ),
            notes: n.spend(weight((h.targets)(target))),
        },
        _ => Reading {
            res: Ok(Term::Con { id: ti.id, name: ti.name, args: ts }),
            notes: n.spend(1 + ts.len()),
        },
    }
}

/// The name as it is written, qualifier and all.
pub open spec fn written(nt: NamedType) -> Seq<char> {
    match nt.qualifier {
        Some(q) => q.name@ + "."@ + nt.identifier.name@,
        None => nt.identifier.name@,
    }
}

pub open spec fn arity_text(name: Seq<char>, expected: nat, given: nat) -> Seq<char> {
    "Type '"@ + name + "' expects "@ + decimal(expected) + " type argument"@ + (if expected == 1 {
        ""@
    } else {
        "s"@
    }) + ", got "@ + decimal(given)
}

/// The complaint about a name that no type in scope has. For a bare name it
/// points at the qualified spelling when an import does export a type by that
/// name: `Map` after `import scarlet/map` is `map.Map`.
pub open spec fn unknown_text(h: Setting, nt: NamedType) -> Seq<char> {
    let name = nt.identifier.name@;
    match nt.qualifier {
        Some(q) => "Unknown type '"@ + written(nt) + "'. Import '"@ + q.name@
            + "' and verify it exports a type '"@ + name + "'."@,
        None => {
            let ss = quoted(spellings(h.types.keys, name));
            if ss.len() == 0 {
                "Unknown type '"@ + name + "'"@
            } else if ss.len() == 1 {
                "Unknown type '"@ + name + "'. Did you mean "@ + ss[0] + "?"@
            } else {
                "Unknown type '"@ + name + "'. Did you mean one of "@ + joined(ss, ", "@) + "?"@
            }
        },
    }
}

pub open spec fn quoted(ss: Seq<Seq<char>>) -> Seq<Seq<char>> {
    Seq::new(ss.len(), |i: int| "'"@ + ss[i] + "'"@)
}

/// No list in the type is longer than the arena can hold.
pub open spec fn short(t: TypeIdentifier) -> bool
    decreases t,
{
    match t.kind {
        TypeKind::NamedType(nt) => short_all(nt.type_args@),
        TypeKind::TupleType(tt) => tt.elements@.len() <= 0xFFFF && short_all(tt.elements@),
        TypeKind::FunctionType(ft) => ft.params@.len() <= 0xFFFF && short_all(ft.params@) && (
        match ft.return_type {
            Some(r) => short(*r),
            None => true,
        }),
    }
}

pub open spec fn short_all(ts: Seq<TypeIdentifier>) -> bool
    decreases ts,
{
    forall|i: int| 0 <= i < ts.len() ==> short(#[trigger] ts[i])
}

/// Reading more of a list only adds to what was noted, and costs no less.
pub proof fn lemma_read_more(h: Setting, ts: Seq<TypeIdentifier>, n: Notes, k: int)
    requires
        0 <= k <= ts.len(),
    ensures
        read_all(h, ts.take(k), n).notes.cost <= read_all(h, ts, n).notes.cost,
        read_all(h, ts.take(k), n).res is Err ==> read_all(h, ts, n) == read_all(h, ts.take(k), n),
    decreases ts.len() - k,
{
    if k == ts.len() {
        assert(ts.take(k) =~= ts);
    } else {
        lemma_read_more(h, ts, n, k + 1);
        let next = ts.take(k + 1);
        assert(next.drop_last() =~= ts.take(k));
        assert(next.last() == ts[k]);
        let init = read_all(h, ts.take(k), n);
        lemma_read_cost(h, ts[k], init.notes);
    }
}

pub proof fn lemma_read_cost(h: Setting, t: TypeIdentifier, n: Notes)
    ensures
        n.cost <= read(h, t, n).notes.cost,
    decreases t,
{
    match t.kind {
        TypeKind::NamedType(nt) => {
            lemma_read_all_cost(h, nt.type_args@, n);
        },
        TypeKind::TupleType(tt) => {
            lemma_read_all_cost(h, tt.elements@, n);
        },
        TypeKind::FunctionType(ft) => {
            lemma_read_all_cost(h, ft.params@, n);
            let ps = read_all(h, ft.params@, n);
            match ft.return_type {
                Some(r) => lemma_read_cost(h, *r, ps.notes),
                None => {},
            }
        },
    }
}

pub proof fn lemma_read_all_cost(h: Setting, ts: Seq<TypeIdentifier>, n: Notes)
    ensures
        n.cost <= read_all(h, ts, n).notes.cost,
    decreases ts,
{
    if ts.len() > 0 {
        lemma_read_all_cost(h, ts.drop_last(), n);
        let init = read_all(h, ts.drop_last(), n);
        lemma_read_cost(h, ts.last(), init.notes);
    }
}

} // verus!
