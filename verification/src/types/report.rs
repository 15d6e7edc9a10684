//! Types and mismatches as messages.

use crate::names::with;
use crate::syntax::{Diagnostic, DiagnosticCode, Span};
use crate::text::{decimal, push_decimal};
use crate::type_def::TypeId;
use crate::types::arena::NullaryPrim;
use crate::types::infer::InferEngine;
use crate::types::naming::{lemma_naming_strings, Naming};
use crate::types::node::{Ty, UnifyError, UnifyErrorSituation};
use crate::types::resolve::{
    agrees, env_of, lemma_agrees, lemma_only_resolved_trans, only_resolved, ResolvePath, room_for,
    world,
};
use crate::types::resolved::{
    lemma_names_cost, lemma_value_text, nameless, resolved, value_text, World, world_ok,
};
use crate::types::term::{bound_free, grows, lemma_term_vars, lemma_root, occurs, Store, term, Term};
use crate::types::unify::unify_result;
use vstd::prelude::*;

verus! {

/// Every variable can be given a name.
pub open spec fn room_for_names(e: &InferEngine) -> bool {
    room_for(e, nameless(e.naming(), e.vars@.len() as int).len())
}

/// What a failed unification is reported as.
pub open spec fn message_of(w: World, s: Store, n: Naming, e: UnifyError) -> Seq<char> {
    match e {
        UnifyError::CouldNotUnify { expected, given, situation } => {
            let x = resolved(w, term(s, expected), n, Seq::empty(), 1);
            let y = resolved(w, term(s, given), x.naming, Seq::empty(), 1);
            "Type mismatch: expected '"@ + value_text(x.ty) + "', got '"@ + value_text(y.ty) + "'"@
                + situation_text(situation)
        },
        UnifyError::RecursiveType => "Infinite type detected"@,
    }
}

pub open spec fn situation_text(situation: Option<UnifyErrorSituation>) -> Seq<char> {
    match situation {
        Some(UnifyErrorSituation::FunctionArity { expected, given }) => "\nExpected "@ + decimal(
            expected as nat,
        ) + " argument(s), but "@ + decimal(given as nat) + " were supplied."@,
        None => Seq::empty(),
    }
}

/// The names given out once that is reported.
pub open spec fn names_after(w: World, s: Store, n: Naming, e: UnifyError) -> Naming {
    match e {
        UnifyError::CouldNotUnify { expected, given, situation } => {
            let x = resolved(w, term(s, expected), n, Seq::empty(), 1);
            resolved(w, term(s, given), x.naming, Seq::empty(), 1).naming
        },
        UnifyError::RecursiveType => n,
    }
}

/// The types an error speaks of are types of the store.
pub open spec fn error_in(e: &InferEngine, err: UnifyError) -> bool {
    err matches UnifyError::CouldNotUnify { expected, given, situation } ==> e.has(expected)
        && e.has(given)
}

/// An error of unification, reported: the engine `b` is `a` with one diagnostic
/// more, and names for the variables that the message speaks of.
pub open spec fn reported(a: &InferEngine, b: &InferEngine, span: Span, e: UnifyError) -> bool {
    let w = world(a, None);
    &&& b.diagnostics@.len() == a.diagnostics@.len() + 1
    &&& b.diagnostics@.drop_last() == a.diagnostics@
    &&& b.diagnostics@.last().span == span
    &&& b.diagnostics@.last().code == DiagnosticCode::TypeError
    &&& b.diagnostics@.last().message@ == message_of(w, a.store(), a.naming(), e)
    &&& b.naming() == names_after(w, a.store(), a.naming(), e)
    &&& a.strings@.is_prefix_of(b.strings@)
    &&& grows(a.store(), b.store())
    &&& b.vars@.len() == a.vars@.len()
    &&& b.nodes@.len() <= a.nodes@.len() + nameless(a.naming(), a.vars@.len() as int).len()
    &&& b.only_types(a)
    &&& b.prim_ids == a.prim_ids
    &&& b.current_level == a.current_level
    &&& b.nullary_cache == a.nullary_cache
    &&& room_for_names(b)
}

proof fn lemma_room(e: &InferEngine, w: World, t: Ty)
    requires
        e.wf(),
        e.has(t),
        w.ids.keys.len() == 0,
        w.ids.vals.len() == 0,
        room_for_names(e),
    ensures
        ({
            let o = resolved(w, e.term(t), e.naming(), Seq::empty(), 1);
            &&& room_for(e, o.cost)
            &&& o.cost + nameless(o.naming, e.vars@.len() as int).len() <= nameless(
                e.naming(),
                e.vars@.len() as int,
            ).len()
        }),
{
    assert forall|v: i32| #[trigger] occurs(v, e.term(t)) implies 0 <= v < e.vars@.len() by {
        lemma_term_vars(e.store(), t, v);
    }
    lemma_names_cost(w, e.term(t), e.naming(), Seq::empty(), 1, e.vars@.len() as int);
}

impl InferEngine {
    pub fn icon_int(&mut self) -> (r: Ty)
        requires
            old(self).wf(),
            old(self).room(1, 0),
            old(self).strings@.len() < 0xFFFF_FFFF,
            old(self).nullary_cache@[0] == Ty(0xFFFF_FFFF) || old(self).con_id(
                old(self).nullary_cache@[0],
            ) == old(self).prim_ids.int,
        ensures
            final(self).wf(),
            final(self).has(r),
            nullary_made(old(self), final(self), NullaryPrim::Int, old(self).prim_ids.int, "Int"@, r),
    {
        let id = self.prim_ids.int;
        self.nullary_con(NullaryPrim::Int, id, "Int")
    }

    pub fn icon_float(&mut self) -> (r: Ty)
        requires
            old(self).wf(),
            old(self).room(1, 0),
            old(self).strings@.len() < 0xFFFF_FFFF,
            old(self).nullary_cache@[1] == Ty(0xFFFF_FFFF) || old(self).con_id(
                old(self).nullary_cache@[1],
            ) == old(self).prim_ids.float,
        ensures
            final(self).wf(),
            final(self).has(r),
            nullary_made(
                old(self),
                final(self),
                NullaryPrim::Float,
                old(self).prim_ids.float,
                "Float"@,
                r,
            ),
    {
        let id = self.prim_ids.float;
        self.nullary_con(NullaryPrim::Float, id, "Float")
    }

    pub fn icon_string(&mut self) -> (r: Ty)
        requires
            old(self).wf(),
            old(self).room(1, 0),
            old(self).strings@.len() < 0xFFFF_FFFF,
            old(self).nullary_cache@[2] == Ty(0xFFFF_FFFF) || old(self).con_id(
                old(self).nullary_cache@[2],
            ) == old(self).prim_ids.string,
        ensures
            final(self).wf(),
            final(self).has(r),
            nullary_made(
                old(self),
                final(self),
                NullaryPrim::String,
                old(self).prim_ids.string,
                "String"@,
                r,
            ),
    {
        let id = self.prim_ids.string;
        self.nullary_con(NullaryPrim::String, id, "String")
    }

    /// A type as messages write it: no nominal type is looked up, and a
    /// variable without a name is given one.
    pub fn type_to_str(&mut self, ty: Ty) -> (r: String)
        requires
            old(self).wf(),
            old(self).has(ty),
            room_for_names(old(self)),
        ensures
            ({
                let o = resolved(
                    world(old(self), None),
                    old(self).term(ty),
                    old(self).naming(),
                    Seq::empty(),
                    1,
                );
                &&& r@ == value_text(o.ty)
                &&& final(self).naming() == o.naming
                &&& only_resolved(final(self), old(self), o.cost)
                &&& room_for_names(final(self))
            }),
    {
        self.text_in(ty, Ghost(world(self, None)))
    }

    fn text_in(&mut self, ty: Ty, Ghost(w): Ghost<World>) -> (r: String)
        requires
            old(self).wf(),
            old(self).has(ty),
            env_of(None, w),
            world_ok(w),
            agrees(old(self), w),
            room_for_names(old(self)),
        ensures
            ({
                let o = resolved(w, old(self).term(ty), old(self).naming(), Seq::empty(), 1);
                &&& r@ == value_text(o.ty)
                &&& final(self).naming() == o.naming
                &&& only_resolved(final(self), old(self), o.cost)
                &&& room_for_names(final(self))
                &&& o.cost + nameless(o.naming, old(self).vars@.len() as int).len() <= nameless(
                    old(self).naming(),
                    old(self).vars@.len() as int,
                ).len()
            }),
    {
        proof {
            lemma_room(self, w, ty);
        }
        let mut path = ResolvePath { stack: Vec::new(), same_limit: 1 };
        proof {
            assert(path@ =~= Seq::empty());
        }
        let t = self.resolve_inner(ty, None, &mut path, Ghost(w));
        proof {
            lemma_value_text(t);
        }
        t.text()
    }

    /// Record a type error.
    pub fn error_at_span(&mut self, message: String, s: Span)
        requires
            old(self).wf(),
        ensures
            final(self).wf(),
            final(self).diagnostics@ == old(self).diagnostics@.push(
                Diagnostic { span: s, code: DiagnosticCode::TypeError, message },
            ),
            *final(self) == (InferEngine { diagnostics: final(self).diagnostics, ..*old(self) }),
    {
        self.diagnostics.push(Diagnostic::error(s, DiagnosticCode::TypeError, message));
    }

    /// [`unify`](Self::unify), with a diagnostic on failure. Whether the types
    /// could be made one.
    pub fn unify_at(&mut self, expected: Ty, given: Ty, span: Span) -> (r: bool)
        requires
            old(self).wf(),
            old(self).has(expected),
            old(self).has(given),
            bound_free(old(self).term(expected)),
            bound_free(old(self).term(given)),
            room_for_names(old(self)),
        ensures
            final(self).wf(),
            if r {
                &&& final(self).only_vars(old(self))
                &&& unify_result(old(self).store(), final(self).store(), expected, given, Ok(()))
            } else {
                exists|e: UnifyError, mid: InferEngine|
                    {
                        &&& mid.only_vars(old(self))
                        &&& unify_result(
                            old(self).store(),
                            mid.store(),
                            expected,
                            given,
                            Err(e),
                        )
                        &&& #[trigger] reported(&mid, final(self), span, e)
                    }
            },
    {
        let ghost e0 = *self;
        match self.unify(expected, given) {
            Ok(_) => true,
            Err(e) => {
                let ghost e1 = *self;
                proof {
                    lemma_root(e0.store(), expected);
                    lemma_root(e0.store(), given);
                    lemma_naming_strings(&e0, &e1);
                }
                let d = into_diagnostic(e, self, span);
                let ghost e2 = *self;
                self.diagnostics.push(d);
                proof {
                    lemma_naming_strings(&e2, self);
                    assert(self.diagnostics@.drop_last() =~= e1.diagnostics@);
                    assert(reported(&e1, self, span, e));
                }
                false
            },
        }
    }
}

/// What making a nullary primitive does.
pub open spec fn nullary_made(
    a: &InferEngine,
    b: &InferEngine,
    slot: NullaryPrim,
    id: TypeId,
    name: Seq<char>,
    r: Ty,
) -> bool {
    &&& b.con_id(r) == id
    &&& b.term(r) matches Term::Con { id: i2, name: n2, args } && i2 == id && args.len() == 0
    &&& if a.nullary_cache@[slot.spec_slot()] != Ty(0xFFFF_FFFF) {
        *b == *a && r == a.nullary_cache@[slot.spec_slot()]
    } else {
        &&& grows(a.store(), b.store())
        &&& b.vars == a.vars
        &&& b.nodes@.len() == a.nodes@.len() + 1
        &&& b.children@.len() == a.children@.len()
        &&& b.strings@ == with(a.strings@, name)
        &&& b.term(r) matches Term::Con { id: i2, name: n2, args } && n2.0 < b.strings@.len()
            && b.strings@[n2.0 as int] == name
        &&& b.nullary_cache@ == a.nullary_cache@.update(slot.spec_slot(), r)
        &&& b.only_types(a)
        &&& b.same_names(a)
        &&& b.current_level == a.current_level
        &&& b.diagnostics == a.diagnostics
    }
}

/// The diagnostic for an error at `span`.
fn into_diagnostic(e: UnifyError, engine: &mut InferEngine, span: Span) -> (r: Diagnostic)
    requires
        old(engine).wf(),
        error_in(old(engine), e),
        room_for_names(old(engine)),
    ensures
        ({
            let w = world(old(engine), None);
            &&& r.span == span
            &&& r.code == DiagnosticCode::TypeError
            &&& r.message@ == message_of(w, old(engine).store(), old(engine).naming(), e)
            &&& final(engine).naming() == names_after(
                w,
                old(engine).store(),
                old(engine).naming(),
                e,
            )
        }),
        only_resolved(
            final(engine),
            old(engine),
            nameless(old(engine).naming(), old(engine).vars@.len() as int).len(),
        ),
        room_for_names(final(engine)),
{
    let message = match e {
        UnifyError::CouldNotUnify { expected, given, situation } => {
            let ghost w = world(engine, None);
            let ghost e0 = *engine;
            let exp = engine.text_in(expected, Ghost(w));
            let ghost e1 = *engine;
            proof {
                let c = resolved(w, e0.term(expected), e0.naming(), Seq::empty(), 1).cost;
                lemma_agrees(&e0, &e1, w, c);
                assert(e1.store().live[given.0 as int] == e0.store().live[given.0 as int]);
                assert(term(e1.store(), given) == term(e0.store(), given));
            }
            let got = engine.text_in(given, Ghost(w));
            proof {
                let c = resolved(w, e0.term(expected), e0.naming(), Seq::empty(), 1).cost;
                let d = resolved(w, e1.term(given), e1.naming(), Seq::empty(), 1).cost;
                lemma_only_resolved_trans(&e0, &e1, engine, c, d);
            }
            let mut msg = "Type mismatch: expected '".to_owned();
            msg.append(exp.as_str());
            msg.append("', got '");
            msg.append(got.as_str());
            msg.append("'");
            if let Some(UnifyErrorSituation::FunctionArity { expected, given }) = situation {
                msg.append("\nExpected ");
                push_decimal(&mut msg, expected as u64);
                msg.append(" argument(s), but ");
                push_decimal(&mut msg, given as u64);
                msg.append(" were supplied.");
            }
            msg
        },
        UnifyError::RecursiveType => "Infinite type detected".to_owned(),
    };
    Diagnostic::error(span, DiagnosticCode::TypeError, message)
}

} // verus!
