//! Core: the programs the machine loads. A function is a tree of bindings,
//! branches and tails over numbered locals.

use crate::vm::value::{FuncIdx, VariantRef};
use vstd::prelude::*;

verus! {

/// A local of a function.
#[derive(Clone, Copy, PartialEq, Eq, Structural, Debug)]
pub struct LocalId(pub u32);

/// A slot that a module's toplevel sets.
#[derive(Clone, Copy, PartialEq, Eq, Structural, Debug)]
pub struct GlobalSlot(pub u32);

/// A case that a match's arms share.
#[derive(Clone, Copy, PartialEq, Eq, Structural, Debug)]
pub struct JoinId(pub u32);

/// A constant of the program.
#[derive(Clone, Copy, PartialEq, Eq, Structural, Debug)]
pub struct ConstId(pub u32);

pub enum Const {
    Int(i64),
    /// A float's bits.
    Float(u64),
    String(String),
    Binary { bytes: Vec<u8>, bits: u64 },
}

/// A local that is bound, and the slot its value also goes to.
#[derive(Clone, Copy, PartialEq, Eq, Structural, Debug)]
pub struct Bind {
    pub id: LocalId,
    pub global: Option<GlobalSlot>,
}

#[derive(Clone, Copy, PartialEq, Eq, Structural, Debug)]
pub enum Load {
    Global(GlobalSlot),
    Capture(u32),
    /// The closure that the function runs as.
    Itself,
}

#[derive(Clone, Copy, PartialEq, Eq, Structural, Debug)]
pub enum Callee {
    Known(FuncIdx),
    /// The function itself.
    Itself,
    Local(LocalId),
}

/// A primitive operation. The machine does not run the last yet: it says only
/// which operation it is.
pub enum PrimOp {
    IntAdd,
    IntSub,
    IntMul,
    IntDiv,
    IntRem,
    IntEq,
    IntNe,
    IntLt,
    IntLe,
    IntGt,
    IntGe,
    IntNeg,
    ToString,
    StringConcat,
    StringConcatMany,
    FieldUnchecked(u16),
    Other(String),
}

/// A built-in function.
pub enum Intrinsic {
    Println,
    StringInspect,
    StringLength,
    ArrayLength,
    IntToString,
    Other(String),
}

/// A computation over locals, with nothing inside it.
pub enum Atom {
    Local(LocalId),
    Const(ConstId),
    Nil,
    Bool(bool),
    Load(Load),
    Closure { func_idx: FuncIdx, captures: Vec<LocalId> },
    Call { callee: Callee, args: Vec<LocalId> },
    PrimOp { op: PrimOp, args: Vec<LocalId> },
    Intrinsic { intrinsic: Intrinsic, args: Vec<LocalId> },
    /// A constructor. `reuse` is a cell that it may overwrite.
    Ctor { variant: VariantRef, fields: Vec<LocalId>, reuse: Option<LocalId> },
}

pub enum CorePat {
    Wild,
    Bind(Bind),
    Ctor { variant: VariantRef, fields: Vec<Bind> },
    Lit(ConstId),
}

pub enum CoreExpr {
    Let { bind: Bind, rhs: Atom, body: Box<CoreExpr> },
    /// The last use of a local.
    Drop { local: LocalId, body: Box<CoreExpr> },
    Tail(Atom),
    /// A branch whose value is bound, and what follows it.
    LetJoin { bind: Bind, join: Box<CoreExpr>, body: Box<CoreExpr> },
    If { cond: LocalId, then: Box<CoreExpr>, els: Box<CoreExpr> },
    Match { scrut: LocalId, arms: Vec<Arm> },
    /// A case that arms of the body go to.
    LetCont { id: JoinId, cont: Box<CoreExpr>, body: Box<CoreExpr> },
    Goto(JoinId),
}

/// An arm of a match.
pub struct Arm {
    pub pat: CorePat,
    pub body: CoreExpr,
}

pub struct CoreFn {
    pub params: Vec<LocalId>,
    pub body: CoreExpr,
}

/// A function, and where it is from.
pub struct LoweredFn {
    pub module: String,
    pub name: String,
    pub core: CoreFn,
}

pub struct Program {
    pub fns: Vec<LoweredFn>,
    /// Each module's toplevel, in the order they run.
    pub inits: Vec<LoweredFn>,
    /// The entry file's toplevel.
    pub toplevel: LoweredFn,
    pub main: Option<FuncIdx>,
    pub globals: u32,
    pub consts: Vec<Const>,
}

/// The locals an atom reads.
pub open spec fn operands(a: Atom) -> Seq<LocalId> {
    match a {
        Atom::Local(l) => seq![l],
        Atom::Const(_) | Atom::Nil | Atom::Bool(_) | Atom::Load(_) => Seq::empty(),
        Atom::Closure { func_idx, captures } => captures@,
        Atom::Call { callee, args } => match callee {
            Callee::Local(l) => seq![l] + args@,
            _ => args@,
        },
        Atom::PrimOp { op, args } => args@,
        Atom::Intrinsic { intrinsic, args } => args@,
        Atom::Ctor { variant, fields, reuse } => match reuse {
            Some(l) => fields@.push(l),
            None => fields@,
        },
    }
}

/// The locals a pattern binds.
pub open spec fn bound(p: CorePat) -> Seq<LocalId> {
    match p {
        CorePat::Wild | CorePat::Lit(_) => Seq::empty(),
        CorePat::Bind(b) => seq![b.id],
        CorePat::Ctor { variant, fields } => Seq::new(fields@.len(), |i: int| fields@[i].id),
    }
}

pub open spec fn max(a: nat, b: nat) -> nat {
    if a >= b {
        a
    } else {
        b
    }
}

/// One past the highest of some locals.
pub open spec fn top_of(ls: Seq<LocalId>) -> nat
    decreases ls.len(),
{
    if ls.len() == 0 {
        0
    } else {
        max(top_of(ls.drop_last()), (ls.last().0 + 1) as nat)
    }
}

/// One past the highest local that an expression binds or reads.
pub open spec fn highest(e: CoreExpr) -> nat
    decreases e,
{
    match e {
        CoreExpr::Let { bind, rhs, body } => max(
            max((bind.id.0 + 1) as nat, top_of(operands(rhs))),
            highest(*body),
        ),
        CoreExpr::LetJoin { bind, join, body } => max(
            max((bind.id.0 + 1) as nat, highest(*join)),
            highest(*body),
        ),
        CoreExpr::LetCont { id, cont, body } => max(highest(*cont), highest(*body)),
        CoreExpr::Drop { local, body } => max((local.0 + 1) as nat, highest(*body)),
        CoreExpr::Match { scrut, arms } => max((scrut.0 + 1) as nat, highest_arms(arms@)),
        CoreExpr::If { cond, then, els } => max(
            max((cond.0 + 1) as nat, highest(*then)),
            highest(*els),
        ),
        CoreExpr::Tail(a) => top_of(operands(a)),
        CoreExpr::Goto(_) => 0,
    }
}

pub open spec fn highest_arms(arms: Seq<Arm>) -> nat
    decreases arms,
{
    if arms.len() == 0 {
        0
    } else {
        let last = arms[arms.len() - 1];
        max(highest_arms(arms.drop_last()), max(top_of(bound(last.pat)), highest(last.body)))
    }
}

proof fn lemma_top_add(a: Seq<LocalId>, b: Seq<LocalId>)
    ensures
        top_of(a + b) == max(top_of(a), top_of(b)),
    decreases b.len(),
{
    if b.len() == 0 {
        assert(a + b =~= a);
    } else {
        lemma_top_add(a, b.drop_last());
        assert((a + b).drop_last() =~= a + b.drop_last());
        assert((a + b).last() == b.last());
    }
}

proof fn lemma_top_one(l: LocalId)
    ensures
        top_of(seq![l]) == l.0 + 1,
{
    assert(seq![l].drop_last() =~= Seq::empty());
    assert(seq![l].last() == l);
    assert(top_of(Seq::<LocalId>::empty()) == 0);
}

fn note(top: u64, l: LocalId) -> (r: u64)
    requires
        top <= 0x1_0000_0000,
    ensures
        r == max(top as nat, (l.0 + 1) as nat),
        r <= 0x1_0000_0000,
{
    if top >= l.0 as u64 + 1 {
        top
    } else {
        l.0 as u64 + 1
    }
}

fn note_all(top: u64, ls: &Vec<LocalId>) -> (r: u64)
    requires
        top <= 0x1_0000_0000,
    ensures
        r == max(top as nat, top_of(ls@)),
        r <= 0x1_0000_0000,
{
    let mut t: u64 = top;
    let mut i: usize = 0;
    proof {
        assert(ls@.take(0) =~= Seq::empty());
    }
    while i < ls.len()
        invariant
            i <= ls@.len(),
            t == max(top as nat, top_of(ls@.take(i as int))),
            t <= 0x1_0000_0000,
        decreases ls@.len() - i,
    {
        t = note(t, ls[i]);
        proof {
            assert(ls@.take(i + 1).drop_last() =~= ls@.take(i as int));
            assert(ls@.take(i + 1).last() == ls@[i as int]);
        }
        i += 1;
    }
    proof {
        assert(ls@.take(i as int) =~= ls@);
    }
    t
}

fn note_operands(top: u64, a: &Atom) -> (r: u64)
    requires
        top <= 0x1_0000_0000,
    ensures
        r == max(top as nat, top_of(operands(*a))),
        r <= 0x1_0000_0000,
{
    match a {
        Atom::Local(l) => {
            proof {
                lemma_top_one(*l);
            }
            note(top, *l)
        },
        Atom::Closure { func_idx, captures } => note_all(top, captures),
        Atom::Call { callee, args } => match callee {
            Callee::Local(l) => {
                proof {
                    lemma_top_one(*l);
                    lemma_top_add(seq![*l], args@);
                }
                let t = note(top, *l);
                note_all(t, args)
            },
            _ => note_all(top, args),
        },
        Atom::PrimOp { op, args } => note_all(top, args),
        Atom::Intrinsic { intrinsic, args } => note_all(top, args),
        Atom::Ctor { variant, fields, reuse } => {
            let t = note_all(top, fields);
            match reuse {
                Some(l) => {
                    proof {
                        assert(fields@.push(*l).drop_last() =~= fields@);
                    }
                    note(t, *l)
                },
                None => t,
            }
        },
        _ => top,
    }
}

fn note_bound(top: u64, p: &CorePat) -> (r: u64)
    requires
        top <= 0x1_0000_0000,
    ensures
        r == max(top as nat, top_of(bound(*p))),
        r <= 0x1_0000_0000,
{
    match p {
        CorePat::Bind(b) => {
            proof {
                lemma_top_one(b.id);
            }
            note(top, b.id)
        },
        CorePat::Ctor { variant, fields } => {
            let ghost all = bound(*p);
            let mut t: u64 = top;
            let mut i: usize = 0;
            proof {
                assert(all.take(0) =~= Seq::empty());
            }
            while i < fields.len()
                invariant
                    i <= fields@.len(),
                    all == Seq::new(fields@.len(), |i: int| fields@[i].id),
                    t == max(top as nat, top_of(all.take(i as int))),
                    t <= 0x1_0000_0000,
                decreases fields@.len() - i,
            {
                t = note(t, fields[i].id);
                proof {
                    assert(all.take(i + 1).drop_last() =~= all.take(i as int));
                    assert(all.take(i + 1).last() == fields@[i as int].id);
                }
                i += 1;
            }
            proof {
                assert(all.take(i as int) =~= all);
            }
            t
        },
        _ => top,
    }
}

/// One past the highest local that an expression binds or reads. Only branches
/// go deeper on the stack: a chain of bindings is walked in place.
pub fn highest_local(e: &CoreExpr) -> (r: u64)
    ensures
        r == highest(*e),
        r <= 0x1_0000_0000,
    decreases *e,
{
    let mut top: u64 = 0;
    let mut cur: &CoreExpr = e;
    loop
        invariant
            top <= 0x1_0000_0000,
            highest(*e) == max(top as nat, highest(*cur)),
            cur == e || decreases_to!(*e => *cur),
        decreases *cur,
    {
        match cur {
            CoreExpr::Let { bind, rhs, body } => {
                let t = note(top, bind.id);
                top = note_operands(t, rhs);
                cur = body;
            },
            CoreExpr::LetJoin { bind, join, body } => {
                let t = note(top, bind.id);
                let inner = highest_local(join);
                top = larger(t, inner);
                cur = body;
            },
            CoreExpr::LetCont { id, cont, body } => {
                let inner = highest_local(cont);
                top = larger(top, inner);
                cur = body;
            },
            CoreExpr::Drop { local, body } => {
                top = note(top, *local);
                cur = body;
            },
            CoreExpr::Match { scrut, arms } => {
                let t = note(top, *scrut);
                let inner = highest_in_arms(arms);
                return larger(t, inner);
            },
            CoreExpr::If { cond, then, els } => {
                let t = note(top, *cond);
                let inner = highest_local(then);
                top = larger(t, inner);
                cur = els;
            },
            CoreExpr::Tail(a) => {
                return note_operands(top, a);
            },
            CoreExpr::Goto(_) => {
                return top;
            },
        }
    }
}

fn larger(a: u64, b: u64) -> (r: u64)
    ensures
        r == max(a as nat, b as nat),
{
    if a >= b {
        a
    } else {
        b
    }
}

fn highest_in_arms(arms: &Vec<Arm>) -> (r: u64)
    ensures
        r == highest_arms(arms@),
        r <= 0x1_0000_0000,
    decreases *arms,
{
    let mut top: u64 = 0;
    let mut i: usize = 0;
    proof {
        assert(arms@.take(0) =~= Seq::empty());
    }
    while i < arms.len()
        invariant
            i <= arms@.len(),
            top == highest_arms(arms@.take(i as int)),
            top <= 0x1_0000_0000,
        decreases arms@.len() - i,
    {
        let arm = &arms[i];
        proof {
            assert(decreases_to!(arms => arms@));
            assert(decreases_to!(arms@ => arms@[i as int]));
        }
        let inner = highest_local(&arm.body);
        let t = note_bound(top, &arm.pat);
        proof {
            assert(arms@.take(i + 1).drop_last() =~= arms@.take(i as int));
            assert(arms@.take(i + 1)[i as int] == arms@[i as int]);
        }
        top = larger(t, inner);
        i += 1;
    }
    proof {
        assert(arms@.take(i as int) =~= arms@);
    }
    top
}

/// One past the highest of some locals.
pub(crate) fn highest_of(ls: &Vec<LocalId>) -> (r: u64)
    ensures
        r == top_of(ls@),
        r <= 0x1_0000_0000,
{
    note_all(0, ls)
}

} // verus!
