//! The loader, which makes the machine's instructions from Core.
//!
//! A function becomes a flat list of register instructions, once, when the
//! program loads. A register is a local. A function that uses something the
//! machine does not run yet still loads, marked with what it needs, and only a
//! call to it stops the run.
//!
//! A `match` becomes one test per arm, in order: each jumps to the next arm's
//! test when its value does not fit the arm's pattern, and otherwise falls into
//! the arm, which reads out what the pattern binds. A case that arms share is
//! placed after them, and going to it is a jump.

use crate::text::{cat, decimal, push_decimal};
use crate::vm::bigint::IntOp;
use crate::vm::core_ir::{
    Arm, Atom, Bind, Callee, Const, ConstId, CoreExpr, CoreFn, CorePat, highest, highest_local,
    Intrinsic, JoinId, Load, LocalId, LoweredFn, max, PrimOp, Program, top_of,
};
use crate::vm::exec::{code_ok, func_ok};
use crate::vm::instr::{aim, aimed, Broken, Instr, Op, Reg};
use crate::vm::layout::law_loaded_function_is_fit;
use crate::vm::value::{FuncIdx, SMALL_MAX, SMALL_MIN, Value};
use std::collections::HashMap;
use vstd::prelude::*;

verus! {

broadcast use vstd::std_specs::hash::group_hash_axioms;

/// A line of code whose jump goes to a label.
pub struct Line {
    pub op: Op,
    pub to: Option<int>,
}

/// Code under way: its lines, where each label is once it is placed, the label
/// of each shared case, and one past the highest register.
pub struct Draft {
    pub lines: Seq<Line>,
    pub places: Seq<Option<int>>,
    pub conts: Map<u32, int>,
    pub next: nat,
}

impl Draft {
    pub open spec fn push(self, op: Op) -> Draft {
        Draft { lines: self.lines.push(Line { op, to: None }), ..self }
    }

    pub open spec fn jump(self, op: Op, label: int) -> Draft {
        Draft { lines: self.lines.push(Line { op, to: Some(label) }), ..self }
    }

    /// One label more, not placed yet.
    pub open spec fn with_label(self) -> Draft {
        Draft { places: self.places.push(None), ..self }
    }

    /// A label put at the next line.
    pub open spec fn place(self, label: int) -> Draft {
        Draft { places: self.places.update(label, Some(self.lines.len() as int)), ..self }
    }

    /// Where a label is, or 0 while it is nowhere.
    pub open spec fn address(self, label: int) -> int {
        match self.places[label] {
            Some(at) => at,
            None => 0,
        }
    }

    /// A line with its jump pointed where its label is.
    pub open spec fn line(self, i: int) -> Op {
        match self.lines[i].to {
            Some(l) => aimed(self.lines[i].op, self.address(l)),
            None => self.lines[i].op,
        }
    }

    /// The code, with every jump pointed.
    pub open spec fn code(self) -> Seq<Op> {
        Seq::new(self.lines.len(), |i: int| self.line(i))
    }
}

/// Where an expression's value goes.
#[derive(Clone, Copy, PartialEq, Eq, Structural, Debug)]
pub enum Dest {
    /// Returned from the function.
    Return,
    /// Written to `reg`, then on to the code at label `after`.
    Join { reg: Reg, after: usize },
}

/// What a function is loaded with: the program's constants, and its own index,
/// which a toplevel does not have.
pub struct Context {
    pub consts: Seq<Const>,
    pub this: Option<FuncIdx>,
}

pub open spec fn regs_of(ls: Seq<LocalId>) -> Seq<Reg> {
    Seq::new(ls.len(), |i: int| Reg(ls[i].0))
}

/// A known callee, the function itself among them.
pub open spec fn known_callee(x: Context, c: Callee) -> Option<FuncIdx> {
    match c {
        Callee::Known(f) => Some(f),
        Callee::Itself => x.this,
        Callee::Local(_) => None,
    }
}

pub open spec fn int_op_name(op: IntOp) -> Seq<char> {
    match op {
        IntOp::Add => "Add"@,
        IntOp::Sub => "Sub"@,
        IntOp::Mul => "Mul"@,
        IntOp::Div => "Div"@,
        IntOp::Rem => "Rem"@,
        IntOp::Eq => "Eq"@,
        IntOp::Ne => "Ne"@,
        IntOp::Lt => "Lt"@,
        IntOp::Le => "Le"@,
        IntOp::Gt => "Gt"@,
        IntOp::Ge => "Ge"@,
    }
}

/// The Int operation a primitive is.
pub open spec fn int_prim(op: PrimOp) -> Option<IntOp> {
    match op {
        PrimOp::IntAdd => Some(IntOp::Add),
        PrimOp::IntSub => Some(IntOp::Sub),
        PrimOp::IntMul => Some(IntOp::Mul),
        PrimOp::IntDiv => Some(IntOp::Div),
        PrimOp::IntRem => Some(IntOp::Rem),
        PrimOp::IntEq => Some(IntOp::Eq),
        PrimOp::IntNe => Some(IntOp::Ne),
        PrimOp::IntLt => Some(IntOp::Lt),
        PrimOp::IntLe => Some(IntOp::Le),
        PrimOp::IntGt => Some(IntOp::Gt),
        PrimOp::IntGe => Some(IntOp::Ge),
        _ => None,
    }
}

/// A primitive's instruction, or what the machine cannot do.
pub open spec fn prim_code(dst: Reg, op: PrimOp, args: Seq<LocalId>) -> Result<Op, Seq<char>> {
    match int_prim(op) {
        Some(op) => if args.len() == 2 {
            Ok(Op::Int { dst, op, a: Reg(args[0].0), b: Reg(args[1].0) })
        } else {
            Err(int_op_name(op) + " with other than two arguments"@)
        },
        None => match op {
            PrimOp::ToString => if args.len() == 1 {
                Ok(Op::ToString { dst, a: Reg(args[0].0) })
            } else {
                Err("ToString with other than one argument"@)
            },
            PrimOp::StringConcat | PrimOp::StringConcatMany => Ok(
                Op::Concat { dst, parts: regs_of(args) },
            ),
            PrimOp::IntNeg => if args.len() == 1 {
                Ok(Op::IntNeg { dst, a: Reg(args[0].0) })
            } else {
                Err("IntNeg with other than one argument"@)
            },
            PrimOp::FieldUnchecked(index) => if args.len() == 1 {
                Ok(Op::Field { dst, src: Reg(args[0].0), index })
            } else {
                Err("FieldUnchecked with other than one argument"@)
            },
            PrimOp::Other(name) => Err("the operation "@ + name@),
            _ => Err(Seq::empty()),
        },
    }
}

pub open spec fn no_const(i: u32) -> Seq<char> {
    "constant c"@ + decimal(i as nat) + ", which the program does not have"@
}

/// The UTF-8 of a text.
pub open spec fn utf8_bytes(s: String) -> Seq<u8> {
    vstd::utf8::encode_utf8(s@)
}

/// A constant's instruction.
pub open spec fn const_code(x: Context, dst: Reg, c: ConstId) -> Result<Op, Seq<char>> {
    if c.0 < x.consts.len() {
        match x.consts[c.0 as int] {
            Const::String(text) => Ok(Op::Str { dst, text: utf8_bytes(text) }),
            Const::Int(n) => if SMALL_MIN <= n <= SMALL_MAX {
                Ok(Op::Const { dst, value: Value { bits: small_bits(n) } })
            } else {
                Ok(Op::BigInt { dst, n })
            },
            Const::Float(_) => Err("Float"@),
            Const::Binary { .. } => Err("Binary"@),
        }
    } else {
        Err(no_const(c.0))
    }
}

/// A small Int's word.
pub open spec fn small_bits(n: i64) -> u64 {
    (0xFFF9_0000_0000_0000 + (if n < 0 {
        n + 0x1_0000_0000_0000
    } else {
        n as int
    })) as u64
}

/// An intrinsic's name.
pub open spec fn intrinsic_name(i: Intrinsic) -> Seq<char> {
    match i {
        Intrinsic::Println => "Println"@,
        Intrinsic::StringInspect => "StringInspect"@,
        Intrinsic::StringLength => "StringLength"@,
        Intrinsic::ArrayLength => "ArrayLength"@,
        Intrinsic::IntToString => "IntToString"@,
        Intrinsic::Other(name) => name@,
    }
}

/// An atom's instruction, which puts its value in `dst`, or what the machine
/// cannot do.
pub open spec fn atom_code(x: Context, dst: Reg, a: Atom) -> Result<Op, Seq<char>> {
    match a {
        Atom::Local(src) => Ok(Op::Move { dst, src: Reg(src.0) }),
        Atom::Const(c) => const_code(x, dst, c),
        Atom::Nil => Ok(Op::Const { dst, value: Value { bits: 0xFFFA_0000_0000_0000 } }),
        Atom::Bool(b) => Ok(
            Op::Const {
                dst,
                value: Value {
                    bits: if b {
                        0xFFFB_0000_0000_0001
                    } else {
                        0xFFFB_0000_0000_0000
                    },
                },
            },
        ),
        Atom::Load(Load::Global(slot)) => Ok(Op::GetGlobal { dst, slot }),
        Atom::Load(_) => Err("closures that capture"@),
        Atom::Closure { func_idx, captures } => if captures@.len() == 0 {
            Ok(
                Op::Const {
                    dst,
                    value: Value { bits: (0xFFFC_0000_0000_0000 + func_idx.0) as u64 },
                },
            )
        } else {
            Err("closures that capture"@)
        },
        Atom::Call { callee, args } => match known_callee(x, callee) {
            Some(func) => Ok(Op::Call { dst, func, args: regs_of(args@) }),
            None => Err("calling a function value"@),
        },
        Atom::PrimOp { op, args } => prim_code(dst, op, args@),
        Atom::Intrinsic { intrinsic, args } => if intrinsic is Println {
            if args@.len() == 1 {
                Ok(Op::Println { dst, arg: Reg(args@[0].0) })
            } else {
                Err("println with other than one argument"@)
            }
        } else {
            Err("the built-in "@ + intrinsic_name(intrinsic))
        },
        Atom::Ctor { variant, fields, reuse } => if fields@.len() == 0 {
            Ok(
                Op::Const {
                    dst,
                    value: Value {
                        bits: (0xFFFE_0000_0000_0000 + crate::vm::value::variant_bits(
                            variant,
                        )) as u64,
                    },
                },
            )
        } else {
            Ok(Op::Ctor { dst, variant, fields: regs_of(fields@) })
        },
    }
}

pub open spec fn with_atom(x: Context, a: Draft, dst: Reg, atom: Atom) -> Result<Draft, Seq<char>> {
    match atom_code(x, dst, atom) {
        Ok(op) => Ok(a.push(op)),
        Err(what) => Err(what),
    }
}

/// The reads of the first `n` fields that a pattern binds.
pub open spec fn with_fields(a: Draft, src: Reg, fields: Seq<Bind>, n: nat) -> Draft
    decreases n,
{
    if n == 0 {
        a
    } else {
        let b = with_fields(a, src, fields, (n - 1) as nat);
        b.push(Op::Field { dst: Reg(fields[n - 1].id.0), src, index: (n - 1) as u16 })
    }
}

/// The test of `src` against a pattern, which jumps to `label` when it does not
/// fit, and the reads of what the pattern binds.
pub open spec fn pattern_code(x: Context, a: Draft, src: Reg, p: CorePat, label: int) -> Result<
    Draft,
    Seq<char>,
> {
    match p {
        CorePat::Wild => Ok(a),
        CorePat::Bind(b) => Ok(a.push(Op::Move { dst: Reg(b.id.0), src })),
        CorePat::Ctor { variant, fields } => if fields@.len() <= 0x1_0000 {
            Ok(
                with_fields(
                    a.jump(Op::JumpUnlessVariant { src, variant, to: 0 }, label),
                    src,
                    fields@,
                    fields@.len(),
                ),
            )
        } else {
            Err("a constructor with more than 65535 fields"@)
        },
        CorePat::Lit(c) => if c.0 < x.consts.len() {
            match x.consts[c.0 as int] {
                Const::Int(n) => Ok(a.jump(Op::JumpUnlessInt { src, n, to: 0 }, label)),
                Const::String(text) => Ok(
                    a.jump(Op::JumpUnlessStr { src, text: utf8_bytes(text), to: 0 }, label),
                ),
                Const::Float(_) => Err("matching a Float"@),
                Const::Binary { .. } => Err("matching a Binary"@),
            }
        } else {
            Err(no_const(c.0))
        },
    }
}

pub open spec fn with_global(a: Draft, b: Bind) -> Draft {
    match b.global {
        Some(slot) => a.push(Op::SetGlobal { slot, src: Reg(b.id.0) }),
        None => a,
    }
}

pub open spec fn too_many_registers() -> Seq<char> {
    "more registers than a frame can have"@
}

/// A tail: a return, a tail call, or a value for what follows.
pub open spec fn tail_code(x: Context, a: Draft, atom: Atom, dest: Dest) -> Result<Draft, Seq<char>> {
    match dest {
        Dest::Return => match called(x, atom) {
            Some((func, args)) => Ok(a.push(Op::TailCall { func, args: regs_of(args) })),
            None => if a.next > u32::MAX {
                Err(too_many_registers())
            } else {
                let src = Reg(a.next as u32);
                match with_atom(x, Draft { next: a.next + 1, ..a }, src, atom) {
                    Ok(b) => Ok(b.push(Op::Ret { src })),
                    Err(what) => Err(what),
                }
            },
        },
        Dest::Join { reg, after } => match with_atom(x, a, reg, atom) {
            Ok(b) => Ok(b.jump(Op::Jump { to: 0 }, after as int)),
            Err(what) => Err(what),
        },
    }
}

/// A call of a known function.
pub open spec fn called(x: Context, atom: Atom) -> Option<(FuncIdx, Seq<LocalId>)> {
    match atom {
        Atom::Call { callee, args } => match known_callee(x, callee) {
            Some(f) => Some((f, args@)),
            None => None,
        },
        _ => None,
    }
}

/// The code of an expression, after the code so far.
pub open spec fn expr_code(x: Context, a: Draft, e: CoreExpr, dest: Dest) -> Result<Draft, Seq<char>>
    decreases e,
{
    match e {
        CoreExpr::Let { bind, rhs, body } => match with_atom(x, a, Reg(bind.id.0), rhs) {
            Ok(b) => expr_code(x, with_global(b, bind), *body, dest),
            Err(what) => Err(what),
        },
        CoreExpr::Drop { local, body } => expr_code(
            x,
            a.push(Op::Drop { reg: Reg(local.0) }),
            *body,
            dest,
        ),
        CoreExpr::Tail(atom) => tail_code(x, a, atom, dest),
        CoreExpr::LetJoin { bind, join, body } => {
            let after = a.places.len() as int;
            match expr_code(
                x,
                a.with_label(),
                *join,
                Dest::Join { reg: Reg(bind.id.0), after: after as usize },
            ) {
                Ok(b) => expr_code(x, with_global(b.place(after), bind), *body, dest),
                Err(what) => Err(what),
            }
        },
        CoreExpr::If { cond, then, els } => {
            let otherwise = a.places.len() as int;
            let tested = a.with_label().jump(
                Op::JumpIfFalse { cond: Reg(cond.0), to: 0 },
                otherwise,
            );
            match expr_code(x, tested, *then, dest) {
                Ok(b) => expr_code(x, b.place(otherwise), *els, dest),
                Err(what) => Err(what),
            }
        },
        CoreExpr::Match { scrut, arms } => match arms_code(x, a, Reg(scrut.0), arms@, dest) {
            Ok(b) => Ok(b.push(Op::Bad { why: Broken::NoArm })),
            Err(what) => Err(what),
        },
        CoreExpr::LetCont { id, cont, body } => {
            let l = a.places.len() as int;
            let b = a.with_label();
            match expr_code(x, Draft { conts: b.conts.insert(id.0, l), ..b }, *body, dest) {
                Ok(c) => expr_code(x, c.place(l), *cont, dest),
                Err(what) => Err(what),
            }
        },
        CoreExpr::Goto(id) => Ok(
            if a.conts.dom().contains(id.0) {
                a.jump(Op::Jump { to: 0 }, a.conts[id.0])
            } else {
                a.push(Op::Bad { why: Broken::NoCase })
            },
        ),
    }
}

/// The code of a match's arms, in order.
pub open spec fn arms_code(x: Context, a: Draft, src: Reg, arms: Seq<Arm>, dest: Dest) -> Result<
    Draft,
    Seq<char>,
>
    decreases arms,
{
    if arms.len() == 0 {
        Ok(a)
    } else {
        let arm = arms[arms.len() - 1];
        match arms_code(x, a, src, arms.drop_last(), dest) {
            Ok(b) => {
                let l = b.places.len() as int;
                match pattern_code(x, b.with_label(), src, arm.pat, l) {
                    Ok(c) => match expr_code(x, c, arm.body, dest) {
                        Ok(d) => Ok(d.place(l)),
                        Err(what) => Err(what),
                    },
                    Err(what) => Err(what),
                }
            },
            Err(what) => Err(what),
        }
    }
}

/// What cannot be done in one of the arms cannot be done.
proof fn lemma_arms_err(x: Context, a: Draft, src: Reg, arms: Seq<Arm>, dest: Dest, n: int)
    requires
        0 <= n <= arms.len(),
        arms_code(x, a, src, arms.take(n), dest) is Err,
    ensures
        arms_code(x, a, src, arms, dest) == arms_code(x, a, src, arms.take(n), dest),
    decreases arms.len() - n,
{
    if n == arms.len() {
        assert(arms.take(n) =~= arms);
    } else {
        assert(arms.take(n + 1).drop_last() =~= arms.take(n));
        lemma_arms_err(x, a, src, arms, dest, n + 1);
    }
}

/// A label: where it is once it is placed, and the jumps still waiting for it.
struct Label {
    at: Option<usize>,
    waiting: Vec<usize>,
}

/// A loader at work on one function.
struct Loader<'c> {
    consts: &'c Vec<Const>,
    this: Option<FuncIdx>,
    instrs: Vec<Instr>,
    labels: Vec<Label>,
    /// The label of each shared case.
    conts: HashMap<u32, usize>,
    /// One past the highest register the function names.
    next: u64,
    draft: Ghost<Draft>,
}

impl<'c> Loader<'c> {
    spec fn context(self) -> Context {
        Context { consts: self.consts@, this: self.this }
    }

    spec fn wf(self) -> bool {
        let a = self.draft@;
        &&& self.instrs@.len() == a.lines.len()
        &&& self.labels@.len() == a.places.len()
        &&& forall|i: int|
            #![trigger self.instrs@[i]]
            0 <= i < a.lines.len() ==> self.instrs@[i].op() == a.line(i)
        &&& forall|i: int|
            #![trigger a.lines[i]]
            0 <= i < a.lines.len() ==> (a.lines[i].to matches Some(l) ==> 0 <= l < a.places.len())
        &&& forall|l: int| #![trigger self.labels@[l]] 0 <= l < a.places.len() ==> self.label_ok(l)
        &&& forall|k: u32|
            #![trigger self.conts@.dom().contains(k)]
            #![trigger a.conts.dom().contains(k)]
            self.conts@.dom().contains(k) <==> a.conts.dom().contains(k)
        &&& forall|k: u32| #[trigger]
            a.conts.dom().contains(k) ==> self.conts@[k] == a.conts[k] && 0 <= a.conts[k]
                < a.places.len()
        &&& self.next == a.next
        &&& a.next <= 0x1_0000_0000
    }

    /// A label is where it should be, and knows who waits for it.
    spec fn label_ok(self, l: int) -> bool {
        let a = self.draft@;
        let lab = self.labels@[l];
        &&& match a.places[l] {
            Some(at) => lab.at matches Some(x) && x == at,
            None => lab.at is None,
        }
        &&& a.places[l] is None ==> waits(a, lab.waiting@, l)
    }

    spec fn same_place(self, other: Self) -> bool {
        &&& self.consts == other.consts
        &&& self.this == other.this
    }
}

/// The lines that wait for label `l` are those listed.
spec fn waits(a: Draft, waiting: Seq<usize>, l: int) -> bool {
    &&& forall|i: int|
        #![trigger a.lines[i]]
        0 <= i < a.lines.len() && a.lines[i].to == Some(l) ==> waiting.contains(i as usize) && i
            <= usize::MAX
    &&& forall|j: int|
        #![trigger waiting[j]]
        0 <= j < waiting.len() ==> waiting[j] < a.lines.len() && a.lines[waiting[j] as int].to
            == Some(l)
}

impl<'c> Loader<'c> {
    fn push(&mut self, i: Instr)
        requires
            old(self).wf(),
        ensures
            final(self).wf(),
            final(self).draft@ == old(self).draft@.push(i.op()),
            final(self).same_place(*old(self)),
    {
        let ghost a = self.draft@;
        let ghost op = i.op();
        self.instrs.push(i);
        proof {
            self.draft@ = a.push(op);
            let b = self.draft@;
            assert forall|k: int| 0 <= k < b.lines.len() implies #[trigger] self.instrs@[k].op()
                == b.line(k) by {
                if k < a.lines.len() {
                    assert(old(self).instrs@[k].op() == a.line(k));
                    assert(b.lines[k] == a.lines[k]);
                }
            }
            assert forall|l: int| #![trigger self.labels@[l]]
                0 <= l < b.places.len() implies self.label_ok(l) by {
                assert(old(self).labels@[l] == self.labels@[l]);
                assert(old(self).label_ok(l));
                if b.places[l] is None {
                    lemma_waits_other(a, b, self.labels@[l].waiting@, l);
                }
            }
            assert forall|k: int| #![trigger b.lines[k]]
                0 <= k < b.lines.len() implies (b.lines[k].to matches Some(l) ==> 0 <= l
                < b.places.len()) by {
                if k < a.lines.len() {
                    assert(b.lines[k] == a.lines[k]);
                }
            }
        }
    }

    /// A new label.
    fn label(&mut self) -> (r: usize)
        requires
            old(self).wf(),
        ensures
            final(self).wf(),
            r == old(self).draft@.places.len(),
            final(self).draft@ == old(self).draft@.with_label(),
            final(self).same_place(*old(self)),
    {
        let ghost a = self.draft@;
        let l: usize = self.labels.len();
        self.labels.push(Label { at: None, waiting: Vec::new() });
        proof {
            self.draft@ = a.with_label();
            let b = self.draft@;
            assert forall|k: int| 0 <= k < b.lines.len() implies #[trigger] self.instrs@[k].op()
                == b.line(k) by {
                assert(old(self).instrs@[k].op() == a.line(k));
                assert(a.lines[k] == b.lines[k]);
            }
            assert forall|m: int| #![trigger self.labels@[m]]
                0 <= m < b.places.len() implies self.label_ok(m) by {
                if m < a.places.len() {
                    assert(old(self).labels@[m] == self.labels@[m]);
                    assert(old(self).label_ok(m));
                    if b.places[m] is None {
                        assert forall|i: int| #![trigger b.lines[i]]
                            0 <= i < b.lines.len() && b.lines[i].to == Some(
                                m,
                            ) implies self.labels@[m].waiting@.contains(i as usize) && i
                            <= usize::MAX by {
                            assert(a.lines[i].to == Some(m));
                        }
                    }
                } else {
                    assert forall|i: int| #![trigger b.lines[i]]
                        0 <= i < b.lines.len() implies b.lines[i].to != Some(m) by {
                        assert(a.lines[i].to == b.lines[i].to);
                    }
                }
            }
        }
        l
    }

    /// Push a jump to `l`, pointed when `l` is placed if it is not yet.
    fn jump(&mut self, l: usize, i: Instr)
        requires
            old(self).wf(),
            l < old(self).draft@.places.len(),
        ensures
            final(self).wf(),
            final(self).draft@ == old(self).draft@.jump(i.op(), l as int),
            final(self).same_place(*old(self)),
    {
        let ghost a = self.draft@;
        let ghost op = i.op();
        let mut i = i;
        let n: usize = self.instrs.len();
        let at = self.labels[l].at;
        proof {
            assert(self.labels@[l as int] == old(self).labels@[l as int]);
            assert(self.label_ok(l as int));
        }
        match at {
            Some(to) => {
                aim(&mut i, to);
            },
            None => {
                aim(&mut i, 0);
                self.labels[l].waiting.push(n);
            },
        }
        self.instrs.push(i);
        proof {
            self.draft@ = a.jump(op, l as int);
            let b = self.draft@;
            assert forall|k: int| 0 <= k < b.lines.len() implies #[trigger] self.instrs@[k].op()
                == b.line(k) by {
                if k < a.lines.len() {
                    assert(old(self).instrs@[k].op() == a.line(k));
                    assert(b.lines[k] == a.lines[k]);
                }
            }
            assert forall|m: int| #![trigger self.labels@[m]]
                0 <= m < b.places.len() implies self.label_ok(m) by {
                assert(old(self).label_ok(m)) by {
                    assert(old(self).labels@[m] == old(self).labels@[m]);
                }
                if m != l {
                    assert(old(self).labels@[m] == self.labels@[m]);
                    if b.places[m] is None {
                        lemma_waits_other(a, b, self.labels@[m].waiting@, m);
                    }
                } else if b.places[m] is None {
                    lemma_waits_more(a, b, old(self).labels@[m].waiting@, n, m);
                }
            }
            assert forall|k: int| #![trigger b.lines[k]]
                0 <= k < b.lines.len() implies (b.lines[k].to matches Some(l) ==> 0 <= l
                < b.places.len()) by {
                if k < a.lines.len() {
                    assert(b.lines[k] == a.lines[k]);
                }
            }
        }
    }

    /// Put `l` at the next instruction, and point every jump to it there.
    fn place(&mut self, l: usize)
        requires
            old(self).wf(),
            l < old(self).draft@.places.len(),
            old(self).draft@.places[l as int] is None,
        ensures
            final(self).wf(),
            final(self).draft@ == old(self).draft@.place(l as int),
            final(self).same_place(*old(self)),
    {
        let ghost a = self.draft@;
        let ghost b = a.place(l as int);
        let here: usize = self.instrs.len();
        let mut waiting: Vec<usize> = Vec::new();
        proof {
            assert(self.labels@[l as int] == old(self).labels@[l as int]);
            assert(self.label_ok(l as int));
        }
        std::mem::swap(&mut self.labels[l].waiting, &mut waiting);
        self.labels[l].at = Some(here);
        let ghost list = waiting@;
        let mut k: usize = 0;
        proof {
            assert(waits(a, list, l as int));
        }
        while k < waiting.len()
            invariant
                k <= waiting@.len(),
                waiting@ == list,
                waits(a, list, l as int),
                here == a.lines.len(),
                self.instrs@.len() == a.lines.len(),
                forall|i: int|
                    #![trigger self.instrs@[i]]
                    0 <= i < a.lines.len() ==> self.instrs@[i].op() == (if list.take(
                        k as int,
                    ).contains(i as usize) && i <= usize::MAX {
                        aimed(a.line(i), here as int)
                    } else {
                        a.line(i)
                    }),
                self.consts == old(self).consts,
                self.this == old(self).this,
                self.conts == old(self).conts,
                self.next == old(self).next,
                self.draft@ == a,
                self.labels@.len() == a.places.len(),
                forall|m: int|
                    #![trigger self.labels@[m]]
                    0 <= m < a.places.len() && m != l ==> self.labels@[m]
                        == old(self).labels@[m],
                self.labels@[l as int].at == Some(here),
                l < a.places.len(),
            decreases waiting@.len() - k,
        {
            let ghost before = self.instrs@;
            let i = waiting[k];
            proof {
                assert(list[k as int] < a.lines.len());
                assert(list.take(k + 1) =~= list.take(k as int).push(i));
            }
            aim(&mut self.instrs[i], here);
            proof {
                assert forall|j: int| #![trigger self.instrs@[j]]
                    0 <= j < a.lines.len() implies self.instrs@[j].op() == (if list.take(
                    k + 1,
                ).contains(j as usize) && j <= usize::MAX {
                    aimed(a.line(j), here as int)
                } else {
                    a.line(j)
                }) by {
                    lemma_taken(list, k as int, j as usize);
                    assert(before[j].op() == (if list.take(k as int).contains(j as usize) && j
                        <= usize::MAX {
                        aimed(a.line(j), here as int)
                    } else {
                        a.line(j)
                    }));
                }
            }
            k += 1;
        }
        proof {
            assert(list.take(k as int) =~= list);
            self.draft@ = b;
            assert forall|i: int| #![trigger self.instrs@[i]]
                0 <= i < b.lines.len() implies self.instrs@[i].op() == b.line(i) by {
                assert(b.lines[i] == a.lines[i]);
                if a.lines[i].to == Some(l as int) {
                    assert(list.contains(i as usize));
                } else if list.contains(i as usize) && i <= usize::MAX {
                    let j = choose|j: int| 0 <= j < list.len() && list[j] == i as usize;
                    assert(a.lines[list[j] as int].to == Some(l as int));
                }
            }
            assert forall|m: int| #![trigger self.labels@[m]]
                0 <= m < b.places.len() implies self.label_ok(m) by {
                if m != l {
                    assert(old(self).labels@[m] == self.labels@[m]);
                    assert(old(self).label_ok(m));
                    if b.places[m] is None {
                        assert forall|i: int| #![trigger b.lines[i]]
                            0 <= i < b.lines.len() && b.lines[i].to == Some(
                                m,
                            ) implies self.labels@[m].waiting@.contains(i as usize) && i
                            <= usize::MAX by {
                            assert(a.lines[i].to == Some(m));
                        }
                    }
                }
            }
        }
    }
}

proof fn lemma_taken(list: Seq<usize>, k: int, x: usize)
    requires
        0 <= k < list.len(),
    ensures
        list.take(k + 1).contains(x) <==> list.take(k).contains(x) || list[k] == x,
{
    let a = list.take(k);
    let b = list.take(k + 1);
    if b.contains(x) {
        let j = choose|j: int| 0 <= j < b.len() && b[j] == x;
        if j < k {
            assert(a[j] == x);
        }
    }
    if a.contains(x) {
        let j = choose|j: int| 0 <= j < a.len() && a[j] == x;
        assert(b[j] == x);
    }
    if list[k] == x {
        assert(b[k] == x);
    }
}

/// A line that goes elsewhere changes nothing for a label.
proof fn lemma_waits_other(a: Draft, b: Draft, waiting: Seq<usize>, l: int)
    requires
        waits(a, waiting, l),
        b.lines.len() == a.lines.len() + 1,
        forall|i: int| #![trigger b.lines[i]] 0 <= i < a.lines.len() ==> b.lines[i] == a.lines[i],
        b.lines[a.lines.len() as int].to != Some(l),
    ensures
        waits(b, waiting, l),
{
    assert forall|i: int| #![trigger b.lines[i]]
        0 <= i < b.lines.len() && b.lines[i].to == Some(l) implies waiting.contains(i as usize) && i
        <= usize::MAX by {
        assert(a.lines[i] == b.lines[i]);
    }
    assert forall|j: int| #![trigger waiting[j]]
        0 <= j < waiting.len() implies waiting[j] < b.lines.len() && b.lines[waiting[j] as int].to
        == Some(l) by {
        assert(a.lines[waiting[j] as int].to == Some(l));
        assert(b.lines[waiting[j] as int] == a.lines[waiting[j] as int]);
    }
}

/// A line that goes to a label waits for it.
proof fn lemma_waits_more(a: Draft, b: Draft, waiting: Seq<usize>, n: usize, l: int)
    requires
        waits(a, waiting, l),
        n == a.lines.len(),
        b.lines.len() == a.lines.len() + 1,
        forall|i: int| #![trigger b.lines[i]] 0 <= i < a.lines.len() ==> b.lines[i] == a.lines[i],
        b.lines[n as int].to == Some(l),
    ensures
        waits(b, waiting.push(n), l),
{
    let more = waiting.push(n);
    assert forall|i: int| #![trigger b.lines[i]]
        0 <= i < b.lines.len() && b.lines[i].to == Some(l) implies more.contains(i as usize) && i
        <= usize::MAX by {
        if i < n {
            assert(a.lines[i] == b.lines[i]);
            let j = choose|j: int| 0 <= j < waiting.len() && waiting[j] == i as usize;
            assert(more[j] == i as usize);
        } else {
            assert(more[waiting.len() as int] == n);
        }
    }
    assert forall|j: int| #![trigger more[j]]
        0 <= j < more.len() implies more[j] < b.lines.len() && b.lines[more[j] as int].to == Some(
        l,
    ) by {
        if j < waiting.len() {
            assert(a.lines[waiting[j] as int].to == Some(l));
            assert(b.lines[waiting[j] as int] == a.lines[waiting[j] as int]);
        }
    }
}

/// Code only grows: what labels there were are where they were.
pub open spec fn grown(a: Draft, b: Draft) -> bool {
    &&& a.places.len() <= b.places.len()
    &&& forall|l: int| 0 <= l < a.places.len() ==> #[trigger] b.places[l] == a.places[l]
}

proof fn lemma_fields_grow(a: Draft, src: Reg, fields: Seq<Bind>, n: nat)
    ensures
        with_fields(a, src, fields, n).places == a.places,
    decreases n,
{
    if n > 0 {
        lemma_fields_grow(a, src, fields, (n - 1) as nat);
    }
}

pub proof fn lemma_pattern_grows(x: Context, a: Draft, src: Reg, p: CorePat, l: int)
    ensures
        pattern_code(x, a, src, p, l) matches Ok(b) ==> b.places == a.places,
{
    match p {
        CorePat::Ctor { variant, fields } => {
            lemma_fields_grow(
                a.jump(Op::JumpUnlessVariant { src, variant, to: 0 }, l),
                src,
                fields@,
                fields@.len(),
            );
        },
        _ => {},
    }
}

pub proof fn lemma_expr_grows(x: Context, a: Draft, e: CoreExpr, dest: Dest)
    ensures
        expr_code(x, a, e, dest) matches Ok(b) ==> grown(a, b),
    decreases e,
{
    match e {
        CoreExpr::Let { bind, rhs, body } => {
            if let Ok(b) = with_atom(x, a, Reg(bind.id.0), rhs) {
                lemma_expr_grows(x, with_global(b, bind), *body, dest);
            }
        },
        CoreExpr::Drop { local, body } => {
            lemma_expr_grows(x, a.push(Op::Drop { reg: Reg(local.0) }), *body, dest);
        },
        CoreExpr::Tail(_) => {},
        CoreExpr::LetJoin { bind, join, body } => {
            let after = a.places.len() as int;
            let d = Dest::Join { reg: Reg(bind.id.0), after: after as usize };
            lemma_expr_grows(x, a.with_label(), *join, d);
            if let Ok(b) = expr_code(x, a.with_label(), *join, d) {
                lemma_expr_grows(x, with_global(b.place(after), bind), *body, dest);
                if let Ok(c) = expr_code(x, with_global(b.place(after), bind), *body, dest) {
                    lemma_grown_around(a, b, c, after);
                }
            }
        },
        CoreExpr::If { cond, then, els } => {
            let otherwise = a.places.len() as int;
            let tested = a.with_label().jump(
                Op::JumpIfFalse { cond: Reg(cond.0), to: 0 },
                otherwise,
            );
            lemma_expr_grows(x, tested, *then, dest);
            if let Ok(b) = expr_code(x, tested, *then, dest) {
                lemma_expr_grows(x, b.place(otherwise), *els, dest);
                if let Ok(c) = expr_code(x, b.place(otherwise), *els, dest) {
                    lemma_grown_around(a, b, c, otherwise);
                }
            }
        },
        CoreExpr::Match { scrut, arms } => {
            lemma_arms_grow(x, a, Reg(scrut.0), arms@, dest);
        },
        CoreExpr::LetCont { id, cont, body } => {
            let l = a.places.len() as int;
            let w = a.with_label();
            let start = Draft { conts: w.conts.insert(id.0, l), ..w };
            lemma_expr_grows(x, start, *body, dest);
            if let Ok(b) = expr_code(x, start, *body, dest) {
                lemma_expr_grows(x, b.place(l), *cont, dest);
                if let Ok(c) = expr_code(x, b.place(l), *cont, dest) {
                    lemma_grown_around(a, b, c, l);
                }
            }
        },
        CoreExpr::Goto(_) => {},
    }
}

/// A new label that is placed leaves the others.
proof fn lemma_grown_around(a: Draft, b: Draft, c: Draft, l: int)
    requires
        l == a.places.len(),
        b.places.len() > l,
        forall|k: int| 0 <= k < l ==> #[trigger] b.places[k] == a.places[k],
        b.places.len() <= c.places.len(),
        forall|k: int|
            0 <= k < b.places.len() ==> #[trigger] c.places[k] == b.place(l).places[k],
    ensures
        grown(a, c),
{
    assert forall|k: int| 0 <= k < a.places.len() implies #[trigger] c.places[k] == a.places[k] by {
        assert(c.places[k] == b.place(l).places[k]);
        assert(b.places[k] == a.places[k]);
    }
}

pub proof fn lemma_arms_grow(x: Context, a: Draft, src: Reg, arms: Seq<Arm>, dest: Dest)
    ensures
        arms_code(x, a, src, arms, dest) matches Ok(b) ==> grown(a, b),
    decreases arms,
{
    if arms.len() > 0 {
        let arm = arms[arms.len() - 1];
        lemma_arms_grow(x, a, src, arms.drop_last(), dest);
        if let Ok(b) = arms_code(x, a, src, arms.drop_last(), dest) {
            let l = b.places.len() as int;
            lemma_pattern_grows(x, b.with_label(), src, arm.pat, l);
            if let Ok(c) = pattern_code(x, b.with_label(), src, arm.pat, l) {
                lemma_expr_grows(x, c, arm.body, dest);
                if let Ok(d) = expr_code(x, c, arm.body, dest) {
                    assert forall|k: int| 0 <= k < a.places.len() implies #[trigger] d.place(
                        l,
                    ).places[k] == a.places[k] by {
                        assert(d.places[k] == c.places[k]);
                        assert(b.places[k] == a.places[k]);
                    }
                }
            }
        }
    }
}

/// The registers of locals.
fn regs(ls: &Vec<LocalId>) -> (r: Vec<Reg>)
    ensures
        r@ == regs_of(ls@),
{
    let mut out: Vec<Reg> = Vec::new();
    let mut i: usize = 0;
    while i < ls.len()
        invariant
            i <= ls@.len(),
            out@ == regs_of(ls@).take(i as int),
        decreases ls@.len() - i,
    {
        out.push(Reg::of(ls[i]));
        proof {
            assert(regs_of(ls@).take(i + 1) =~= regs_of(ls@).take(i as int).push(
                regs_of(ls@)[i as int],
            ));
        }
        i += 1;
    }
    proof {
        assert(regs_of(ls@).take(i as int) =~= regs_of(ls@));
    }
    out
}

fn missing_const(c: ConstId) -> (r: String)
    ensures
        r@ == no_const(c.0),
{
    let mut s = "constant c".to_owned();
    push_decimal(&mut s, c.0 as u64);
    cat(s.as_str(), ", which the program does not have")
}

fn name_of_op(op: IntOp) -> (r: &'static str)
    ensures
        r@ == int_op_name(op),
{
    match op {
        IntOp::Add => "Add",
        IntOp::Sub => "Sub",
        IntOp::Mul => "Mul",
        IntOp::Div => "Div",
        IntOp::Rem => "Rem",
        IntOp::Eq => "Eq",
        IntOp::Ne => "Ne",
        IntOp::Lt => "Lt",
        IntOp::Le => "Le",
        IntOp::Gt => "Gt",
        IntOp::Ge => "Ge",
    }
}

fn int_instr(dst: Reg, op: IntOp, args: &Vec<LocalId>) -> (r: Result<Instr, String>)
    ensures
        match r {
            Ok(i) => args@.len() == 2 && i.op() == (Op::Int {
                dst,
                op,
                a: Reg(args@[0].0),
                b: Reg(args@[1].0),
            }),
            Err(s) => args@.len() != 2 && s@ == int_op_name(op) + " with other than two arguments"@,
        },
{
    if args.len() == 2 {
        Ok(Instr::Int { dst, op, a: Reg::of(args[0]), b: Reg::of(args[1]) })
    } else {
        Err(cat(name_of_op(op), " with other than two arguments"))
    }
}

/// An instruction, or what the machine cannot do, as the scheme says.
pub open spec fn as_said(r: Result<Instr, String>, want: Result<Op, Seq<char>>) -> bool {
    match (r, want) {
        (Ok(i), Ok(op)) => i.op() == op,
        (Err(s), Err(w)) => s@ == w,
        _ => false,
    }
}

/// A primitive's instruction.
fn prim(dst: Reg, op: &PrimOp, args: &Vec<LocalId>) -> (r: Result<Instr, String>)
    ensures
        as_said(r, prim_code(dst, *op, args@)),
{
    match op {
        PrimOp::IntAdd => int_instr(dst, IntOp::Add, args),
        PrimOp::IntSub => int_instr(dst, IntOp::Sub, args),
        PrimOp::IntMul => int_instr(dst, IntOp::Mul, args),
        PrimOp::IntDiv => int_instr(dst, IntOp::Div, args),
        PrimOp::IntRem => int_instr(dst, IntOp::Rem, args),
        PrimOp::IntEq => int_instr(dst, IntOp::Eq, args),
        PrimOp::IntNe => int_instr(dst, IntOp::Ne, args),
        PrimOp::IntLt => int_instr(dst, IntOp::Lt, args),
        PrimOp::IntLe => int_instr(dst, IntOp::Le, args),
        PrimOp::IntGt => int_instr(dst, IntOp::Gt, args),
        PrimOp::IntGe => int_instr(dst, IntOp::Ge, args),
        PrimOp::ToString => if args.len() == 1 {
            Ok(Instr::ToString { dst, a: Reg::of(args[0]) })
        } else {
            Err("ToString with other than one argument".to_owned())
        },
        PrimOp::StringConcat => Ok(Instr::Concat { dst, parts: regs(args) }),
        PrimOp::StringConcatMany => Ok(Instr::Concat { dst, parts: regs(args) }),
        PrimOp::IntNeg => if args.len() == 1 {
            Ok(Instr::IntNeg { dst, a: Reg::of(args[0]) })
        } else {
            Err("IntNeg with other than one argument".to_owned())
        },
        PrimOp::FieldUnchecked(index) => if args.len() == 1 {
            Ok(Instr::Field { dst, src: Reg::of(args[0]), index: *index })
        } else {
            Err("FieldUnchecked with other than one argument".to_owned())
        },
        PrimOp::Other(name) => Err(cat("the operation ", name.as_str())),
    }
}

fn name_of_intrinsic(i: &Intrinsic) -> (r: &str)
    ensures
        r@ == intrinsic_name(*i),
{
    match i {
        Intrinsic::Println => "Println",
        Intrinsic::StringInspect => "StringInspect",
        Intrinsic::StringLength => "StringLength",
        Intrinsic::ArrayLength => "ArrayLength",
        Intrinsic::IntToString => "IntToString",
        Intrinsic::Other(name) => name.as_str(),
    }
}

fn bytes_of(s: &String) -> (r: Vec<u8>)
    ensures
        r@ == utf8_bytes(*s),
{
    let all = s.as_str().as_bytes();
    let mut out: Vec<u8> = Vec::new();
    let mut i: usize = 0;
    while i < all.len()
        invariant
            i <= all@.len(),
            out@ == all@.take(i as int),
        decreases all@.len() - i,
    {
        out.push(all[i]);
        proof {
            assert(all@.take(i + 1) =~= all@.take(i as int).push(all@[i as int]));
        }
        i += 1;
    }
    proof {
        assert(all@.take(i as int) =~= all@);
    }
    out
}

/// The words of values that are one word.
proof fn lemma_word_values(v: Value, w: Value)
    requires
        v.ok(),
        w.ok(),
        v.spec_view() == w.spec_view(),
    ensures
        v == w,
{
    crate::vm::value::law_one_word_each(v.bits, w.bits);
}

impl<'c> Loader<'c> {
    /// A known callee, with `self` resolved to this function.
    fn known(&self, callee: &Callee) -> (r: Option<FuncIdx>)
        ensures
            r == known_callee(self.context(), *callee),
    {
        match callee {
            Callee::Known(f) => Some(*f),
            Callee::Itself => self.this,
            Callee::Local(_) => None,
        }
    }

    /// A constant's instruction.
    fn constant(&self, dst: Reg, c: ConstId) -> (r: Result<Instr, String>)
        ensures
            as_said(r, const_code(self.context(), dst, c)),
    {
        if c.0 as usize >= self.consts.len() {
            return Err(missing_const(c));
        }
        match &self.consts[c.0 as usize] {
            Const::String(text) => Ok(Instr::Str { dst, text: bytes_of(text) }),
            Const::Int(n) => match Value::small_int(*n) {
                Some(value) => {
                    proof {
                        lemma_word_values(value, Value { bits: small_bits(*n) });
                    }
                    Ok(Instr::Const { dst, value })
                },
                None => Ok(Instr::BigInt { dst, n: *n }),
            },
            Const::Float(_) => Err("Float".to_owned()),
            Const::Binary { .. } => Err("Binary".to_owned()),
        }
    }

    /// The instruction that puts an atom's value in `dst`.
    fn atom_instr(&self, dst: Reg, atom: &Atom) -> (r: Result<Instr, String>)
        ensures
            as_said(r, atom_code(self.context(), dst, *atom)),
    {
        match atom {
            Atom::Local(src) => Ok(Instr::Move { dst, src: Reg::of(*src) }),
            Atom::Const(c) => self.constant(dst, *c),
            Atom::Nil => {
                let value = Value::nil();
                proof {
                    lemma_word_values(value, Value { bits: 0xFFFA_0000_0000_0000 });
                }
                Ok(Instr::Const { dst, value })
            },
            Atom::Bool(b) => {
                let value = Value::bool(*b);
                proof {
                    lemma_word_values(
                        value,
                        Value {
                            bits: if *b {
                                0xFFFB_0000_0000_0001
                            } else {
                                0xFFFB_0000_0000_0000
                            },
                        },
                    );
                }
                Ok(Instr::Const { dst, value })
            },
            Atom::Load(load) => match load {
                Load::Global(slot) => Ok(Instr::GetGlobal { dst, slot: *slot }),
                _ => Err("closures that capture".to_owned()),
            },
            Atom::Closure { func_idx, captures } => if captures.len() == 0 {
                let value = Value::func(*func_idx);
                proof {
                    let w = Value { bits: (0xFFFC_0000_0000_0000 + func_idx.0) as u64 };
                    lemma_word_values(value, w);
                }
                Ok(Instr::Const { dst, value })
            } else {
                Err("closures that capture".to_owned())
            },
            Atom::Call { callee, args } => match self.known(callee) {
                Some(func) => Ok(Instr::Call { dst, func, args: regs(args) }),
                None => Err("calling a function value".to_owned()),
            },
            Atom::PrimOp { op, args } => prim(dst, op, args),
            Atom::Intrinsic { intrinsic, args } => match intrinsic {
                Intrinsic::Println => if args.len() == 1 {
                    Ok(Instr::Println { dst, arg: Reg::of(args[0]) })
                } else {
                    Err("println with other than one argument".to_owned())
                },
                _ => Err(cat("the built-in ", name_of_intrinsic(intrinsic))),
            },
            // A cell to overwrite is only a hint: a fresh cell is always right.
            Atom::Ctor { variant, fields, reuse } => if fields.len() == 0 {
                let value = Value::nullary(*variant);
                proof {
                    lemma_nullary_word(*variant, value);
                }
                Ok(Instr::Const { dst, value })
            } else {
                Ok(Instr::Ctor { dst, variant: *variant, fields: regs(fields) })
            },
        }
    }

    /// Put an atom's value in `dst`.
    fn atom(&mut self, dst: Reg, atom: &Atom) -> (r: Result<(), String>)
        requires
            old(self).wf(),
        ensures
            loaded(*old(self), *final(self), r, with_atom(
                old(self).context(),
                old(self).draft@,
                dst,
                *atom,
            )),
    {
        let i = self.atom_instr(dst, atom)?;
        self.push(i);
        Ok(())
    }

    /// Test `src` against a pattern, jumping to `next` when it does not fit, and
    /// read out what the pattern binds when it does.
    fn pattern(&mut self, src: Reg, pat: &CorePat, next: usize) -> (r: Result<(), String>)
        requires
            old(self).wf(),
            next < old(self).draft@.places.len(),
        ensures
            loaded(*old(self), *final(self), r, pattern_code(
                old(self).context(),
                old(self).draft@,
                src,
                *pat,
                next as int,
            )),
    {
        match pat {
            CorePat::Wild => {},
            CorePat::Bind(b) => {
                self.push(Instr::Move { dst: Reg::of(b.id), src });
            },
            CorePat::Ctor { variant, fields } => {
                if fields.len() > 0x1_0000 {
                    return Err("a constructor with more than 65535 fields".to_owned());
                }
                self.jump(next, Instr::JumpUnlessVariant { src, variant: *variant, to: 0 });
                let ghost start = self.draft@;
                let mut i: usize = 0;
                while i < fields.len()
                    invariant
                        i <= fields@.len() <= 0x1_0000,
                        self.wf(),
                        self.draft@ == with_fields(start, src, fields@, i as nat),
                        self.same_place(*old(self)),
                    decreases fields@.len() - i,
                {
                    self.push(Instr::Field { dst: Reg::of(fields[i].id), src, index: i as u16 });
                    i += 1;
                }
            },
            CorePat::Lit(c) => {
                if c.0 as usize >= self.consts.len() {
                    return Err(missing_const(*c));
                }
                match &self.consts[c.0 as usize] {
                    Const::Int(n) => {
                        self.jump(next, Instr::JumpUnlessInt { src, n: *n, to: 0 });
                    },
                    Const::String(text) => {
                        let text = bytes_of(text);
                        self.jump(next, Instr::JumpUnlessStr { src, text, to: 0 });
                    },
                    Const::Float(_) => {
                        return Err("matching a Float".to_owned());
                    },
                    Const::Binary { .. } => {
                        return Err("matching a Binary".to_owned());
                    },
                }
            },
        }
        Ok(())
    }

    /// Take the next register.
    fn bump(&mut self)
        requires
            old(self).wf(),
            old(self).next <= u32::MAX,
        ensures
            final(self).wf(),
            final(self).draft@ == (Draft { next: old(self).draft@.next + 1, ..old(self).draft@ }),
            final(self).same_place(*old(self)),
    {
        let ghost a = self.draft@;
        self.next = self.next + 1;
        proof {
            let b = Draft { next: a.next + 1, ..a };
            self.draft@ = b;
            assert forall|k: int| 0 <= k < b.lines.len() implies #[trigger] self.instrs@[k].op()
                == b.line(k) by {
                assert(old(self).instrs@[k].op() == a.line(k));
            }
            assert forall|l: int| #![trigger self.labels@[l]]
                0 <= l < b.places.len() implies self.label_ok(l) by {
                assert(old(self).labels@[l] == self.labels@[l]);
                assert(old(self).label_ok(l));
                if b.places[l] is None {
                    assert forall|i: int| #![trigger b.lines[i]]
                        0 <= i < b.lines.len() && b.lines[i].to == Some(
                            l,
                        ) implies self.labels@[l].waiting@.contains(i as usize) && i
                        <= usize::MAX by {
                        assert(a.lines[i].to == Some(l));
                    }
                }
            }
            assert forall|k: int| #![trigger b.lines[k]]
                0 <= k < b.lines.len() implies (b.lines[k].to matches Some(l) ==> 0 <= l
                < b.places.len()) by {
                assert(b.lines[k] == a.lines[k]);
            }
        }
    }

    /// A tail.
    fn tail(&mut self, atom: &Atom, dest: Dest) -> (r: Result<(), String>)
        requires
            old(self).wf(),
            dest matches Dest::Join { reg, after } ==> after < old(self).draft@.places.len(),
        ensures
            loaded(*old(self), *final(self), r, tail_code(
                old(self).context(),
                old(self).draft@,
                *atom,
                dest,
            )),
    {
        match dest {
            Dest::Return => {
                match atom {
                    Atom::Call { callee, args } => match self.known(callee) {
                        Some(func) => {
                            self.push(Instr::TailCall { func, args: regs(args) });
                            return Ok(());
                        },
                        None => {},
                    },
                    _ => {},
                }
                if self.next > u32::MAX as u64 {
                    return Err("more registers than a frame can have".to_owned());
                }
                let src = Reg(self.next as u32);
                self.bump();
                self.atom(src, atom)?;
                self.push(Instr::Ret { src });
                Ok(())
            },
            Dest::Join { reg, after } => {
                self.atom(reg, atom)?;
                self.jump(after, Instr::Jump { to: 0 });
                Ok(())
            },
        }
    }
}

proof fn lemma_nullary_word(v: crate::vm::value::VariantRef, value: Value)
    requires
        value.ok(),
        value.spec_view() == crate::vm::value::View::Nullary(v),
    ensures
        value.bits == (0xFFFE_0000_0000_0000 + crate::vm::value::variant_bits(v)) as u64,
{
    crate::vm::hash::lemma_one_word(value);
}

/// What loading did, as the scheme says.
spec fn loaded(
    a: Loader,
    b: Loader,
    r: Result<(), String>,
    want: Result<Draft, Seq<char>>,
) -> bool {
    match (r, want) {
        (Ok(_), Ok(d)) => b.wf() && b.draft@ == d && b.same_place(a),
        (Err(s), Err(w)) => s@ == w,
        _ => false,
    }
}

/// Where a value goes is a label there is.
spec fn reachable(d: Draft, dest: Dest) -> bool {
    dest matches Dest::Join { reg, after } ==> after < d.places.len()
}

impl<'c> Loader<'c> {
    /// Remember the label of a shared case.
    fn declare(&mut self, id: JoinId, l: usize)
        requires
            old(self).wf(),
            l < old(self).draft@.places.len(),
        ensures
            final(self).wf(),
            final(self).draft@ == (Draft {
                conts: old(self).draft@.conts.insert(id.0, l as int),
                ..old(self).draft@
            }),
            final(self).same_place(*old(self)),
    {
        let ghost a = self.draft@;
        self.conts.insert(id.0, l);
        proof {
            let b = Draft { conts: a.conts.insert(id.0, l as int), ..a };
            self.draft@ = b;
            assert forall|k: int| 0 <= k < b.lines.len() implies #[trigger] self.instrs@[k].op()
                == b.line(k) by {
                assert(old(self).instrs@[k].op() == a.line(k));
            }
            assert forall|l: int| #![trigger self.labels@[l]]
                0 <= l < b.places.len() implies self.label_ok(l) by {
                assert(old(self).labels@[l] == self.labels@[l]);
                assert(old(self).label_ok(l));
                if b.places[l] is None {
                    assert forall|i: int| #![trigger b.lines[i]]
                        0 <= i < b.lines.len() && b.lines[i].to == Some(
                            l,
                        ) implies self.labels@[l].waiting@.contains(i as usize) && i
                        <= usize::MAX by {
                        assert(a.lines[i].to == Some(l));
                    }
                }
            }
            assert forall|k: int| #![trigger b.lines[k]]
                0 <= k < b.lines.len() implies (b.lines[k].to matches Some(l) ==> 0 <= l
                < b.places.len()) by {
                assert(b.lines[k] == a.lines[k]);
            }
            assert forall|k: u32| #[trigger] b.conts.dom().contains(k) implies self.conts@[k]
                == b.conts[k] && 0 <= b.conts[k] < b.places.len() by {
                if k != id.0 {
                    assert(a.conts.dom().contains(k));
                }
            }
            assert forall|k: u32| self.conts@.dom().contains(k) <==> b.conts.dom().contains(k) by {
                assert(old(self).conts@.dom().contains(k) <==> a.conts.dom().contains(k));
            }
        }
    }

    /// Set the slot that a bound local's value also goes to.
    fn global(&mut self, b: &Bind)
        requires
            old(self).wf(),
        ensures
            final(self).wf(),
            final(self).draft@ == with_global(old(self).draft@, *b),
            final(self).same_place(*old(self)),
    {
        match b.global {
            Some(slot) => {
                self.push(Instr::SetGlobal { slot, src: Reg::of(b.id) });
            },
            None => {},
        }
    }

    /// Load an expression. A chain of bindings is walked in place; only what
    /// branches goes deeper on the stack.
    fn expr(&mut self, e: &CoreExpr, dest: Dest) -> (r: Result<(), String>)
        requires
            old(self).wf(),
            reachable(old(self).draft@, dest),
        ensures
            loaded(*old(self), *final(self), r, expr_code(
                old(self).context(),
                old(self).draft@,
                *e,
                dest,
            )),
        decreases *e,
    {
        let ghost x = self.context();
        let ghost want = expr_code(x, self.draft@, *e, dest);
        let mut cur: &CoreExpr = e;
        loop
            invariant
                self.wf(),
                self.same_place(*old(self)),
                x == self.context(),
                x == old(self).context(),
                reachable(self.draft@, dest),
                want == expr_code(x, old(self).draft@, *e, dest),
                want == expr_code(x, self.draft@, *cur, dest),
                cur == e || decreases_to!(*e => *cur),
            decreases *cur,
        {
            let ghost a = self.draft@;
            match cur {
                CoreExpr::Let { bind, rhs, body } => {
                    self.atom(Reg::of(bind.id), rhs)?;
                    self.global(bind);
                    cur = body;
                },
                CoreExpr::Drop { local, body } => {
                    self.push(Instr::Drop { reg: Reg::of(*local) });
                    cur = body;
                },
                CoreExpr::Tail(atom) => {
                    return self.tail(atom, dest);
                },
                CoreExpr::LetJoin { bind, join, body } => {
                    // The branch's value lands in the local, and every path
                    // through it jumps to the code after it.
                    let after = self.label();
                    let inner = Dest::Join { reg: Reg::of(bind.id), after };
                    proof {
                        lemma_expr_grows(x, self.draft@, **join, inner);
                    }
                    self.expr(join, inner)?;
                    self.place(after);
                    self.global(bind);
                    cur = body;
                },
                CoreExpr::If { cond, then, els } => {
                    let otherwise = self.label();
                    self.jump(otherwise, Instr::JumpIfFalse { cond: Reg::of(*cond), to: 0 });
                    proof {
                        lemma_expr_grows(x, self.draft@, **then, dest);
                    }
                    self.expr(then, dest)?;
                    self.place(otherwise);
                    cur = els;
                },
                CoreExpr::Match { scrut, arms } => {
                    self.arms(Reg::of(*scrut), arms, dest)?;
                    self.push(Instr::Bad { why: Broken::NoArm });
                    return Ok(());
                },
                CoreExpr::LetCont { id, cont, body } => {
                    // Every path through the body ends in a return or a jump,
                    // so the case after it is reached only by its jumps.
                    let l = self.label();
                    self.declare(*id, l);
                    proof {
                        lemma_expr_grows(x, self.draft@, **body, dest);
                    }
                    self.expr(body, dest)?;
                    self.place(l);
                    cur = cont;
                },
                CoreExpr::Goto(id) => {
                    let found = match self.conts.get(&id.0) {
                        Some(l) => Some(*l),
                        None => None,
                    };
                    match found {
                        Some(l) => {
                            proof {
                                assert(a.conts.dom().contains(id.0));
                            }
                            self.jump(l, Instr::Jump { to: 0 });
                        },
                        None => {
                            proof {
                                assert(!a.conts.dom().contains(id.0));
                            }
                            self.push(Instr::Bad { why: Broken::NoCase });
                        },
                    }
                    return Ok(());
                },
            }
        }
    }

    /// Load a match's arms, in order.
    fn arms(&mut self, src: Reg, arms: &Vec<Arm>, dest: Dest) -> (r: Result<(), String>)
        requires
            old(self).wf(),
            reachable(old(self).draft@, dest),
        ensures
            loaded(*old(self), *final(self), r, arms_code(
                old(self).context(),
                old(self).draft@,
                src,
                arms@,
                dest,
            )),
        decreases *arms,
    {
        let ghost x = self.context();
        let ghost a = self.draft@;
        let mut i: usize = 0;
        proof {
            assert(arms@.take(0) =~= Seq::empty());
        }
        while i < arms.len()
            invariant
                i <= arms@.len(),
                self.wf(),
                self.same_place(*old(self)),
                x == self.context(),
                x == old(self).context(),
                a == old(self).draft@,
                reachable(a, dest),
                arms_code(x, a, src, arms@.take(i as int), dest) == Ok::<Draft, Seq<char>>(
                    self.draft@,
                ),
            decreases arms@.len() - i,
        {
            let ghost b = self.draft@;
            let arm = &arms[i];
            proof {
                assert(decreases_to!(arms => arms@));
                assert(decreases_to!(arms@ => arms@[i as int]));
                assert(arms@.take(i + 1).drop_last() =~= arms@.take(i as int));
                assert(arms@.take(i + 1)[i as int] == arms@[i as int]);
                lemma_arms_grow(x, a, src, arms@.take(i as int), dest);
            }
            let next = self.label();
            proof {
                lemma_pattern_grows(x, self.draft@, src, arm.pat, next as int);
                if arms_code(x, a, src, arms@.take(i + 1), dest) is Err {
                    lemma_arms_err(x, a, src, arms@, dest, i + 1);
                }
            }
            self.pattern(src, &arm.pat, next)?;
            proof {
                lemma_expr_grows(x, self.draft@, arm.body, dest);
            }
            self.expr(&arm.body, dest)?;
            self.place(next);
            i += 1;
        }
        proof {
            assert(arms@.take(i as int) =~= arms@);
        }
        Ok(())
    }
}

/// Where each function's code starts: nothing yet, above its own locals.
pub open spec fn start(f: CoreFn) -> Draft {
    Draft {
        lines: Seq::empty(),
        places: Seq::empty(),
        conts: Map::empty(),
        next: max(top_of(f.params@), highest(f.body)),
    }
}

/// The code of a function.
pub open spec fn fn_code(x: Context, f: CoreFn) -> Result<Draft, Seq<char>> {
    match expr_code(x, start(f), f.body, Dest::Return) {
        Ok(d) => if d.next > u32::MAX {
            Err(too_many_registers())
        } else {
            Ok(d)
        },
        Err(what) => Err(what),
    }
}

/// One loaded function.
pub enum Func {
    Ready(Body),
    /// Uses something the machine does not run yet; this says what.
    NotBuiltYet(String),
}

pub struct Body {
    pub name: String,
    /// Registers that a frame for this function needs.
    pub regs: u32,
    /// Where each argument goes, in order.
    pub params: Vec<Reg>,
    pub instrs: Vec<Instr>,
}

/// The code of a function's instructions.
pub open spec fn ops(instrs: Seq<Instr>) -> Seq<Op> {
    Seq::new(instrs.len(), |i: int| instrs[i].op())
}

/// A loaded function is what the scheme says.
pub open spec fn func_is(f: Func, x: Context, src: LoweredFn) -> bool {
    match (f, fn_code(x, src.core)) {
        (Func::Ready(b), Ok(d)) => {
            &&& b.name@ == src.module@ + "."@ + src.name@
            &&& b.regs == d.next
            &&& b.params@ == regs_of(src.core.params@)
            &&& ops(b.instrs@) == d.code()
        },
        (Func::NotBuiltYet(s), Err(w)) => s@ == w,
        _ => false,
    }
}

/// Load one function. `this` is its own index, which a call to itself means; a
/// toplevel has none.
pub fn load_fn(f: &LoweredFn, consts: &Vec<Const>, this: Option<FuncIdx>) -> (r: Func)
    ensures
        func_is(r, (Context { consts: consts@, this }), *f),
        func_ok(r),
{
    let ghost x = Context { consts: consts@, this };
    let params = crate::vm::core_ir::highest_of(&f.core.params);
    let body = highest_local(&f.core.body);
    let next: u64 = if params >= body {
        params
    } else {
        body
    };
    let mut loader = Loader {
        consts,
        this,
        instrs: Vec::new(),
        labels: Vec::new(),
        conts: HashMap::new(),
        next,
        draft: Ghost(start(f.core)),
    };
    match loader.expr(&f.core.body, Dest::Return) {
        Ok(_) => {
            if loader.next > u32::MAX as u64 {
                return Func::NotBuiltYet("more registers than a frame can have".to_owned());
            }
            let start_name = cat(f.module.as_str(), ".");
            let name = cat(start_name.as_str(), f.name.as_str());
            let ghost d = loader.draft@;
            let labels: usize = loader.labels.len();
            proof {
                assert(d.places.len() == labels);
                assert(ops(loader.instrs@) =~= d.code()) by {
                    assert forall|i: int| 0 <= i < d.lines.len() implies ops(loader.instrs@)[i]
                        == d.code()[i] by {
                        assert(loader.instrs@[i].op() == d.line(i));
                    }
                }
            }
            let func = Func::Ready(
                Body {
                    name,
                    regs: loader.next as u32,
                    params: regs(&f.core.params),
                    instrs: loader.instrs,
                },
            );
            proof {
                law_loaded_function_is_fit(func, x, *f);
            }
            func
        },
        Err(what) => Func::NotBuiltYet(what),
    }
}

/// The constructors that the machine makes itself.
#[derive(Clone, Copy, PartialEq, Eq, Structural, Debug)]
pub struct Abi {
    pub ok: crate::vm::value::VariantRef,
    pub err: crate::vm::value::VariantRef,
    pub some: crate::vm::value::VariantRef,
    pub none: crate::vm::value::VariantRef,
}

/// A whole loaded program.
pub struct Code {
    pub fns: Vec<Func>,
    /// Each module's toplevel, in the order they run, the entry file's last.
    pub toplevels: Vec<Func>,
    pub main: Option<FuncIdx>,
    pub globals: u32,
    pub abi: Abi,
}

/// Load a program.
pub fn load(program: &Program, abi: Abi) -> (r: Code)
    requires
        program.fns@.len() <= u32::MAX,
    ensures
        r.fns@.len() == program.fns@.len(),
        forall|i: int|
            0 <= i < program.fns@.len() ==> func_is(
                #[trigger] r.fns@[i],
                (Context { consts: program.consts@, this: Some(FuncIdx(i as u32)) }),
                program.fns@[i],
            ),
        r.toplevels@.len() == program.inits@.len() + 1,
        forall|i: int|
            0 <= i < program.inits@.len() ==> func_is(
                #[trigger] r.toplevels@[i],
                (Context { consts: program.consts@, this: None }),
                program.inits@[i],
            ),
        func_is(
            r.toplevels@[program.inits@.len() as int],
            (Context { consts: program.consts@, this: None }),
            program.toplevel,
        ),
        r.main == program.main,
        r.globals == program.globals,
        r.abi == abi,
        code_ok(r),
{
    let mut fns: Vec<Func> = Vec::new();
    let mut i: usize = 0;
    while i < program.fns.len()
        invariant
            i <= program.fns@.len() <= u32::MAX,
            fns@.len() == i,
            forall|k: int|
                0 <= k < i ==> func_is(
                    #[trigger] fns@[k],
                    (Context { consts: program.consts@, this: Some(FuncIdx(k as u32)) }),
                    program.fns@[k],
                ),
            forall|k: int| 0 <= k < i ==> func_ok(#[trigger] fns@[k]),
        decreases program.fns@.len() - i,
    {
        let ghost before = fns@;
        fns.push(load_fn(&program.fns[i], &program.consts, Some(FuncIdx(i as u32))));
        proof {
            assert forall|k: int| 0 <= k < i + 1 implies func_is(
                #[trigger] fns@[k],
                (Context { consts: program.consts@, this: Some(FuncIdx(k as u32)) }),
                program.fns@[k],
            ) by {
                if k < i {
                    assert(fns@[k] == before[k]);
                }
            }
        }
        i += 1;
    }
    let mut toplevels: Vec<Func> = Vec::new();
    let mut j: usize = 0;
    while j < program.inits.len()
        invariant
            j <= program.inits@.len(),
            toplevels@.len() == j,
            forall|k: int|
                0 <= k < j ==> func_is(
                    #[trigger] toplevels@[k],
                    (Context { consts: program.consts@, this: None }),
                    program.inits@[k],
                ),
            forall|k: int| 0 <= k < j ==> func_ok(#[trigger] toplevels@[k]),
        decreases program.inits@.len() - j,
    {
        let ghost before = toplevels@;
        toplevels.push(load_fn(&program.inits[j], &program.consts, None));
        proof {
            assert forall|k: int| 0 <= k < j + 1 implies func_is(
                #[trigger] toplevels@[k],
                (Context { consts: program.consts@, this: None }),
                program.inits@[k],
            ) by {
                if k < j {
                    assert(toplevels@[k] == before[k]);
                }
            }
        }
        j += 1;
    }
    let ghost before = toplevels@;
    toplevels.push(load_fn(&program.toplevel, &program.consts, None));
    proof {
        assert forall|k: int| 0 <= k < program.inits@.len() implies func_is(
            #[trigger] toplevels@[k],
            (Context { consts: program.consts@, this: None }),
            program.inits@[k],
        ) by {
            assert(toplevels@[k] == before[k]);
        }
    }
    Code { fns, toplevels, main: program.main, globals: program.globals, abi }
}

} // verus!
