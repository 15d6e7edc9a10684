//! The machine's instructions.

use crate::vm::bigint::IntOp;
use crate::vm::core_ir::{GlobalSlot, Intrinsic, LocalId};
use crate::vm::value::{FuncIdx, Value, VariantRef};
use vstd::prelude::*;

verus! {

/// A register: an index into the running function's frame.
#[derive(Clone, Copy, PartialEq, Eq, Structural, Debug)]
pub struct Reg(pub u32);

impl Reg {
    /// The register of a local.
    pub fn of(local: LocalId) -> (r: Reg)
        ensures
            r == Reg(local.0),
    {
        Reg(local.0)
    }
}

/// Which promise of the compiler a program broke.
#[derive(Clone, Copy, PartialEq, Eq, Structural, Debug)]
pub enum Broken {
    NoArm,
    NoCase,
}

impl Broken {
    pub open spec fn says(self) -> Seq<char> {
        match self {
            Broken::NoArm => "a match found no arm for its value"@,
            Broken::NoCase => "a jump to a case that no match declares"@,
        }
    }

    pub fn text(self) -> (r: &'static str)
        ensures
            r@ == self.says(),
    {
        match self {
            Broken::NoArm => "a match found no arm for its value",
            Broken::NoCase => "a jump to a case that no match declares",
        }
    }
}

/// One instruction. `dst` is the register it writes.
pub enum Instr {
    Const { dst: Reg, value: Value },
    /// A new string holding `text`.
    Str { dst: Reg, text: Vec<u8> },
    /// A new big Int, for a constant past a small Int's range.
    BigInt { dst: Reg, n: i64 },
    Move { dst: Reg, src: Reg },
    GetGlobal { dst: Reg, slot: GlobalSlot },
    SetGlobal { slot: GlobalSlot, src: Reg },
    Int { dst: Reg, op: IntOp, a: Reg, b: Reg },
    IntNeg { dst: Reg, a: Reg },
    Println { dst: Reg, arg: Reg },
    /// The text that a value shows as.
    ToString { dst: Reg, a: Reg },
    /// Every string in `parts`, joined in order.
    Concat { dst: Reg, parts: Vec<Reg> },
    /// A new cell for a constructor that has fields.
    Ctor { dst: Reg, variant: VariantRef, fields: Vec<Reg> },
    /// The last use of a register: its reference is given up now.
    Drop { reg: Reg },
    Call { dst: Reg, func: FuncIdx, args: Vec<Reg> },
    CallSelf { dst: Reg, args: Vec<Reg> },
    CallValue { dst: Reg, callee: Reg, args: Vec<Reg> },
    TailCall { func: FuncIdx, args: Vec<Reg> },
    TailCallSelf { args: Vec<Reg> },
    TailCallValue { callee: Reg, args: Vec<Reg> },
    Ret { src: Reg },
    Closure { dst: Reg, func: FuncIdx, captures: Vec<Reg> },
    GetCapture { dst: Reg, index: u32 },
    /// The closure that the frame runs as, or the function `this`.
    GetSelf { dst: Reg, this: FuncIdx },
    /// Continue at instruction `to` of this function.
    Jump { to: usize },
    /// Continue at `to` when `cond` is false, else at the next instruction.
    JumpIfFalse { cond: Reg, to: usize },
    /// Continue at `to` unless `src` is constructor `variant`.
    JumpUnlessVariant { src: Reg, variant: VariantRef, to: usize },
    /// Continue at `to` unless `src` is the Int `n`.
    JumpUnlessInt { src: Reg, n: i64, to: usize },
    /// Continue at `to` unless `src` is the string `text`.
    JumpUnlessStr { src: Reg, text: Vec<u8>, to: usize },
    /// Field `index` of the constructor in `src`.
    Field { dst: Reg, src: Reg, index: u16 },
    Tuple { dst: Reg, elements: Vec<Reg> },
    Element { dst: Reg, src: Reg, index: u16 },
    Array { dst: Reg, elements: Vec<Reg> },
    Builtin { dst: Reg, intrinsic: Intrinsic, args: Vec<Reg> },
    Equal { dst: Reg, a: Reg, b: Reg },
    NotEqual { dst: Reg, a: Reg, b: Reg },
    Not { dst: Reg, a: Reg },
    Range { dst: Reg, start: Reg, end: Reg },
    ArrayLen { dst: Reg, src: Reg },
    ArrayElem { dst: Reg, src: Reg, index: u16 },
    ArrayDrop { dst: Reg, src: Reg, n: Reg },
    ArrayPrepend { dst: Reg, front: Vec<Reg>, rest: Reg },
    ArrayAppend { dst: Reg, rest: Reg, back: Vec<Reg> },
    ArrayConcat { dst: Reg, a: Reg, b: Reg },
    ArraySlice { dst: Reg, src: Reg, start: Reg, end: Reg },
    ArrayIndex { dst: Reg, src: Reg, index: Reg },
    ArrayIndexOr { dst: Reg, src: Reg, index: Reg, default: Reg },
    /// Stop the run: the program broke a promise that the compiler makes.
    Bad { why: Broken },
}

/// An instruction that the loader makes, apart from how it is stored.
pub enum Op {
    Const { dst: Reg, value: Value },
    Str { dst: Reg, text: Seq<u8> },
    BigInt { dst: Reg, n: i64 },
    Move { dst: Reg, src: Reg },
    GetGlobal { dst: Reg, slot: GlobalSlot },
    SetGlobal { slot: GlobalSlot, src: Reg },
    Int { dst: Reg, op: IntOp, a: Reg, b: Reg },
    IntNeg { dst: Reg, a: Reg },
    Println { dst: Reg, arg: Reg },
    ToString { dst: Reg, a: Reg },
    Concat { dst: Reg, parts: Seq<Reg> },
    Ctor { dst: Reg, variant: VariantRef, fields: Seq<Reg> },
    Drop { reg: Reg },
    Call { dst: Reg, func: FuncIdx, args: Seq<Reg> },
    TailCall { func: FuncIdx, args: Seq<Reg> },
    Ret { src: Reg },
    Jump { to: int },
    JumpIfFalse { cond: Reg, to: int },
    JumpUnlessVariant { src: Reg, variant: VariantRef, to: int },
    JumpUnlessInt { src: Reg, n: i64, to: int },
    JumpUnlessStr { src: Reg, text: Seq<u8>, to: int },
    Field { dst: Reg, src: Reg, index: u16 },
    Bad { why: Broken },
    /// One that the loader does not make.
    Other,
}

impl Instr {
    pub open spec fn op(self) -> Op {
        match self {
            Instr::Const { dst, value } => Op::Const { dst, value },
            Instr::Str { dst, text } => Op::Str { dst, text: text@ },
            Instr::BigInt { dst, n } => Op::BigInt { dst, n },
            Instr::Move { dst, src } => Op::Move { dst, src },
            Instr::GetGlobal { dst, slot } => Op::GetGlobal { dst, slot },
            Instr::SetGlobal { slot, src } => Op::SetGlobal { slot, src },
            Instr::Int { dst, op, a, b } => Op::Int { dst, op, a, b },
            Instr::IntNeg { dst, a } => Op::IntNeg { dst, a },
            Instr::Println { dst, arg } => Op::Println { dst, arg },
            Instr::ToString { dst, a } => Op::ToString { dst, a },
            Instr::Concat { dst, parts } => Op::Concat { dst, parts: parts@ },
            Instr::Ctor { dst, variant, fields } => Op::Ctor { dst, variant, fields: fields@ },
            Instr::Drop { reg } => Op::Drop { reg },
            Instr::Call { dst, func, args } => Op::Call { dst, func, args: args@ },
            Instr::TailCall { func, args } => Op::TailCall { func, args: args@ },
            Instr::Ret { src } => Op::Ret { src },
            Instr::Jump { to } => Op::Jump { to: to as int },
            Instr::JumpIfFalse { cond, to } => Op::JumpIfFalse { cond, to: to as int },
            Instr::JumpUnlessVariant { src, variant, to } => Op::JumpUnlessVariant {
                src,
                variant,
                to: to as int,
            },
            Instr::JumpUnlessInt { src, n, to } => Op::JumpUnlessInt { src, n, to: to as int },
            Instr::JumpUnlessStr { src, text, to } => Op::JumpUnlessStr {
                src,
                text: text@,
                to: to as int,
            },
            Instr::Field { dst, src, index } => Op::Field { dst, src, index },
            Instr::Bad { why } => Op::Bad { why },
            _ => Op::Other,
        }
    }
}

/// A jump that goes to `to`; what is no jump stays as it is.
pub open spec fn aimed(op: Op, to: int) -> Op {
    match op {
        Op::Jump { .. } => Op::Jump { to },
        Op::JumpIfFalse { cond, .. } => Op::JumpIfFalse { cond, to },
        Op::JumpUnlessVariant { src, variant, .. } => Op::JumpUnlessVariant { src, variant, to },
        Op::JumpUnlessInt { src, n, .. } => Op::JumpUnlessInt { src, n, to },
        Op::JumpUnlessStr { src, text, .. } => Op::JumpUnlessStr { src, text, to },
        _ => op,
    }
}

/// Point a jump at `at`.
pub(crate) fn aim(i: &mut Instr, at: usize)
    ensures
        final(i).op() == aimed(old(i).op(), at as int),
{
    match i {
        Instr::Jump { to } => {
            *to = at;
        },
        Instr::JumpIfFalse { cond, to } => {
            *to = at;
        },
        Instr::JumpUnlessVariant { src, variant, to } => {
            *to = at;
        },
        Instr::JumpUnlessInt { src, n, to } => {
            *to = at;
        },
        Instr::JumpUnlessStr { src, text, to } => {
            *to = at;
        },
        _ => {},
    }
}

} // verus!
