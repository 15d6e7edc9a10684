//! What Core means: the value that an expression comes to, from what its locals
//! and the globals hold, and that the code it loads as computes that value.

use crate::vm::bigint::{quotient, remainder};
use crate::vm::code::{atom_code, Context, small_bits};
use crate::vm::core_ir::{Atom, Const, ConstId, Load, LocalId, PrimOp};
use crate::vm::exec::{computes, Event, jumps, Machine, stepped, stop_of};
use crate::vm::instr::{Instr, Op, Reg};
use crate::vm::meaning::{Data, lemma_meaning};
use crate::vm::scene::Stop;
use crate::vm::sense::{
    comes_to, itself, joined, law_an_instruction_does_what_it_says, lemma_look, lemma_same,
    lemma_wrote, locals, look, look_all, part_at, plain, put, shared, steps, went_on, word_data,
    writes,
};
use crate::vm::value::{self, FuncIdx, SMALL_MAX, SMALL_MIN, Value, VariantRef};
use vstd::prelude::*;

verus! {

/// What a local holds.
pub open spec fn local(env: Seq<Data>, l: LocalId) -> Data {
    look(env, Reg(l.0))
}

pub open spec fn local_all(env: Seq<Data>, ls: Seq<LocalId>) -> Seq<Data> {
    Seq::new(ls.len(), |i: int| local(env, ls[i]))
}

/// What a constant is.
pub open spec fn const_value(consts: Seq<Const>, c: ConstId) -> Option<Data> {
    if c.0 < consts.len() {
        match consts[c.0 as int] {
            Const::Int(n) => Some(Data::Int(n as int)),
            Const::String(text) => Some(Data::Text(vstd::utf8::encode_utf8(text@))),
            _ => None,
        }
    } else {
        None
    }
}

/// What an operation on two Ints comes to.
pub open spec fn int_value(op: PrimOp, m: int, n: int) -> Option<Data> {
    match op {
        PrimOp::IntAdd => Some(Data::Int(m + n)),
        PrimOp::IntSub => Some(Data::Int(m - n)),
        PrimOp::IntMul => Some(Data::Int(m * n)),
        PrimOp::IntDiv => Some(Data::Int(quotient(m, n))),
        PrimOp::IntRem => Some(Data::Int(remainder(m, n))),
        PrimOp::IntEq => Some(Data::Bool(m == n)),
        PrimOp::IntNe => Some(Data::Bool(m != n)),
        PrimOp::IntLt => Some(Data::Bool(m < n)),
        PrimOp::IntLe => Some(Data::Bool(m <= n)),
        PrimOp::IntGt => Some(Data::Bool(m > n)),
        PrimOp::IntGe => Some(Data::Bool(m >= n)),
        _ => None,
    }
}

/// What a primitive comes to. A value that is no text is shown by the host, so
/// it has none here.
pub open spec fn prim_value(op: PrimOp, args: Seq<Data>) -> Option<Data> {
    match op {
        PrimOp::IntNeg => if args.len() == 1 {
            match args[0] {
                Data::Int(n) => Some(Data::Int(-n)),
                _ => None,
            }
        } else {
            None
        },
        PrimOp::ToString => if args.len() == 1 && args[0] is Text {
            Some(args[0])
        } else {
            None
        },
        PrimOp::StringConcat | PrimOp::StringConcatMany => match joined(args) {
            Some(text) => Some(Data::Text(text)),
            None => None,
        },
        PrimOp::FieldUnchecked(index) => if args.len() == 1 {
            match args[0] {
                Data::Ctor(_, kids) => part_at(kids, index as int),
                _ => None,
            }
        } else {
            None
        },
        _ => if args.len() == 2 {
            match (args[0], args[1]) {
                (Data::Int(m), Data::Int(n)) => int_value(op, m, n),
                _ => None,
            }
        } else {
            None
        },
    }
}

/// What an atom comes to. Calls and built-ins, which do more than compute a
/// value, have none here.
pub open spec fn atom_value(
    consts: Seq<Const>,
    env: Seq<Data>,
    globals: Seq<Data>,
    a: Atom,
) -> Option<Data> {
    match a {
        Atom::Local(l) => Some(local(env, l)),
        Atom::Const(c) => const_value(consts, c),
        Atom::Nil => Some(Data::Nil),
        Atom::Bool(b) => Some(Data::Bool(b)),
        Atom::Load(Load::Global(slot)) => Some(
            if slot.0 < globals.len() {
                globals[slot.0 as int]
            } else {
                Data::Nil
            },
        ),
        Atom::Closure { func_idx, captures } => if captures@.len() == 0 {
            Some(Data::Func(func_idx))
        } else {
            None
        },
        Atom::PrimOp { op, args } => prim_value(op, local_all(env, args@)),
        Atom::Ctor { variant, fields, reuse } => Some(
            if fields@.len() == 0 {
                Data::Nullary(variant)
            } else {
                Data::Ctor(variant, local_all(env, fields@))
            },
        ),
        _ => None,
    }
}

/// A small Int's word is that Int.
pub proof fn lemma_small_word(n: i64)
    requires
        SMALL_MIN <= n <= SMALL_MAX,
    ensures
        word_data(Value { bits: small_bits(n) }) == Data::Int(n as int),
{
}

/// A constructor without fields is a word that names it.
pub proof fn lemma_nullary_word(v: VariantRef)
    ensures
        word_data(
            Value { bits: (0xFFFE_0000_0000_0000 + value::variant_bits(v)) as u64 },
        ) == Data::Nullary(v),
{
    let low = value::unsigned(v.type_id.0);
    let bits = low + v.variant_idx * 0x1_0000_0000;
    assert(bits % 0x1_0000_0000 == low && bits / 0x1_0000_0000 == v.variant_idx);
}

/// A function is a word that names it.
pub proof fn lemma_func_word(f: FuncIdx)
    ensures
        word_data(Value { bits: (0xFFFC_0000_0000_0000 + f.0) as u64 }) == Data::Func(f),
{
}

/// What an atom's instruction comes to is what the atom comes to.
proof fn lemma_atom(x: Context, dst: Reg, atom: Atom, i: Instr, env: Seq<Data>, globals: Seq<Data>, me: Data)
    requires
        atom_code(x, dst, atom) == Ok::<Op, Seq<char>>(i.op()),
        atom_value(x.consts, env, globals, atom) is Some,
    ensures
        match i {
            Instr::ToString { dst: to, a } => to == dst && look(env, a) is Text && atom_value(
                x.consts,
                env,
                globals,
                atom,
            ) == Some(look(env, a)),
            _ => plain(i) && writes(i) == dst && comes_to(i, env, globals, me) == atom_value(
                x.consts,
                env,
                globals,
                atom,
            ),
        },
{
    match atom {
        Atom::Const(c) => {
            if let Const::Int(n) = x.consts[c.0 as int] {
                if SMALL_MIN <= n <= SMALL_MAX {
                    lemma_small_word(n);
                }
            }
        },
        Atom::Ctor { variant, fields, reuse } => {
            lemma_nullary_word(variant);
            assert(local_all(env, fields@) =~= look_all(
                env,
                crate::vm::code::regs_of(fields@),
            ));
        },
        Atom::Closure { func_idx, captures } => {
            lemma_func_word(func_idx);
        },
        Atom::PrimOp { op, args } => {
            assert(local_all(env, args@) =~= look_all(env, crate::vm::code::regs_of(args@)));
        },
        _ => {},
    }
}

/// An atom loads as an instruction that computes its value: the register it is
/// loaded into takes what the atom comes to, from what the registers and globals
/// hold, and the function goes on behind it with everything else as it was. Only
/// for want of room does it stop the run.
pub proof fn law_an_atom_loads_as_its_value(
    a: Machine,
    b: Machine,
    r: Result<Event, Stop>,
    x: Context,
    dst: Reg,
    atom: Atom,
)
    requires
        steps(a, b, r),
        atom_code(x, dst, atom) == Ok::<Op, Seq<char>>(a.instr().op()),
        atom_value(x.consts, locals(a), shared(a), atom) is Some,
    ensures
        match r {
            Ok(ev) => ev == Event::Going && b.wf() && went_on(
                a,
                b,
                a.top().pc + 1,
                put(
                    locals(a),
                    dst,
                    atom_value(x.consts, locals(a), shared(a), atom)->Some_0,
                ),
                shared(a),
            ),
            Err(e) => e == Stop::HeapFull,
        },
{
    lemma_atom(x, dst, atom, a.instr(), locals(a), shared(a), itself(a));
    if let Instr::ToString { dst: to, a: src } = a.instr() {
        lemma_to_string(a, b, r);
    } else {
        law_an_instruction_does_what_it_says(a, b, r);
    }
}

/// A text shows as itself.
pub proof fn lemma_to_string(a: Machine, b: Machine, r: Result<Event, Stop>)
    requires
        steps(a, b, r),
        a.instr() is ToString,
        look(locals(a), a.instr()->ToString_a) is Text,
    ensures
        match r {
            Ok(ev) => ev == Event::Going && b.wf() && went_on(
                a,
                b,
                a.top().pc + 1,
                put(
                    locals(a),
                    a.instr()->ToString_dst,
                    look(locals(a), a.instr()->ToString_a),
                ),
                shared(a),
            ),
            Err(e) => e == Stop::HeapFull,
        },
{
    reveal(stepped);
    reveal(jumps);
    reveal(computes);
    reveal(stop_of);
    if let Instr::ToString { dst, a: src } = a.instr() {
        let v = a.scene().at(src);
        lemma_look(a, src);
        lemma_meaning(a.heap.record(), v);
        if r is Ok {
            lemma_look(b, dst);
            let at = a.top().base + dst.0;
            lemma_wrote(a, b, dst, crate::vm::scene::value_at(b.regs@, at));
            if at < a.regs@.len() {
                lemma_same(a, b, v);
            }
        }
    }
}

} // verus!
