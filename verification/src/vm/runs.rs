//! Core expressions: what they come to, and that the code they load as comes to
//! the same.

use crate::vm::code::{
    arms_code, atom_code, called, Context, Dest, Draft, expr_code, lemma_expr_grows, Line,
    pattern_code, tail_code, with_atom, with_fields, with_global,
};
use crate::vm::core_ir::{Arm, Atom, Bind, Const, CoreExpr, CorePat, LocalId};
use crate::vm::eval::{atom_value, const_value, local};
use crate::vm::instr::{aimed, Op, Reg};
use crate::vm::layout::{
    aims, extends, lemma_arms_lay, lemma_expr_lays, lemma_fields_lay, lemma_pattern_lays,
    lemma_with_atom, lemma_with_global,
};
use crate::vm::meaning::Data;
use crate::vm::sense::{arithmetic, is_of, joined, look, look_all, part_at, put, word_data};
use vstd::prelude::*;

verus! {

/// What an expression came to: its value, and what locals and globals hold then.
pub struct Out {
    pub value: Data,
    pub env: Seq<Data>,
    pub globals: Seq<Data>,
}

/// A local takes a value, and the slot that goes with it what the local holds.
pub open spec fn bound_env(env: Seq<Data>, b: Bind, d: Data) -> Seq<Data> {
    put(env, Reg(b.id.0), d)
}

pub open spec fn bound_globals(env: Seq<Data>, globals: Seq<Data>, b: Bind) -> Seq<Data> {
    match b.global {
        Some(slot) => put(globals, Reg(slot.0), local(env, b.id)),
        None => globals,
    }
}

/// Whether a value fits a pattern.
pub open spec fn fits(consts: Seq<Const>, p: CorePat, d: Data) -> bool {
    match p {
        CorePat::Wild => true,
        CorePat::Bind(_) => true,
        CorePat::Ctor { variant, fields } => is_of(d, variant),
        CorePat::Lit(c) => const_value(consts, c) == Some(d),
    }
}

/// What the locals hold after the first `n` fields of a pattern took the parts
/// of a value.
pub open spec fn with_parts(env: Seq<Data>, fields: Seq<Bind>, kids: Seq<Data>, n: nat) -> Seq<Data>
    decreases n,
{
    if n == 0 {
        env
    } else {
        put(with_parts(env, fields, kids, (n - 1) as nat), Reg(fields[n - 1].id.0), kids[n - 1])
    }
}

/// What the locals hold after a pattern that fits bound what it names, or `None`
/// when the value does not have the parts, or the pattern binds what it is held
/// against.
pub open spec fn taken(env: Seq<Data>, scrut: LocalId, p: CorePat) -> Option<Seq<Data>> {
    match p {
        CorePat::Bind(b) => Some(put(env, Reg(b.id.0), local(env, scrut))),
        CorePat::Ctor { variant, fields } => if fields@.len() == 0 {
            Some(env)
        } else {
            match local(env, scrut) {
                Data::Ctor(_, kids) => if fields@.len() <= kids.len() && forall|i: int|
                    0 <= i < fields@.len() ==> (#[trigger] fields@[i]).id != scrut {
                    Some(with_parts(env, fields@, kids, fields@.len()))
                } else {
                    None
                },
                _ => None,
            }
        },
        _ => Some(env),
    }
}

/// The first arm that a value fits.
pub open spec fn is_first_arm(consts: Seq<Const>, arms: Seq<Arm>, d: Data, i: int) -> bool {
    &&& 0 <= i < arms.len()
    &&& fits(consts, arms[i].pat, d)
    &&& forall|j: int| 0 <= j < i ==> !fits(consts, (#[trigger] arms[j]).pat, d)
}

/// The shared case that `id` names, the last one declared.
pub open spec fn case_at(conts: Seq<(u32, CoreExpr)>, id: u32) -> Option<int>
    decreases conts.len(),
{
    if conts.len() == 0 {
        None
    } else if conts.last().0 == id {
        Some(conts.len() - 1)
    } else {
        case_at(conts.drop_last(), id)
    }
}

/// What an expression comes to within `n` steps into it, or `None` when that is
/// not enough, when it calls or prints, or when an operation does not apply.
/// `conts` are the shared cases around it.
pub open spec fn value_of(
    consts: Seq<Const>,
    env: Seq<Data>,
    globals: Seq<Data>,
    conts: Seq<(u32, CoreExpr)>,
    e: CoreExpr,
    n: nat,
) -> Option<Out>
    decreases n,
{
    if n == 0 {
        None
    } else {
        let m = (n - 1) as nat;
        match e {
            CoreExpr::Let { bind, rhs, body } => match atom_value(consts, env, globals, rhs) {
                Some(d) => {
                    let after = bound_env(env, bind, d);
                    value_of(consts, after, bound_globals(after, globals, bind), conts, *body, m)
                },
                None => None,
            },
            CoreExpr::Drop { local, body } => value_of(
                consts,
                put(env, Reg(local.0), Data::Nil),
                globals,
                conts,
                *body,
                m,
            ),
            CoreExpr::Tail(atom) => match atom_value(consts, env, globals, atom) {
                Some(value) => Some(Out { value, env, globals }),
                None => None,
            },
            CoreExpr::LetJoin { bind, join, body } => match value_of(
                consts,
                env,
                globals,
                Seq::empty(),
                *join,
                m,
            ) {
                Some(out) => {
                    let after = bound_env(out.env, bind, out.value);
                    value_of(
                        consts,
                        after,
                        bound_globals(after, out.globals, bind),
                        conts,
                        *body,
                        m,
                    )
                },
                None => None,
            },
            CoreExpr::If { cond, then, els } => match local(env, cond) {
                Data::Bool(true) => value_of(consts, env, globals, conts, *then, m),
                Data::Bool(false) => value_of(consts, env, globals, conts, *els, m),
                _ => None,
            },
            CoreExpr::Match { scrut, arms } => if exists|i: int|
                is_first_arm(consts, arms@, local(env, scrut), i) {
                let i = choose|i: int| is_first_arm(consts, arms@, local(env, scrut), i);
                match taken(env, scrut, arms@[i].pat) {
                    Some(after) => value_of(consts, after, globals, conts, arms@[i].body, m),
                    None => None,
                }
            } else {
                None
            },
            CoreExpr::LetCont { id, cont, body } => value_of(
                consts,
                env,
                globals,
                conts.push((id.0, *cont)),
                *body,
                m,
            ),
            CoreExpr::Goto(id) => match case_at(conts, id.0) {
                Some(k) => value_of(consts, env, globals, conts.take(k), conts[k].1, m),
                None => None,
            },
        }
    }
}

/// No shared case is declared inside `e` under a name in `ids`, or under that of
/// one around it.
pub open spec fn unshadowed(e: CoreExpr, ids: Seq<u32>) -> bool
    decreases e,
{
    match e {
        CoreExpr::Let { bind, rhs, body } => unshadowed(*body, ids),
        CoreExpr::Drop { local, body } => unshadowed(*body, ids),
        CoreExpr::Tail(_) => true,
        CoreExpr::LetJoin { bind, join, body } => unshadowed(*join, ids) && unshadowed(*body, ids),
        CoreExpr::If { cond, then, els } => unshadowed(*then, ids) && unshadowed(*els, ids),
        CoreExpr::Match { scrut, arms } => unshadowed_arms(arms@, ids),
        CoreExpr::LetCont { id, cont, body } => !ids.contains(id.0) && unshadowed(*cont, ids)
            && unshadowed(*body, ids.push(id.0)),
        CoreExpr::Goto(_) => true,
    }
}

pub open spec fn unshadowed_arms(arms: Seq<Arm>, ids: Seq<u32>) -> bool
    decreases arms,
{
    if arms.len() == 0 {
        true
    } else {
        unshadowed_arms(arms.drop_last(), ids) && unshadowed(arms[arms.len() - 1].body, ids)
    }
}

/// A run of loaded code: where it is, and what registers and globals hold.
pub struct At {
    pub pc: int,
    pub env: Seq<Data>,
    pub globals: Seq<Data>,
}

/// The register that an instruction writes, and what it puts there.
pub open spec fn op_value(op: Op, env: Seq<Data>, globals: Seq<Data>) -> Option<(Reg, Data)> {
    match op {
        Op::Const { dst, value } => Some((dst, word_data(value))),
        Op::Str { dst, text } => Some((dst, Data::Text(text))),
        Op::BigInt { dst, n } => Some((dst, Data::Int(n as int))),
        Op::Move { dst, src } => Some((dst, look(env, src))),
        Op::GetGlobal { dst, slot } => Some((dst, look(globals, Reg(slot.0)))),
        Op::Int { dst, op, a, b } => match (look(env, a), look(env, b)) {
            (Data::Int(m), Data::Int(n)) => Some((dst, arithmetic(op, m, n))),
            _ => None,
        },
        Op::IntNeg { dst, a } => match look(env, a) {
            Data::Int(n) => Some((dst, Data::Int(-n))),
            _ => None,
        },
        Op::ToString { dst, a } => if look(env, a) is Text {
            Some((dst, look(env, a)))
        } else {
            None
        },
        Op::Concat { dst, parts } => match joined(look_all(env, parts)) {
            Some(text) => Some((dst, Data::Text(text))),
            None => None,
        },
        Op::Ctor { dst, variant, fields } => Some(
            (dst, Data::Ctor(variant, look_all(env, fields))),
        ),
        Op::Field { dst, src, index } => match look(env, src) {
            Data::Ctor(_, kids) => match part_at(kids, index as int) {
                Some(d) => Some((dst, d)),
                None => None,
            },
            _ => None,
        },
        Op::Drop { reg } => Some((reg, Data::Nil)),
        _ => None,
    }
}

/// Where a test goes on to.
pub open spec fn op_goes(op: Op, env: Seq<Data>, next: int) -> Option<int> {
    match op {
        Op::Jump { to } => Some(to),
        Op::JumpIfFalse { cond, to } => match look(env, cond) {
            Data::Bool(true) => Some(next),
            Data::Bool(false) => Some(to),
            _ => None,
        },
        Op::JumpUnlessVariant { src, variant, to } => Some(
            if is_of(look(env, src), variant) {
                next
            } else {
                to
            },
        ),
        Op::JumpUnlessInt { src, n, to } => Some(
            if look(env, src) == Data::Int(n as int) {
                next
            } else {
                to
            },
        ),
        Op::JumpUnlessStr { src, text, to } => Some(
            if look(env, src) == Data::Text(text) {
                next
            } else {
                to
            },
        ),
        _ => None,
    }
}

/// What one instruction makes of a run.
pub open spec fn op_next(op: Op, s: At) -> Option<At> {
    match op_value(op, s.env, s.globals) {
        Some((dst, d)) => Some(At { pc: s.pc + 1, env: put(s.env, dst, d), ..s }),
        None => match op_goes(op, s.env, s.pc + 1) {
            Some(pc) => Some(At { pc, ..s }),
            None => match op {
                Op::SetGlobal { slot, src } => Some(
                    At {
                        pc: s.pc + 1,
                        globals: put(s.globals, Reg(slot.0), look(s.env, src)),
                        ..s
                    },
                ),
                _ => None,
            },
        },
    }
}

/// Where a run is after `n` instructions, or `None` when it stopped before.
pub open spec fn after(code: Seq<Op>, s: At, n: nat) -> Option<At>
    decreases n,
{
    if n == 0 {
        Some(s)
    } else if 0 <= s.pc < code.len() {
        match op_next(code[s.pc], s) {
            Some(t) => after(code, t, (n - 1) as nat),
            None => None,
        }
    } else {
        None
    }
}

pub proof fn lemma_after_add(code: Seq<Op>, s: At, n: nat, m: nat)
    requires
        after(code, s, n) is Some,
    ensures
        after(code, s, n + m) == after(code, after(code, s, n)->Some_0, m),
    decreases n,
{
    if n > 0 {
        let t = op_next(code[s.pc], s)->Some_0;
        lemma_after_add(code, t, (n - 1) as nat, m);
    }
}

proof fn lemma_one(code: Seq<Op>, s: At)
    requires
        0 <= s.pc < code.len(),
        op_next(code[s.pc], s) is Some,
    ensures
        after(code, s, 1) == op_next(code[s.pc], s),
{
    let t = op_next(code[s.pc], s)->Some_0;
    assert(after(code, t, 0) == Some(t));
}

/// Code that is part of the whole: its lines are there, and so are its labels
/// that are placed.
pub open spec fn within(b: Draft, z: Draft) -> bool {
    &&& b.lines.len() <= z.lines.len()
    &&& forall|i: int| 0 <= i < b.lines.len() ==> #[trigger] z.lines[i] == b.lines[i]
    &&& b.places.len() <= z.places.len()
    &&& forall|l: int|
        0 <= l < b.places.len() ==> (#[trigger] b.places[l] is Some ==> z.places[l] == b.places[l])
    &&& b.next <= z.next
}

/// The labels of shared cases are what they were, for the cases in `ids`.
pub open spec fn carries(a: Draft, b: Draft, ids: Seq<u32>) -> bool {
    forall|id: u32| #[trigger]
        ids.contains(id) && a.conts.dom().contains(id) ==> b.conts.dom().contains(id)
            && b.conts[id] == a.conts[id]
}

proof fn lemma_fields_next(a: Draft, src: Reg, fields: Seq<Bind>, n: nat)
    ensures
        with_fields(a, src, fields, n).next == a.next,
    decreases n,
{
    if n > 0 {
        lemma_fields_next(a, src, fields, (n - 1) as nat);
    }
}

proof fn lemma_pattern_next(x: Context, a: Draft, src: Reg, p: CorePat, l: int)
    ensures
        pattern_code(x, a, src, p, l) matches Ok(b) ==> b.next == a.next,
{
    if let CorePat::Ctor { variant, fields } = p {
        lemma_fields_next(
            a.jump(Op::JumpUnlessVariant { src, variant, to: 0 }, l),
            src,
            fields@,
            fields@.len(),
        );
    }
}

/// Loading an expression keeps the labels of the cases around it, and counts
/// registers up.
proof fn lemma_carries(x: Context, a: Draft, e: CoreExpr, dest: Dest, ids: Seq<u32>)
    requires
        unshadowed(e, ids),
    ensures
        expr_code(x, a, e, dest) matches Ok(b) ==> carries(a, b, ids) && a.next <= b.next,
    decreases e,
{
    if let Ok(whole) = expr_code(x, a, e, dest) {
        match e {
            CoreExpr::Let { bind, rhs, body } => {
                let b = with_atom(x, a, Reg(bind.id.0), rhs)->Ok_0;
                lemma_carries(x, with_global(b, bind), *body, dest, ids);
            },
            CoreExpr::Drop { local, body } => {
                lemma_carries(x, a.push(Op::Drop { reg: Reg(local.0) }), *body, dest, ids);
            },
            CoreExpr::Tail(_) => {},
            CoreExpr::LetJoin { bind, join, body } => {
                let l = a.places.len() as int;
                let d = Dest::Join { reg: Reg(bind.id.0), after: l as usize };
                let b = expr_code(x, a.with_label(), *join, d)->Ok_0;
                lemma_carries(x, a.with_label(), *join, d, ids);
                lemma_carries(x, with_global(b.place(l), bind), *body, dest, ids);
            },
            CoreExpr::If { cond, then, els } => {
                let l = a.places.len() as int;
                let s = a.with_label().jump(Op::JumpIfFalse { cond: Reg(cond.0), to: 0 }, l);
                let b = expr_code(x, s, *then, dest)->Ok_0;
                lemma_carries(x, s, *then, dest, ids);
                lemma_carries(x, b.place(l), *els, dest, ids);
            },
            CoreExpr::Match { scrut, arms } => {
                lemma_arms_carry(x, a, Reg(scrut.0), arms@, dest, ids);
            },
            CoreExpr::LetCont { id, cont, body } => {
                let l = a.places.len() as int;
                let w = a.with_label();
                let s = Draft { conts: w.conts.insert(id.0, l), ..w };
                let b = expr_code(x, s, *body, dest)->Ok_0;
                let more = ids.push(id.0);
                lemma_carries(x, s, *body, dest, more);
                lemma_carries(x, b.place(l), *cont, dest, ids);
                assert forall|k: u32| #[trigger]
                    ids.contains(k) && a.conts.dom().contains(k) implies whole.conts.dom().contains(
                    k,
                ) && whole.conts[k] == a.conts[k] by {
                    let i = choose|i: int| 0 <= i < ids.len() && ids[i] == k;
                    assert(more[i] == k);
                    assert(more.contains(k));
                    assert(k != id.0);
                    assert(s.conts.dom().contains(k));
                }
            },
            CoreExpr::Goto(id) => {},
        }
    }
}

proof fn lemma_arms_carry(x: Context, a: Draft, src: Reg, arms: Seq<Arm>, dest: Dest, ids: Seq<u32>)
    requires
        unshadowed_arms(arms, ids),
    ensures
        arms_code(x, a, src, arms, dest) matches Ok(b) ==> carries(a, b, ids) && a.next <= b.next,
    decreases arms,
{
    if arms.len() > 0 {
        if let Ok(whole) = arms_code(x, a, src, arms, dest) {
            let arm = arms[arms.len() - 1];
            let b = arms_code(x, a, src, arms.drop_last(), dest)->Ok_0;
            let l = b.places.len() as int;
            let w = b.with_label();
            let c = pattern_code(x, w, src, arm.pat, l)->Ok_0;
            lemma_arms_carry(x, a, src, arms.drop_last(), dest, ids);
            lemma_pattern_lays(x, w, src, arm.pat, l);
            lemma_pattern_next(x, w, src, arm.pat, l);
            lemma_carries(x, c, arm.body, dest, ids);
        }
    }
}

/// The names of shared cases.
pub open spec fn ids_of(conts: Seq<(u32, CoreExpr)>) -> Seq<u32> {
    Seq::new(conts.len(), |j: int| conts[j].0)
}

/// The case at `j` is loaded: its label is where its code starts, and the labels
/// of the cases around it are known there. `cases` holds each one's label and
/// what was loaded before it.
pub open spec fn case_ready(
    x: Context,
    z: Draft,
    a: Draft,
    dest: Dest,
    conts: Seq<(u32, CoreExpr)>,
    cases: Seq<(int, Draft)>,
    j: int,
) -> bool {
    let (l, at) = cases[j];
    &&& a.conts.dom().contains(conts[j].0)
    &&& a.conts[conts[j].0] == l
    &&& 0 <= l < z.places.len()
    &&& z.places[l] == Some(at.lines.len() as int)
    &&& aims(at, dest)
    &&& expr_code(x, at, conts[j].1, dest) matches Ok(b) && b.places.len() <= usize::MAX && within(
        b,
        z,
    )
    &&& unshadowed(conts[j].1, ids_of(conts.take(j)))
    &&& forall|i: int|
        0 <= i < j ==> at.conts.dom().contains((#[trigger] conts[i]).0) && at.conts[conts[i].0]
            == cases[i].0
}

pub open spec fn ready(
    x: Context,
    z: Draft,
    a: Draft,
    dest: Dest,
    conts: Seq<(u32, CoreExpr)>,
    cases: Seq<(int, Draft)>,
) -> bool {
    &&& cases.len() == conts.len()
    &&& forall|j: int|
        0 <= j < conts.len() ==> #[trigger] case_ready(x, z, a, dest, conts, cases, j)
}

proof fn lemma_ready(
    x: Context,
    z: Draft,
    a: Draft,
    b: Draft,
    dest: Dest,
    conts: Seq<(u32, CoreExpr)>,
    cases: Seq<(int, Draft)>,
)
    requires
        ready(x, z, a, dest, conts, cases),
        carries(a, b, ids_of(conts)),
    ensures
        ready(x, z, b, dest, conts, cases),
{
    assert forall|j: int| 0 <= j < conts.len() implies #[trigger] case_ready(
        x,
        z,
        b,
        dest,
        conts,
        cases,
        j,
    ) by {
        assert(case_ready(x, z, a, dest, conts, cases, j));
        assert(ids_of(conts)[j] == conts[j].0);
        assert(ids_of(conts).contains(conts[j].0));
    }
}

/// The cases before one are loaded where it starts.
proof fn lemma_ready_before(
    x: Context,
    z: Draft,
    a: Draft,
    dest: Dest,
    conts: Seq<(u32, CoreExpr)>,
    cases: Seq<(int, Draft)>,
    k: int,
)
    requires
        ready(x, z, a, dest, conts, cases),
        0 <= k < conts.len(),
    ensures
        ready(x, z, cases[k].1, dest, conts.take(k), cases.take(k)),
{
    assert(case_ready(x, z, a, dest, conts, cases, k));
    assert forall|j: int| 0 <= j < k implies #[trigger] case_ready(
        x,
        z,
        cases[k].1,
        dest,
        conts.take(k),
        cases.take(k),
        j,
    ) by {
        assert(case_ready(x, z, a, dest, conts, cases, j));
        assert(conts.take(k).take(j) =~= conts.take(j));
        assert(conts[j].0 == conts.take(k)[j].0);
    }
}

proof fn lemma_within(a: Draft, b: Draft, z: Draft, end: int)
    requires
        extends(a, b, end),
        within(b, z),
        a.next <= b.next,
    ensures
        within(a, z),
{
    assert forall|i: int| 0 <= i < a.lines.len() implies #[trigger] z.lines[i] == a.lines[i] by {
        assert(b.lines[i] == a.lines[i]);
    }
    assert forall|l: int| 0 <= l < a.places.len() implies (#[trigger] a.places[l] is Some ==> z.places[l]
        == a.places[l]) by {
        assert(b.places[l] == a.places[l]);
    }
}

proof fn lemma_placed(b: Draft, l: int, z: Draft)
    requires
        0 <= l < b.places.len(),
        b.places[l] is None,
        within(b.place(l), z),
    ensures
        within(b, z),
        z.places[l] == Some(b.lines.len() as int),
        z.address(l) == b.lines.len(),
{
    let p = b.place(l);
    assert(p.places[l] == Some(b.lines.len() as int));
    assert forall|k: int| 0 <= k < b.places.len() implies (#[trigger] b.places[k] is Some ==> z.places[k]
        == b.places[k]) by {
        if k != l {
            assert(p.places[k] == b.places[k]);
        }
    }
}

/// The instruction that a line is in the whole code.
proof fn lemma_line(b: Draft, z: Draft, i: int)
    requires
        within(b, z),
        0 <= i < b.lines.len(),
    ensures
        i < z.code().len(),
        z.code()[i] == match b.lines[i].to {
            Some(l) => aimed(b.lines[i].op, z.address(l)),
            None => b.lines[i].op,
        },
{
    assert(z.lines[i] == b.lines[i]);
}

proof fn lemma_step(code: Seq<Op>, s: At, t: At, k: nat)
    requires
        0 <= s.pc < code.len(),
        op_next(code[s.pc], s) == Some(t),
    ensures
        after(code, s, k + 1) == after(code, t, k),
{
}

/// An atom's instruction puts the atom's value in its register.
proof fn lemma_atom_runs(x: Context, dst: Reg, atom: Atom, s: At)
    requires
        atom_code(x, dst, atom) is Ok,
        atom_value(x.consts, s.env, s.globals, atom) is Some,
    ensures
        op_next(atom_code(x, dst, atom)->Ok_0, s) == Some(
            At {
                pc: s.pc + 1,
                env: put(
                    s.env,
                    dst,
                    atom_value(x.consts, s.env, s.globals, atom)->Some_0,
                ),
                ..s
            },
        ),
{
    match atom {
        Atom::Const(c) => {
            if let Const::Int(n) = x.consts[c.0 as int] {
                if crate::vm::value::SMALL_MIN <= n <= crate::vm::value::SMALL_MAX {
                    crate::vm::eval::lemma_small_word(n);
                }
            }
        },
        Atom::Ctor { variant, fields, reuse } => {
            crate::vm::eval::lemma_nullary_word(variant);
            assert(crate::vm::eval::local_all(s.env, fields@) =~= look_all(
                s.env,
                crate::vm::code::regs_of(fields@),
            ));
        },
        Atom::Closure { func_idx, captures } => {
            crate::vm::eval::lemma_func_word(func_idx);
        },
        Atom::PrimOp { op, args } => {
            assert(crate::vm::eval::local_all(s.env, args@) =~= look_all(
                s.env,
                crate::vm::code::regs_of(args@),
            ));
        },
        _ => {},
    }
}

/// A run that came where an expression's value goes: to the return of that value,
/// or behind the expression with the value in the register it was wanted in.
pub open spec fn landed(z: Draft, dest: Dest, out: Out, t: At) -> bool {
    &&& t.globals == out.globals
    &&& match dest {
        Dest::Return => 0 <= t.pc < z.code().len() && (z.code()[t.pc] matches Op::Ret { src }
            && look(t.env, src) == out.value),
        Dest::Join { reg, after } => t.pc == z.address(after as int) && t.env == put(
            out.env,
            reg,
            out.value,
        ),
    }
}

proof fn lemma_global_runs(b: Draft, bind: Bind, z: Draft, env: Seq<Data>, globals: Seq<Data>) -> (k:
    nat)
    requires
        within(with_global(b, bind), z),
    ensures
        after(z.code(), (At { pc: b.lines.len() as int, env, globals }), k) == Some(
            At {
                pc: with_global(b, bind).lines.len() as int,
                env,
                globals: bound_globals(env, globals, bind),
            },
        ),
{
    let g = with_global(b, bind);
    let s = At { pc: b.lines.len() as int, env, globals };
    if bind.global is Some {
        lemma_line(g, z, b.lines.len() as int);
        lemma_one(z.code(), s);
        1
    } else {
        0
    }
}

proof fn lemma_parts_keep(env: Seq<Data>, fields: Seq<Bind>, kids: Seq<Data>, n: nat, scrut: LocalId)
    requires
        n <= fields.len(),
        forall|i: int| 0 <= i < fields.len() ==> (#[trigger] fields[i]).id != scrut,
    ensures
        local(with_parts(env, fields, kids, n), scrut) == local(env, scrut),
        with_parts(env, fields, kids, n).len() == env.len(),
    decreases n,
{
    if n > 0 {
        lemma_parts_keep(env, fields, kids, (n - 1) as nat, scrut);
        assert(fields[n - 1].id != scrut);
    }
}

proof fn lemma_fields_run(
    j: Draft,
    scrut: LocalId,
    fields: Seq<Bind>,
    n: nat,
    z: Draft,
    env: Seq<Data>,
    globals: Seq<Data>,
)
    requires
        n <= fields.len() <= 0x1_0000,
        within(with_fields(j, Reg(scrut.0), fields, n), z),
        local(env, scrut) is Ctor,
        fields.len() <= local(env, scrut)->Ctor_1.len(),
        forall|i: int| 0 <= i < fields.len() ==> (#[trigger] fields[i]).id != scrut,
    ensures
        with_fields(j, Reg(scrut.0), fields, n).lines.len() == j.lines.len() + n,
        after(z.code(), (At { pc: j.lines.len() as int, env, globals }), n) == Some(
            At {
                pc: (j.lines.len() + n) as int,
                env: with_parts(env, fields, local(env, scrut)->Ctor_1, n),
                globals,
            },
        ),
    decreases n,
{
    let s = At { pc: j.lines.len() as int, env, globals };
    let kids = local(env, scrut)->Ctor_1;
    if n > 0 {
        let m = (n - 1) as nat;
        let b = with_fields(j, Reg(scrut.0), fields, m);
        let c = with_fields(j, Reg(scrut.0), fields, n);
        assert(within(b, z)) by {
            assert forall|i: int| 0 <= i < b.lines.len() implies #[trigger] z.lines[i]
                == b.lines[i] by {
                assert(c.lines[i] == b.lines[i]);
            }
        }
        lemma_fields_run(j, scrut, fields, m, z, env, globals);
        lemma_parts_keep(env, fields, kids, m, scrut);
        lemma_line(c, z, b.lines.len() as int);
        let t = At {
            pc: (j.lines.len() + m) as int,
            env: with_parts(env, fields, kids, m),
            globals,
        };
        lemma_one(z.code(), t);
        lemma_after_add(z.code(), s, m, 1);
    }
}

/// A value that fits a pattern goes through its test, and the pattern takes what
/// it binds.
proof fn lemma_pattern_fits(
    x: Context,
    w: Draft,
    scrut: LocalId,
    p: CorePat,
    l: int,
    z: Draft,
    env: Seq<Data>,
    globals: Seq<Data>,
) -> (k: nat)
    requires
        pattern_code(x, w, Reg(scrut.0), p, l) matches Ok(c) && within(c, z),
        fits(x.consts, p, local(env, scrut)),
        taken(env, scrut, p) is Some,
    ensures
        after(z.code(), (At { pc: w.lines.len() as int, env, globals }), k) == Some(
            At {
                pc: pattern_code(x, w, Reg(scrut.0), p, l)->Ok_0.lines.len() as int,
                env: taken(env, scrut, p)->Some_0,
                globals,
            },
        ),
        taken(env, scrut, p)->Some_0.len() == env.len(),
{
    let c = pattern_code(x, w, Reg(scrut.0), p, l)->Ok_0;
    let s = At { pc: w.lines.len() as int, env, globals };
    match p {
        CorePat::Wild => 0,
        CorePat::Bind(_) => {
            lemma_line(c, z, w.lines.len() as int);
            lemma_one(z.code(), s);
            1
        },
        CorePat::Lit(_) => {
            lemma_line(c, z, w.lines.len() as int);
            lemma_one(z.code(), s);
            1
        },
        CorePat::Ctor { variant, fields } => {
            let op = Op::JumpUnlessVariant { src: Reg(scrut.0), variant, to: 0 };
            let j = w.jump(op, l);
            let n = fields@.len();
            lemma_fields_lay(j, Reg(scrut.0), fields@, n);
            lemma_fields_next(j, Reg(scrut.0), fields@, n);
            lemma_within(j, c, z, c.lines.len() as int);
            lemma_line(j, z, w.lines.len() as int);
            let t = At { pc: s.pc + 1, ..s };
            if n > 0 {
                lemma_fields_run(j, scrut, fields@, n, z, env, globals);
                lemma_parts_keep(env, fields@, local(env, scrut)->Ctor_1, n, scrut);
            } else {
                assert(after(z.code(), t, 0) == Some(t));
            }
            lemma_step(z.code(), s, t, n);
            n + 1
        },
    }
}

/// A value that does not fit jumps to the next arm.
proof fn lemma_pattern_misses(
    x: Context,
    w: Draft,
    scrut: LocalId,
    p: CorePat,
    l: int,
    z: Draft,
    env: Seq<Data>,
    globals: Seq<Data>,
)
    requires
        pattern_code(x, w, Reg(scrut.0), p, l) matches Ok(c) && within(c, z),
        !fits(x.consts, p, local(env, scrut)),
    ensures
        after(z.code(), (At { pc: w.lines.len() as int, env, globals }), 1) == Some(
            At { pc: z.address(l), env, globals },
        ),
{
    let c = pattern_code(x, w, Reg(scrut.0), p, l)->Ok_0;
    let s = At { pc: w.lines.len() as int, env, globals };
    if let CorePat::Ctor { variant, fields } = p {
        let op = Op::JumpUnlessVariant { src: Reg(scrut.0), variant, to: 0 };
        let j = w.jump(op, l);
        lemma_fields_lay(j, Reg(scrut.0), fields@, fields@.len());
        lemma_fields_next(j, Reg(scrut.0), fields@, fields@.len());
        lemma_within(j, c, z, c.lines.len() as int);
        lemma_line(j, z, w.lines.len() as int);
    } else {
        lemma_line(c, z, w.lines.len() as int);
    }
    lemma_one(z.code(), s);
}

/// The parts of a loaded arm.
proof fn lemma_arm(
    x: Context,
    a: Draft,
    src: Reg,
    arms: Seq<Arm>,
    dest: Dest,
    z: Draft,
    ids: Seq<u32>,
)
    requires
        arms.len() > 0,
        aims(a, dest),
        arms_code(x, a, src, arms, dest) matches Ok(b) && b.places.len() <= usize::MAX && within(
            b,
            z,
        ),
        unshadowed_arms(arms, ids),
    ensures
        ({
            let arm = arms[arms.len() - 1];
            let b = arms_code(x, a, src, arms.drop_last(), dest)->Ok_0;
            let l = b.places.len() as int;
            let w = b.with_label();
            let c = pattern_code(x, w, src, arm.pat, l)->Ok_0;
            let d = expr_code(x, c, arm.body, dest)->Ok_0;
            &&& arms_code(x, a, src, arms.drop_last(), dest) is Ok
            &&& pattern_code(x, w, src, arm.pat, l) is Ok
            &&& expr_code(x, c, arm.body, dest) is Ok
            &&& b.places.len() <= usize::MAX
            &&& d.places.len() <= usize::MAX
            &&& within(b, z)
            &&& within(c, z)
            &&& within(d, z)
            &&& aims(c, dest)
            &&& carries(a, c, ids)
            &&& z.address(l) == d.lines.len()
            &&& arms_code(x, a, src, arms, dest)->Ok_0.lines.len() == d.lines.len()
            &&& unshadowed_arms(arms.drop_last(), ids)
            &&& unshadowed(arm.body, ids)
        }),
{
    let whole = arms_code(x, a, src, arms, dest)->Ok_0;
    let arm = arms[arms.len() - 1];
    let init = arms.drop_last();
    let b = arms_code(x, a, src, init, dest)->Ok_0;
    let l = b.places.len() as int;
    let w = b.with_label();
    let c = pattern_code(x, w, src, arm.pat, l)->Ok_0;
    let d = expr_code(x, c, arm.body, dest)->Ok_0;
    assert(whole == d.place(l));
    lemma_pattern_lays(x, w, src, arm.pat, l);
    lemma_pattern_next(x, w, src, arm.pat, l);
    lemma_expr_grows(x, c, arm.body, dest);
    lemma_arms_lay(x, a, src, init, dest);
    lemma_expr_lays(x, c, arm.body, dest);
    lemma_carries(x, c, arm.body, dest, ids);
    lemma_arms_carry(x, a, src, init, dest, ids);
    assert(d.places[l] == c.places[l]);
    lemma_placed(d, l, z);
    lemma_within(c, d, z, d.lines.len() as int);
    lemma_within(w, c, z, c.lines.len() as int);
    assert(within(b, z)) by {
        assert forall|k: int| 0 <= k < b.places.len() implies (#[trigger] b.places[k] is Some ==> z.places[k]
            == b.places[k]) by {
            assert(w.places[k] == b.places[k]);
        }
    }
}

/// A value that fits no arm goes past them all.
proof fn lemma_arms_missed(
    x: Context,
    a: Draft,
    scrut: LocalId,
    arms: Seq<Arm>,
    dest: Dest,
    z: Draft,
    ids: Seq<u32>,
    env: Seq<Data>,
    globals: Seq<Data>,
) -> (k: nat)
    requires
        aims(a, dest),
        arms_code(x, a, Reg(scrut.0), arms, dest) matches Ok(b) && b.places.len() <= usize::MAX
            && within(b, z),
        unshadowed_arms(arms, ids),
        forall|j: int|
            0 <= j < arms.len() ==> !fits(x.consts, (#[trigger] arms[j]).pat, local(env, scrut)),
    ensures
        after(z.code(), (At { pc: a.lines.len() as int, env, globals }), k) == Some(
            At {
                pc: arms_code(x, a, Reg(scrut.0), arms, dest)->Ok_0.lines.len() as int,
                env,
                globals,
            },
        ),
    decreases arms.len(),
{
    let s = At { pc: a.lines.len() as int, env, globals };
    if arms.len() == 0 {
        0
    } else {
        let src = Reg(scrut.0);
        let init = arms.drop_last();
        lemma_arm(x, a, src, arms, dest, z, ids);
        let b = arms_code(x, a, src, init, dest)->Ok_0;
        assert forall|j: int| 0 <= j < init.len() implies !fits(
            x.consts,
            (#[trigger] init[j]).pat,
            local(env, scrut),
        ) by {
            assert(init[j] == arms[j]);
        }
        let k = lemma_arms_missed(x, a, scrut, init, dest, z, ids, env, globals);
        let l = b.places.len() as int;
        lemma_pattern_misses(
            x,
            b.with_label(),
            scrut,
            arms[arms.len() - 1].pat,
            l,
            z,
            env,
            globals,
        );
        lemma_after_add(z.code(), s, k, 1);
        k + 1
    }
}

/// A tail's code ends where its value goes.
proof fn lemma_tail_runs(
    x: Context,
    a: Draft,
    atom: Atom,
    dest: Dest,
    z: Draft,
    env: Seq<Data>,
    globals: Seq<Data>,
) -> (k: nat)
    requires
        tail_code(x, a, atom, dest) matches Ok(b) && within(b, z),
        z.next <= env.len(),
        atom_value(x.consts, env, globals, atom) is Some,
    ensures
        after(z.code(), (At { pc: a.lines.len() as int, env, globals }), k) is Some,
        landed(
            z,
            dest,
            (Out { value: atom_value(x.consts, env, globals, atom)->Some_0, env, globals }),
            after(z.code(), (At { pc: a.lines.len() as int, env, globals }), k)->Some_0,
        ),
{
    let b = tail_code(x, a, atom, dest)->Ok_0;
    let s = At { pc: a.lines.len() as int, env, globals };
    let d = atom_value(x.consts, env, globals, atom)->Some_0;
    assert(called(x, atom) is None);
    let dst = match dest {
        Dest::Return => Reg(a.next as u32),
        Dest::Join { reg, after } => reg,
    };
    let t = At { pc: s.pc + 1, env: put(env, dst, d), globals };
    lemma_line(b, z, a.lines.len() as int);
    lemma_line(b, z, s.pc + 1);
    lemma_atom_runs(x, dst, atom, s);
    lemma_one(z.code(), s);
    match dest {
        Dest::Return => 1,
        Dest::Join { reg, after } => {
            lemma_one(z.code(), t);
            lemma_after_add(z.code(), s, 1, 1);
            2
        },
    }
}

/// The code of an expression comes where the expression's value goes.
pub proof fn lemma_runs(
    x: Context,
    a: Draft,
    e: CoreExpr,
    dest: Dest,
    z: Draft,
    conts: Seq<(u32, CoreExpr)>,
    cases: Seq<(int, Draft)>,
    env: Seq<Data>,
    globals: Seq<Data>,
    n: nat,
) -> (k: nat)
    requires
        aims(a, dest),
        expr_code(x, a, e, dest) matches Ok(b) && b.places.len() <= usize::MAX && within(b, z),
        z.next <= env.len(),
        unshadowed(e, ids_of(conts)),
        ready(x, z, a, dest, conts, cases),
        value_of(x.consts, env, globals, conts, e, n) is Some,
    ensures
        after(z.code(), (At { pc: a.lines.len() as int, env, globals }), k) is Some,
        landed(
            z,
            dest,
            value_of(x.consts, env, globals, conts, e, n)->Some_0,
            after(z.code(), (At { pc: a.lines.len() as int, env, globals }), k)->Some_0,
        ),
        value_of(x.consts, env, globals, conts, e, n)->Some_0.env.len() == env.len(),
    decreases n, 0nat,
{
    let code = z.code();
    let whole = expr_code(x, a, e, dest)->Ok_0;
    let s = At { pc: a.lines.len() as int, env, globals };
    let m = (n - 1) as nat;
    let ids = ids_of(conts);
    match e {
        CoreExpr::Let { bind, rhs, body } => {
            let dst = Reg(bind.id.0);
            let b = with_atom(x, a, dst, rhs)->Ok_0;
            let g = with_global(b, bind);
            let d = atom_value(x.consts, env, globals, rhs)->Some_0;
            lemma_with_atom(x, a, dst, rhs);
            lemma_with_global(b, bind);
            lemma_expr_lays(x, g, *body, dest);
            lemma_carries(x, g, *body, dest, ids);
            lemma_within(g, whole, z, whole.lines.len() as int);
            lemma_within(b, g, z, g.lines.len() as int);
            lemma_line(b, z, s.pc);
            lemma_atom_runs(x, dst, rhs, s);
            lemma_one(code, s);
            let env1 = bound_env(env, bind, d);
            let k1 = lemma_global_runs(b, bind, z, env1, globals);
            lemma_after_add(code, s, 1, k1);
            let globals1 = bound_globals(env1, globals, bind);
            lemma_ready(x, z, a, g, dest, conts, cases);
            let k2 = lemma_runs(x, g, *body, dest, z, conts, cases, env1, globals1, m);
            lemma_after_add(code, s, 1 + k1, k2);
            1 + k1 + k2
        },
        CoreExpr::Drop { local: l, body } => {
            let op = Op::Drop { reg: Reg(l.0) };
            let g = a.push(op);
            crate::vm::layout::lemma_pushed(a, g, Line { op, to: None });
            lemma_expr_lays(x, g, *body, dest);
            lemma_carries(x, g, *body, dest, ids);
            lemma_within(g, whole, z, whole.lines.len() as int);
            lemma_line(g, z, s.pc);
            lemma_one(code, s);
            lemma_ready(x, z, a, g, dest, conts, cases);
            let env1 = put(env, Reg(l.0), Data::Nil);
            let k = lemma_runs(x, g, *body, dest, z, conts, cases, env1, globals, m);
            lemma_after_add(code, s, 1, k);
            1 + k
        },
        CoreExpr::Tail(atom) => { lemma_tail_runs(x, a, atom, dest, z, env, globals) },
        CoreExpr::LetJoin { bind, join, body } => {
            let l = a.places.len() as int;
            let w = a.with_label();
            let to = Dest::Join { reg: Reg(bind.id.0), after: l as usize };
            let b = expr_code(x, w, *join, to)->Ok_0;
            let p = b.place(l);
            let g = with_global(p, bind);
            lemma_expr_grows(x, w, *join, to);
            lemma_expr_grows(x, g, *body, dest);
            lemma_with_global(p, bind);
            lemma_expr_lays(x, w, *join, to);
            lemma_expr_lays(x, g, *body, dest);
            lemma_carries(x, w, *join, to, ids);
            lemma_carries(x, g, *body, dest, ids);
            lemma_within(g, whole, z, whole.lines.len() as int);
            lemma_within(p, g, z, g.lines.len() as int);
            assert(b.places[l] == w.places[l]);
            lemma_placed(b, l, z);
            let none = Seq::<(u32, CoreExpr)>::empty();
            lemma_unshadowed_less(*join, ids, ids_of(none));
            let out = value_of(x.consts, env, globals, none, *join, m)->Some_0;
            let k1 = lemma_runs(x, w, *join, to, z, none, Seq::empty(), env, globals, m);
            let env1 = bound_env(out.env, bind, out.value);
            let t = after(code, s, k1)->Some_0;
            assert(t == (At { pc: p.lines.len() as int, env: env1, globals: out.globals }));
            let k2 = lemma_global_runs(p, bind, z, env1, out.globals);
            lemma_after_add(code, s, k1, k2);
            let globals1 = bound_globals(env1, out.globals, bind);
            lemma_ready(x, z, a, g, dest, conts, cases);
            let k3 = lemma_runs(x, g, *body, dest, z, conts, cases, env1, globals1, m);
            lemma_after_add(code, s, k1 + k2, k3);
            k1 + k2 + k3
        },
        CoreExpr::If { cond, then, els } => {
            let l = a.places.len() as int;
            let op = Op::JumpIfFalse { cond: Reg(cond.0), to: 0 };
            let w = a.with_label().jump(op, l);
            let b = expr_code(x, w, *then, dest)->Ok_0;
            let p = b.place(l);
            lemma_expr_grows(x, w, *then, dest);
            lemma_expr_grows(x, p, *els, dest);
            lemma_expr_lays(x, w, *then, dest);
            lemma_expr_lays(x, p, *els, dest);
            lemma_carries(x, w, *then, dest, ids);
            lemma_carries(x, p, *els, dest, ids);
            lemma_within(p, whole, z, whole.lines.len() as int);
            assert(b.places[l] == w.places[l]);
            lemma_placed(b, l, z);
            lemma_within(w, b, z, b.lines.len() as int);
            lemma_line(w, z, s.pc);
            lemma_one(code, s);
            lemma_ready(x, z, a, w, dest, conts, cases);
            lemma_ready(x, z, a, p, dest, conts, cases);
            let k = if local(env, cond) == Data::Bool(true) {
                lemma_runs(x, w, *then, dest, z, conts, cases, env, globals, m)
            } else {
                lemma_runs(x, p, *els, dest, z, conts, cases, env, globals, m)
            };
            lemma_after_add(code, s, 1, k);
            1 + k
        },
        CoreExpr::Match { scrut, arms } => {
            let i = choose|i: int| is_first_arm(x.consts, arms@, local(env, scrut), i);
            let b = arms_code(x, a, Reg(scrut.0), arms@, dest)->Ok_0;
            assert(within(b, z)) by {
                assert(whole.places == b.places);
                assert forall|j: int| 0 <= j < b.lines.len() implies #[trigger] z.lines[j]
                    == b.lines[j] by {
                    assert(whole.lines[j] == b.lines[j]);
                }
                assert forall|j: int| 0 <= j < b.places.len() implies (#[trigger] b.places[j] is Some
                    ==> z.places[j] == b.places[j]) by {
                    assert(whole.places[j] == b.places[j]);
                }
            }
            lemma_arms_run(x, a, scrut, arms@, dest, z, conts, cases, env, globals, i, m)
        },
        CoreExpr::LetCont { id, cont, body } => {
            let l = a.places.len() as int;
            let w0 = a.with_label();
            let w = Draft { conts: w0.conts.insert(id.0, l), ..w0 };
            let b = expr_code(x, w, *body, dest)->Ok_0;
            let p = b.place(l);
            lemma_expr_grows(x, w, *body, dest);
            lemma_expr_grows(x, p, *cont, dest);
            lemma_expr_lays(x, w, *body, dest);
            lemma_expr_lays(x, p, *cont, dest);
            let conts1 = conts.push((id.0, *cont));
            let cases1 = cases.push((l, p));
            assert(ids_of(conts1) =~= ids.push(id.0));
            lemma_carries(x, w, *body, dest, ids_of(conts1));
            lemma_carries(x, p, *cont, dest, ids);
            lemma_within(p, whole, z, whole.lines.len() as int);
            assert(b.places[l] == w.places[l]);
            lemma_placed(b, l, z);
            lemma_ready_more(x, z, a, w, b, dest, conts, cases, id.0, *cont, l);
            lemma_runs(x, w, *body, dest, z, conts1, cases1, env, globals, m)
        },
        CoreExpr::Goto(id) => {
            lemma_case_at(conts, id.0);
            let c = case_at(conts, id.0)->Some_0;
            assert(case_ready(x, z, a, dest, conts, cases, c));
            let (l, at) = cases[c];
            lemma_line(whole, z, s.pc);
            lemma_one(code, s);
            lemma_ready_before(x, z, a, dest, conts, cases, c);
            let k = lemma_runs(
                x,
                at,
                conts[c].1,
                dest,
                z,
                conts.take(c),
                cases.take(c),
                env,
                globals,
                m,
            );
            lemma_after_add(code, s, 1, k);
            1 + k
        },
    }
}

proof fn lemma_case_at(conts: Seq<(u32, CoreExpr)>, id: u32)
    ensures
        case_at(conts, id) matches Some(k) ==> 0 <= k < conts.len() && conts[k].0 == id,
    decreases conts.len(),
{
    if conts.len() > 0 {
        lemma_case_at(conts.drop_last(), id);
    }
}

/// One more case, loaded behind the body that it is for.
proof fn lemma_ready_more(
    x: Context,
    z: Draft,
    a: Draft,
    w: Draft,
    b: Draft,
    dest: Dest,
    conts: Seq<(u32, CoreExpr)>,
    cases: Seq<(int, Draft)>,
    id: u32,
    cont: CoreExpr,
    l: int,
)
    requires
        ready(x, z, a, dest, conts, cases),
        !ids_of(conts).contains(id),
        w.conts == a.conts.insert(id, l),
        carries(w, b, ids_of(conts.push((id, cont)))),
        0 <= l < z.places.len(),
        z.places[l] == Some(b.lines.len() as int),
        aims(b.place(l), dest),
        expr_code(x, b.place(l), cont, dest) matches Ok(c) && c.places.len() <= usize::MAX
            && within(c, z),
        unshadowed(cont, ids_of(conts)),
    ensures
        ready(x, z, w, dest, conts.push((id, cont)), cases.push((l, b.place(l)))),
{
    let conts1 = conts.push((id, cont));
    let cases1 = cases.push((l, b.place(l)));
    let n = conts.len() as int;
    assert(ids_of(conts1) =~= ids_of(conts).push(id));
    assert forall|j: int| 0 <= j < conts1.len() implies #[trigger] case_ready(
        x,
        z,
        w,
        dest,
        conts1,
        cases1,
        j,
    ) by {
        assert(conts1.take(n) =~= conts);
        if j < n {
            assert(case_ready(x, z, a, dest, conts, cases, j));
            assert(ids_of(conts)[j] == conts[j].0);
            assert(ids_of(conts).contains(conts[j].0));
            assert(conts1.take(j) =~= conts.take(j));
            assert(conts1[j] == conts[j] && cases1[j] == cases[j]);
            assert forall|i: int| 0 <= i < j implies cases1[j].1.conts.dom().contains(
                (#[trigger] conts1[i]).0,
            ) && cases1[j].1.conts[conts1[i].0] == cases1[i].0 by {
                assert(conts1[i] == conts[i]);
            }
        } else {
            assert forall|i: int| 0 <= i < j implies cases1[j].1.conts.dom().contains(
                (#[trigger] conts1[i]).0,
            ) && cases1[j].1.conts[conts1[i].0] == cases1[i].0 by {
                assert(case_ready(x, z, a, dest, conts, cases, i));
                assert(conts1[i] == conts[i] && cases1[i] == cases[i]);
                assert(ids_of(conts)[i] == conts[i].0);
                assert(ids_of(conts).contains(conts[i].0));
                assert(ids_of(conts1)[i] == conts[i].0);
                assert(ids_of(conts1).contains(conts[i].0));
                assert(w.conts.dom().contains(conts[i].0));
            }
        }
    }
}

/// What shadows none of some names shadows none of fewer.
proof fn lemma_unshadowed_less(e: CoreExpr, ids: Seq<u32>, fewer: Seq<u32>)
    requires
        unshadowed(e, ids),
        forall|id: u32| #[trigger] fewer.contains(id) ==> ids.contains(id),
    ensures
        unshadowed(e, fewer),
    decreases e,
{
    match e {
        CoreExpr::Let { bind, rhs, body } => lemma_unshadowed_less(*body, ids, fewer),
        CoreExpr::Drop { local, body } => lemma_unshadowed_less(*body, ids, fewer),
        CoreExpr::Tail(_) => {},
        CoreExpr::LetJoin { bind, join, body } => {
            lemma_unshadowed_less(*join, ids, fewer);
            lemma_unshadowed_less(*body, ids, fewer);
        },
        CoreExpr::If { cond, then, els } => {
            lemma_unshadowed_less(*then, ids, fewer);
            lemma_unshadowed_less(*els, ids, fewer);
        },
        CoreExpr::Match { scrut, arms } => lemma_unshadowed_arms_less(arms@, ids, fewer),
        CoreExpr::LetCont { id, cont, body } => {
            lemma_unshadowed_less(*cont, ids, fewer);
            assert forall|k: u32| #[trigger] fewer.push(id.0).contains(k) implies ids.push(
                id.0,
            ).contains(k) by {
                let i = choose|i: int| 0 <= i < fewer.push(id.0).len() && fewer.push(id.0)[i] == k;
                if i < fewer.len() {
                    assert(fewer[i] == k);
                    assert(fewer.contains(k));
                    let j = choose|j: int| 0 <= j < ids.len() && ids[j] == k;
                    assert(ids.push(id.0)[j] == k);
                } else {
                    assert(ids.push(id.0)[ids.len() as int] == k);
                }
            }
            lemma_unshadowed_less(*body, ids.push(id.0), fewer.push(id.0));
        },
        CoreExpr::Goto(_) => {},
    }
}

proof fn lemma_unshadowed_arms_less(arms: Seq<Arm>, ids: Seq<u32>, fewer: Seq<u32>)
    requires
        unshadowed_arms(arms, ids),
        forall|id: u32| #[trigger] fewer.contains(id) ==> ids.contains(id),
    ensures
        unshadowed_arms(arms, fewer),
    decreases arms,
{
    if arms.len() > 0 {
        lemma_unshadowed_arms_less(arms.drop_last(), ids, fewer);
        lemma_unshadowed_less(arms[arms.len() - 1].body, ids, fewer);
    }
}

/// The code of a match runs the first arm that fits.
proof fn lemma_arms_run(
    x: Context,
    a: Draft,
    scrut: LocalId,
    arms: Seq<Arm>,
    dest: Dest,
    z: Draft,
    conts: Seq<(u32, CoreExpr)>,
    cases: Seq<(int, Draft)>,
    env: Seq<Data>,
    globals: Seq<Data>,
    i: int,
    n: nat,
) -> (k: nat)
    requires
        aims(a, dest),
        arms_code(x, a, Reg(scrut.0), arms, dest) matches Ok(b) && b.places.len() <= usize::MAX
            && within(b, z),
        z.next <= env.len(),
        unshadowed_arms(arms, ids_of(conts)),
        ready(x, z, a, dest, conts, cases),
        is_first_arm(x.consts, arms, local(env, scrut), i),
        taken(env, scrut, arms[i].pat) is Some,
        value_of(
            x.consts,
            taken(env, scrut, arms[i].pat)->Some_0,
            globals,
            conts,
            arms[i].body,
            n,
        ) is Some,
    ensures
        after(z.code(), (At { pc: a.lines.len() as int, env, globals }), k) is Some,
        landed(
            z,
            dest,
            value_of(
                x.consts,
                taken(env, scrut, arms[i].pat)->Some_0,
                globals,
                conts,
                arms[i].body,
                n,
            )->Some_0,
            after(z.code(), (At { pc: a.lines.len() as int, env, globals }), k)->Some_0,
        ),
        value_of(
            x.consts,
            taken(env, scrut, arms[i].pat)->Some_0,
            globals,
            conts,
            arms[i].body,
            n,
        )->Some_0.env.len() == env.len(),
    decreases n, arms.len() + 1,
{
    let code = z.code();
    let src = Reg(scrut.0);
    let ids = ids_of(conts);
    let s = At { pc: a.lines.len() as int, env, globals };
    let init = arms.drop_last();
    lemma_arm(x, a, src, arms, dest, z, ids);
    let b = arms_code(x, a, src, init, dest)->Ok_0;
    let l = b.places.len() as int;
    if i < init.len() {
        assert(init[i] == arms[i]);
        assert forall|j: int| 0 <= j < i implies !fits(
            x.consts,
            (#[trigger] init[j]).pat,
            local(env, scrut),
        ) by {
            assert(init[j] == arms[j]);
        }
        lemma_arms_run(x, a, scrut, init, dest, z, conts, cases, env, globals, i, n)
    } else {
        let arm = arms[arms.len() - 1];
        let w = b.with_label();
        let c = pattern_code(x, w, src, arm.pat, l)->Ok_0;
        assert forall|j: int| 0 <= j < init.len() implies !fits(
            x.consts,
            (#[trigger] init[j]).pat,
            local(env, scrut),
        ) by {
            assert(init[j] == arms[j]);
        }
        let k1 = lemma_arms_missed(x, a, scrut, init, dest, z, ids, env, globals);
        let k2 = lemma_pattern_fits(x, w, scrut, arm.pat, l, z, env, globals);
        lemma_after_add(code, s, k1, k2);
        lemma_ready(x, z, a, c, dest, conts, cases);
        let env1 = taken(env, scrut, arm.pat)->Some_0;
        let k3 = lemma_runs(x, c, arm.body, dest, z, conts, cases, env1, globals, n);
        lemma_after_add(code, s, k1 + k2, k3);
        k1 + k2 + k3
    }
}

} // verus!
