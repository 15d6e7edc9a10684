//! What the machine's instructions do, told by what values are: which way a
//! test goes, and what an instruction puts in its register.

use crate::vm::bigint::{IntOp, quotient, remainder};
use crate::vm::binary::bits_in;
use crate::vm::cells::{closure_data, ctor_data, value_words};
use crate::vm::compute::{joined_texts, not_text};
use crate::vm::exec::{
    computes, Event, gives, jumps, lemma_scene, Machine, outcome, stepped, stop_of, stops, target,
};
use crate::vm::instr::{Instr, Reg};
use crate::vm::meaning::{
    below, Data, lemma_meaning, lemma_values_in, meaning, meanings, one_zero, parts,
};
use crate::vm::nodes::live;
use crate::vm::record::{keeps, Kind, Record};
use crate::vm::scene::{Stop, value_at};
use crate::vm::sound::{lemma_array_keep_live, sound, valid};
use crate::vm::value::{self, Value, variant_of, VariantRef};
use vstd::prelude::*;

verus! {

/// What is in two heaps is the same in both.
pub proof fn lemma_meaning_kept(a: Record, b: Record, v: Value)
    requires
        a.shaped(),
        b.shaped(),
        sound(a),
        sound(b),
        keeps(a, b),
        v.ok(),
        live(a, v),
        live(b, v),
    ensures
        meaning(b, v) == meaning(a, v),
    decreases crate::vm::meaning::depth(a, v),
{
    lemma_meaning(a, v);
    lemma_meaning(b, v);
    if let Some(c) = v.spec_cell() {
        assert(valid(a, c) && valid(b, c));
        assert(a.has(c) && b.has(c));
        assert(b.cells[c] == a.cells[c]);
        let body = a.cells[c];
        if body.kind is ArrayRoot {
            lemma_array_keep_live(a, b, c);
        }
        if body.kind is BinarySlice {
            let o = (Value { bits: body.data[0] }).spec_cell()->Some_0;
            assert(a.has(o) && b.has(o));
            assert(b.cells[o] == a.cells[o]);
        }
        let vs = parts(a, c);
        assert(parts(b, c) == vs);
        assert forall|i: int| 0 <= i < vs.len() implies meaning(b, vs[i]) == meaning(a, vs[i]) by {
            assert(below(a, vs[i], a.rank[c]));
            assert(below(b, vs[i], b.rank[c]));
            lemma_meaning_kept(a, b, vs[i]);
        }
        assert(meanings(b, vs) =~= meanings(a, vs));
        if body.kind is Binary || body.kind is BinarySlice {
            assert(bits_in(b, c).shown(b) =~= bits_in(a, c).shown(a));
        }
    }
}

/// What some values are in a heap.
pub open spec fn seen(r: Record, vs: Seq<Value>, from: int) -> Seq<Data> {
    Seq::new((vs.len() - from) as nat, |i: int| meaning(r, vs[from + i]))
}

/// What the registers of the function under way hold.
pub open spec fn locals(m: Machine) -> Seq<Data> {
    seen(m.heap.record(), m.regs@, m.top().base as int)
}

/// What the globals hold.
pub open spec fn shared(m: Machine) -> Seq<Data> {
    seen(m.heap.record(), m.globals@, 0)
}

/// What the function under way runs as.
pub open spec fn itself(m: Machine) -> Data {
    meaning(m.heap.record(), m.top().env)
}

/// What a register holds, or `Nil` past the last.
pub open spec fn look(env: Seq<Data>, r: Reg) -> Data {
    if r.0 < env.len() {
        env[r.0 as int]
    } else {
        Data::Nil
    }
}

pub open spec fn look_all(env: Seq<Data>, rs: Seq<Reg>) -> Seq<Data> {
    Seq::new(rs.len(), |i: int| look(env, rs[i]))
}

/// Registers after one took a value.
pub open spec fn put(env: Seq<Data>, r: Reg, d: Data) -> Seq<Data> {
    if r.0 < env.len() {
        env.update(r.0 as int, d)
    } else {
        env
    }
}

/// A value is a constructor, with fields or without.
pub open spec fn is_of(d: Data, v: VariantRef) -> bool {
    d == Data::Nullary(v) || (d matches Data::Ctor(w, _) && w == v)
}

/// What two Ints come to.
pub open spec fn arithmetic(op: IntOp, m: int, n: int) -> Data {
    match op {
        IntOp::Add => Data::Int(m + n),
        IntOp::Sub => Data::Int(m - n),
        IntOp::Mul => Data::Int(m * n),
        IntOp::Div => Data::Int(quotient(m, n)),
        IntOp::Rem => Data::Int(remainder(m, n)),
        IntOp::Eq => Data::Bool(m == n),
        IntOp::Ne => Data::Bool(m != n),
        IntOp::Lt => Data::Bool(m < n),
        IntOp::Le => Data::Bool(m <= n),
        IntOp::Gt => Data::Bool(m > n),
        IntOp::Ge => Data::Bool(m >= n),
    }
}

/// Texts one after the other, or `None` when one of the values is no text.
pub open spec fn joined(ds: Seq<Data>) -> Option<Seq<u8>>
    decreases ds.len(),
{
    if ds.len() == 0 {
        Some(Seq::empty())
    } else {
        match (joined(ds.drop_last()), ds.last()) {
            (Some(front), Data::Text(back)) => Some(front + back),
            _ => None,
        }
    }
}

/// What a word that names no cell is.
pub open spec fn word_data(v: Value) -> Data {
    match v.spec_view() {
        value::View::Int(n) => Data::Int(n as int),
        value::View::Float(bits) => Data::Float(one_zero(bits)),
        value::View::Nil => Data::Nil,
        value::View::Bool(b) => Data::Bool(b),
        value::View::Func(f) => Data::Func(f),
        value::View::Nullary(n) => Data::Nullary(n),
        value::View::Cell(c) => Data::Inner(c),
    }
}

/// The part of a value at a place.
pub open spec fn part_at(kids: Seq<Data>, i: int) -> Option<Data> {
    if 0 <= i < kids.len() {
        Some(kids[i])
    } else {
        None
    }
}

/// An instruction over words, Ints, strings, constructors, closures or tuples.
pub open spec fn plain(i: Instr) -> bool {
    i is Const || i is Str || i is BigInt || i is Move || i is GetGlobal || i is Int || i is IntNeg
        || i is Concat || i is Ctor || i is Closure || i is GetCapture || i is GetSelf
        || i is Field || i is Tuple || i is Element || i is Equal || i is NotEqual || i is Not
}

/// The register it writes.
pub open spec fn writes(i: Instr) -> Reg {
    match i {
        Instr::Const { dst, .. } => dst,
        Instr::Str { dst, .. } => dst,
        Instr::BigInt { dst, .. } => dst,
        Instr::Move { dst, .. } => dst,
        Instr::GetGlobal { dst, .. } => dst,
        Instr::Int { dst, .. } => dst,
        Instr::IntNeg { dst, .. } => dst,
        Instr::Concat { dst, .. } => dst,
        Instr::Ctor { dst, .. } => dst,
        Instr::Closure { dst, .. } => dst,
        Instr::GetCapture { dst, .. } => dst,
        Instr::GetSelf { dst, .. } => dst,
        Instr::Field { dst, .. } => dst,
        Instr::Tuple { dst, .. } => dst,
        Instr::Element { dst, .. } => dst,
        Instr::Equal { dst, .. } => dst,
        Instr::NotEqual { dst, .. } => dst,
        Instr::Not { dst, .. } => dst,
        _ => Reg(0),
    }
}

/// What such an instruction comes to, from what the registers and globals hold
/// and what the function runs as, or `None` when what it reads is not what it
/// works on.
pub open spec fn comes_to(i: Instr, env: Seq<Data>, globals: Seq<Data>, me: Data) -> Option<Data> {
    match i {
        Instr::Const { dst, value } => Some(word_data(value)),
        Instr::Str { dst, text } => Some(Data::Text(text@)),
        Instr::BigInt { dst, n } => Some(Data::Int(n as int)),
        Instr::Move { dst, src } => Some(look(env, src)),
        Instr::GetGlobal { dst, slot } => Some(look(globals, Reg(slot.0))),
        Instr::Int { dst, op, a, b } => match (look(env, a), look(env, b)) {
            (Data::Int(m), Data::Int(n)) => Some(arithmetic(op, m, n)),
            _ => None,
        },
        Instr::IntNeg { dst, a } => match look(env, a) {
            Data::Int(n) => Some(Data::Int(-n)),
            _ => None,
        },
        Instr::Concat { dst, parts } => match joined(look_all(env, parts@)) {
            Some(text) => Some(Data::Text(text)),
            None => None,
        },
        Instr::Ctor { dst, variant, fields } => Some(Data::Ctor(variant, look_all(env, fields@))),
        Instr::Closure { dst, func, captures } => Some(
            Data::Closure(func, look_all(env, captures@)),
        ),
        Instr::GetCapture { dst, index } => match me {
            Data::Closure(_, kids) => part_at(kids, index as int),
            _ => None,
        },
        Instr::GetSelf { dst, this } => Some(
            if me is Nil {
                Data::Func(this)
            } else {
                me
            },
        ),
        Instr::Field { dst, src, index } => match look(env, src) {
            Data::Ctor(_, kids) => part_at(kids, index as int),
            _ => None,
        },
        Instr::Tuple { dst, elements } => Some(Data::Tuple(look_all(env, elements@))),
        Instr::Element { dst, src, index } => match look(env, src) {
            Data::Tuple(kids) => part_at(kids, index as int),
            _ => None,
        },
        Instr::Equal { dst, a, b } => Some(Data::Bool(look(env, a) == look(env, b))),
        Instr::NotEqual { dst, a, b } => Some(Data::Bool(look(env, a) != look(env, b))),
        Instr::Not { dst, a } => match look(env, a) {
            Data::Bool(t) => Some(Data::Bool(!t)),
            _ => None,
        },
        _ => None,
    }
}

/// The function under way went on at `pc`, with what `env` and `globals` say in
/// its registers and in the globals. The frames below it are as they were, and
/// so is what their registers hold.
pub open spec fn went_on(a: Machine, b: Machine, pc: int, env: Seq<Data>, globals: Seq<Data>) -> bool {
    let n = a.frames@.len() - 1;
    let base = a.top().base as int;
    &&& b.frames@.len() == a.frames@.len()
    &&& forall|i: int| 0 <= i < n ==> #[trigger] b.frames@[i] == a.frames@[i]
    &&& b.top().pc == pc
    &&& b.top().body == a.top().body
    &&& b.top().base == a.top().base
    &&& b.top().env == a.top().env
    &&& b.top().ret_to == a.top().ret_to
    &&& b.waiting is None
    &&& b.regs@.len() == a.regs@.len()
    &&& forall|i: int|
        0 <= i < base ==> #[trigger] seen(b.heap.record(), b.regs@, 0)[i] == seen(
            a.heap.record(),
            a.regs@,
            0,
        )[i]
    &&& locals(b) == env
    &&& shared(b) == globals
    &&& itself(b) == itself(a)
}

/// A machine that has an instruction to run, and what comes of running it.
pub open spec fn steps(a: Machine, b: Machine, r: Result<Event, Stop>) -> bool {
    &&& a.wf()
    &&& a.frames@.len() > 0
    &&& a.waiting is None
    &&& a.top().pc < a.top().body.instrs@.len()
    &&& outcome(a, b, r)
}

/// What a register of a machine's last frame holds.
pub proof fn lemma_look(m: Machine, r: Reg)
    requires
        m.wf(),
        m.frames@.len() > 0,
    ensures
        look(locals(m), r) == meaning(m.heap.record(), m.scene().at(r)),
        m.scene().at(r).ok(),
        live(m.heap.record(), m.scene().at(r)),
        m.top().base <= m.regs@.len(),
        m.scene().ok(m.heap.record()),
        m.heap.record().shaped(),
        sound(m.heap.record()),
{
    lemma_scene(m);
    let rec = m.heap.record();
    m.scene().lemma_at(rec, r);
    assert(crate::vm::exec::ends_at(m.frames@, m.regs@.len() as int, m.frames@.len() - 1));
    let i = m.top().base + r.0;
    if i >= m.regs@.len() {
        lemma_meaning(rec, m.scene().at(r));
    }
}

/// A test goes by what the value is: the run falls through into the arm exactly
/// when the value is the literal, or a constructor of the variant, and jumps
/// otherwise; a branch falls through on `True` and jumps on `False`. Nothing
/// else changes, and only a branch on what is no Bool stops the run.
pub proof fn law_a_test_takes_the_arm_that_fits(a: Machine, b: Machine, r: Result<Event, Stop>)
    requires
        steps(a, b, r),
    ensures
        ({
            let env = locals(a);
            let next = a.top().pc + 1;
            let goes = match a.instr() {
                Instr::Jump { to } => Some(to as int),
                Instr::JumpIfFalse { cond, to } => match look(env, cond) {
                    Data::Bool(true) => Some(next),
                    Data::Bool(false) => Some(to as int),
                    _ => None,
                },
                Instr::JumpUnlessVariant { src, variant, to } => if is_of(look(env, src), variant) {
                    Some(next)
                } else {
                    Some(to as int)
                },
                Instr::JumpUnlessInt { src, n, to } => if look(env, src) == Data::Int(n as int) {
                    Some(next)
                } else {
                    Some(to as int)
                },
                Instr::JumpUnlessStr { src, text, to } => if look(env, src) == Data::Text(text@) {
                    Some(next)
                } else {
                    Some(to as int)
                },
                _ => None,
            };
            let jump = a.instr() is Jump || a.instr() is JumpIfFalse || a.instr() is JumpUnlessVariant
                || a.instr() is JumpUnlessInt || a.instr() is JumpUnlessStr;
            jump ==> match (goes, r) {
                (Some(pc), Ok(ev)) => ev == Event::Going && b.wf() && went_on(
                    a,
                    b,
                    pc,
                    env,
                    shared(a),
                ),
                (Some(_), Err(e)) => e == Stop::HeapFull,
                (None, _) => r is Err,
            }
        }),
{
    reveal(stepped);
    reveal(jumps);
    reveal(computes);
    reveal(stop_of);
    let rec = a.heap.record();
    let _ = a.top().body.instrs.len();
    match a.instr() {
        Instr::JumpIfFalse { cond, to } => {
            lemma_look(a, cond);
            lemma_meaning(rec, a.scene().at(cond));
        },
        Instr::JumpUnlessVariant { src, variant, to } => {
            lemma_look(a, src);
            lemma_meaning(rec, a.scene().at(src));
        },
        Instr::JumpUnlessInt { src, n, to } => {
            lemma_look(a, src);
            lemma_meaning(rec, a.scene().at(src));
        },
        Instr::JumpUnlessStr { src, text, to } => {
            lemma_look(a, src);
            lemma_meaning(rec, a.scene().at(src));
        },
        _ => {},
    }
    if r is Ok && a.instr() is Jump {
        assert(jumps(a) is Some);
    }
}

/// Cells that were made, and then given up, leave the others as they were.
proof fn lemma_keeps(a: Machine, b: Machine)
    requires
        crate::vm::exec::heap_moved(a, b),
    ensures
        keeps(a.heap.record(), b.heap.record()),
{
    let (x, m, y) = (a.heap.record(), b.made@, b.heap.record());
    assert forall|c: crate::vm::value::Cell| #[trigger] x.has(c) && y.has(c) implies y.cells[c]
        == x.cells[c] by {
        assert(m.has(c));
    }
}

/// What a value that both heaps hold is stays the same over a step.
pub proof fn lemma_same(a: Machine, b: Machine, v: Value)
    requires
        a.wf(),
        b.heap.wf(),
        sound(b.heap.record()),
        crate::vm::exec::heap_moved(a, b),
        v.ok(),
        live(a.heap.record(), v),
        live(b.heap.record(), v),
    ensures
        meaning(b.heap.record(), v) == meaning(a.heap.record(), v),
{
    a.heap.lemma_record_ok();
    b.heap.lemma_record_ok();
    lemma_keeps(a, b);
    lemma_meaning_kept(a.heap.record(), b.heap.record(), v);
}

/// After a register took a value, the others hold what they held.
pub proof fn lemma_wrote(a: Machine, b: Machine, dst: Reg, v: Value)
    requires
        a.wf(),
        b.wf(),
        a.frames@.len() > 0,
        a.waiting is None,
        a.top().pc < a.top().body.instrs@.len(),
        crate::vm::exec::wrote(a, b, dst, v),
        a.top().base + dst.0 < a.regs@.len() ==> v == b.regs@[a.top().base + dst.0],
    ensures
        went_on(
            a,
            b,
            a.top().pc + 1,
            put(locals(a), dst, meaning(b.heap.record(), v)),
            shared(a),
        ),
{
    let (x, y) = (a.heap.record(), b.heap.record());
    let base = a.top().base as int;
    let _ = a.top().body.instrs.len();
    lemma_look(a, dst);
    lemma_look(b, dst);
    let at = base + dst.0;
    assert forall|i: int| 0 <= i < a.regs@.len() && i != at implies meaning(y, b.regs@[i])
        == #[trigger] meaning(x, a.regs@[i]) by {
        assert(a.regs@[i].ok() && live(x, a.regs@[i]));
        assert(b.regs@[i] == a.regs@[i]);
        assert(live(y, b.regs@[i]));
        lemma_same(a, b, a.regs@[i]);
    }
    assert forall|i: int| 0 <= i < a.globals@.len() implies meaning(y, b.globals@[i])
        == #[trigger] meaning(x, a.globals@[i]) by {
        assert(a.globals@[i].ok() && live(x, a.globals@[i]));
        assert(b.globals@[i] == a.globals@[i]);
        assert(live(y, b.globals@[i]));
        lemma_same(a, b, a.globals@[i]);
    }
    let env = put(locals(a), dst, meaning(y, v));
    assert forall|i: int| 0 <= i < env.len() implies locals(b)[i] == env[i] by {
        if i != dst.0 {
            assert(meaning(x, a.regs@[base + i]) == locals(a)[i]);
        }
    }
    assert(locals(b) =~= env);
    assert forall|i: int| 0 <= i < a.globals@.len() implies shared(b)[i] == shared(a)[i] by {
        assert(meaning(x, a.globals@[0 + i]) == shared(a)[i]);
    }
    assert(shared(b) =~= shared(a));
    assert forall|i: int| 0 <= i < base implies #[trigger] seen(y, b.regs@, 0)[i] == seen(
        x,
        a.regs@,
        0,
    )[i] by {
        assert(meaning(x, a.regs@[0 + i]) == seen(x, a.regs@, 0)[i]);
    }
    lemma_same(a, b, a.top().env);
}

/// What registers hold, all of them.
pub proof fn lemma_look_all(m: Machine, rs: Seq<Reg>)
    requires
        m.wf(),
        m.frames@.len() > 0,
    ensures
        look_all(locals(m), rs) == meanings(m.heap.record(), m.scene().all_at(rs)),
{
    assert forall|i: int| 0 <= i < rs.len() implies look(locals(m), rs[i]) == meaning(
        m.heap.record(),
        m.scene().all_at(rs)[i],
    ) by {
        lemma_look(m, rs[i]);
    }
    assert(look_all(locals(m), rs) =~= meanings(m.heap.record(), m.scene().all_at(rs)));
}

/// Strings are joined by what they say.
proof fn lemma_joined(r: Record, vs: Seq<Value>)
    requires
        r.shaped(),
        sound(r),
        forall|i: int| 0 <= i < vs.len() ==> (#[trigger] vs[i]).ok() && live(r, vs[i]),
    ensures
        not_text(r, vs) is None <==> joined(meanings(r, vs)) is Some,
        joined(meanings(r, vs)) matches Some(text) ==> text == joined_texts(r, vs),
    decreases vs.len(),
{
    let ds = meanings(r, vs);
    if vs.len() > 0 {
        let init = vs.drop_last();
        assert forall|i: int| 0 <= i < init.len() implies (#[trigger] init[i]).ok() && live(
            r,
            init[i],
        ) by {
            assert(init[i] == vs[i]);
        }
        lemma_joined(r, init);
        assert(ds.drop_last() =~= meanings(r, init));
        assert(vs[vs.len() - 1].ok());
        lemma_meaning(r, vs.last());
        assert(ds.last() == meaning(r, vs.last()));
    }
}

/// A new cell over the values of registers holds what they hold.
proof fn lemma_new(a: Machine, b: Machine, v: Value, rs: Seq<Reg>, kind: Kind, data: Seq<u64>, from: int)
    requires
        a.wf(),
        b.wf(),
        a.frames@.len() > 0,
        crate::vm::exec::heap_moved(a, b),
        crate::vm::compute::new_cell(a.heap.record(), b.made@, v, kind, data),
        v.ok(),
        live(b.heap.record(), v),
        kind is Ctor && from == 1 || kind is Closure && from == 1 || kind is Tuple && from == 0,
        from <= data.len(),
        data.skip(from) == value_words(a.scene().all_at(rs)),
    ensures
        b.heap.record().cells[v.spec_cell()->Some_0].kind == kind,
        b.heap.record().cells[v.spec_cell()->Some_0].data == data,
        meaning(b.heap.record(), v) == crate::vm::meaning::shape(
            b.heap.record(),
            v,
            look_all(locals(a), rs),
        ),
{
    let (x, m, y) = (a.heap.record(), b.made@, b.heap.record());
    let c = v.spec_cell()->Some_0;
    b.heap.lemma_record_ok();
    assert(y.has(c));
    assert(y.cells[c] == m.cells[c]);
    lemma_meaning(y, v);
    let vs = a.scene().all_at(rs);
    lemma_values_in(vs, data, from);
    lemma_look_all(a, rs);
    assert forall|i: int| 0 <= i < vs.len() implies meaning(y, vs[i]) == meaning(x, vs[i]) by {
        lemma_look(a, rs[i]);
        assert(vs[i] == a.scene().at(rs[i]));
        assert(parts(y, c)[i] == vs[i]);
        assert(below(y, parts(y, c)[i], y.rank[c]));
        lemma_same(a, b, vs[i]);
    }
    assert(meanings(y, vs) =~= meanings(x, vs));
}

/// What an instruction over whole values put in its register is what it comes to.
proof fn lemma_word_comes_to(a: Machine, b: Machine, v: Value)
    requires
        a.wf(),
        b.wf(),
        a.frames@.len() > 0,
        a.top().pc < a.top().body.instrs@.len(),
        crate::vm::exec::heap_moved(a, b),
        a.instr() is Const || a.instr() is Move || a.instr() is GetGlobal || a.instr() is GetSelf || a.instr() is Equal || a.instr() is NotEqual || a.instr() is Not,
        stop_of(a) is None,
        gives(a.instr(), a.scene(), a.heap.record(), b.made@, v),
        v.ok(),
        live(b.heap.record(), v),
    ensures
        comes_to(a.instr(), locals(a), shared(a), itself(a)) == Some(
            meaning(b.heap.record(), v),
        ),
{
    reveal(gives);
    reveal(stop_of);
    reveal(stops);
    reveal(computes);
    let (x, m, y) = (a.heap.record(), b.made@, b.heap.record());
    let s = a.scene();
    b.heap.lemma_record_ok();
    lemma_look(a, Reg(0));
    lemma_meaning(y, v);
    if v.spec_cell() is Some {
        assert(y.has(v.spec_cell()->Some_0));
        assert(y.cells[v.spec_cell()->Some_0] == m.cells[v.spec_cell()->Some_0]);
    }
    match a.instr() {
        Instr::Const { dst, value } => {
            assert(crate::vm::compute::const_ok(a.top().body.instrs@[a.top().pc as int]));
        },
        Instr::Move { dst, src } => {
            lemma_look(a, src);
            lemma_same(a, b, v);
        },
        Instr::GetGlobal { dst, slot } => {
            if slot.0 < s.globals@.len() {
                assert(s.globals@[slot.0 as int].ok() && live(x, s.globals@[slot.0 as int]));
                lemma_same(a, b, v);
            }
        },
        Instr::GetSelf { dst, this } => {
            lemma_meaning(x, s.env);
            if !(s.env.spec_view() is Nil) {
                lemma_same(a, b, v);
            }
        },
        Instr::Equal { dst, a: p, b: q } => {
            lemma_look(a, p);
            lemma_look(a, q);
        },
        Instr::NotEqual { dst, a: p, b: q } => {
            lemma_look(a, p);
            lemma_look(a, q);
        },
        Instr::Not { dst, a: p } => {
            lemma_look(a, p);
            lemma_meaning(x, s.at(p));
        },
        _ => {},
    }
}

/// What a new cell is.
proof fn lemma_cell_comes_to(a: Machine, b: Machine, v: Value)
    requires
        a.wf(),
        b.wf(),
        a.frames@.len() > 0,
        a.top().pc < a.top().body.instrs@.len(),
        crate::vm::exec::heap_moved(a, b),
        a.instr() is Ctor || a.instr() is Closure || a.instr() is Tuple,
        stop_of(a) is None,
        gives(a.instr(), a.scene(), a.heap.record(), b.made@, v),
        v.ok(),
        live(b.heap.record(), v),
    ensures
        comes_to(a.instr(), locals(a), shared(a), itself(a)) == Some(
            meaning(b.heap.record(), v),
        ),
{
    reveal(gives);
    reveal(stop_of);
    reveal(stops);
    reveal(computes);
    let (x, m, y) = (a.heap.record(), b.made@, b.heap.record());
    let s = a.scene();
    b.heap.lemma_record_ok();
    lemma_look(a, Reg(0));
    lemma_meaning(y, v);
    if v.spec_cell() is Some {
        assert(y.has(v.spec_cell()->Some_0));
        assert(y.cells[v.spec_cell()->Some_0] == m.cells[v.spec_cell()->Some_0]);
    }
    match a.instr() {
        Instr::Ctor { dst, variant, fields } => {
            let data = ctor_data(variant, s.all_at(fields@));
            assert(data.skip(1) =~= value_words(s.all_at(fields@)));
            lemma_new(a, b, v, fields@, Kind::Ctor, data, 1);
            lemma_variant_word(variant);
        },
        Instr::Closure { dst, func, captures } => {
            let data = closure_data(func, s.all_at(captures@));
            assert(data.skip(1) =~= value_words(s.all_at(captures@)));
            lemma_new(a, b, v, captures@, Kind::Closure, data, 1);
        },
        Instr::Tuple { dst, elements } => {
            let data = value_words(s.all_at(elements@));
            assert(data.skip(0) =~= data);
            lemma_new(a, b, v, elements@, Kind::Tuple, data, 0);
        },
        _ => {},
    }
}

/// What a part that is read out is.
proof fn lemma_part_comes_to(a: Machine, b: Machine, v: Value)
    requires
        a.wf(),
        b.wf(),
        a.frames@.len() > 0,
        a.top().pc < a.top().body.instrs@.len(),
        crate::vm::exec::heap_moved(a, b),
        a.instr() is GetCapture || a.instr() is Field || a.instr() is Element,
        stop_of(a) is None,
        gives(a.instr(), a.scene(), a.heap.record(), b.made@, v),
        v.ok(),
        live(b.heap.record(), v),
    ensures
        comes_to(a.instr(), locals(a), shared(a), itself(a)) == Some(
            meaning(b.heap.record(), v),
        ),
{
    reveal(gives);
    reveal(stop_of);
    reveal(stops);
    reveal(computes);
    let (x, m, y) = (a.heap.record(), b.made@, b.heap.record());
    let s = a.scene();
    b.heap.lemma_record_ok();
    lemma_look(a, Reg(0));
    lemma_meaning(y, v);
    if v.spec_cell() is Some {
        assert(y.has(v.spec_cell()->Some_0));
        assert(y.cells[v.spec_cell()->Some_0] == m.cells[v.spec_cell()->Some_0]);
    }
    match a.instr() {
        Instr::GetCapture { dst, index } => {
            lemma_meaning(x, s.env);
            lemma_part(a, b, s.env, index as int, v);
        },
        Instr::Field { dst, src, index } => {
            lemma_look(a, src);
            lemma_meaning(x, s.at(src));
            lemma_part(a, b, s.at(src), index as int, v);
        },
        Instr::Element { dst, src, index } => {
            lemma_look(a, src);
            lemma_meaning(x, s.at(src));
            lemma_part(a, b, s.at(src), index as int, v);
        },
        _ => {},
    }
}

/// What an Int or a string that is made is.
proof fn lemma_text_comes_to(a: Machine, b: Machine, v: Value)
    requires
        a.wf(),
        b.wf(),
        a.frames@.len() > 0,
        a.top().pc < a.top().body.instrs@.len(),
        crate::vm::exec::heap_moved(a, b),
        a.instr() is Str || a.instr() is BigInt || a.instr() is Int || a.instr() is IntNeg || a.instr() is Concat,
        stop_of(a) is None,
        gives(a.instr(), a.scene(), a.heap.record(), b.made@, v),
        v.ok(),
        live(b.heap.record(), v),
    ensures
        comes_to(a.instr(), locals(a), shared(a), itself(a)) == Some(
            meaning(b.heap.record(), v),
        ),
{
    reveal(gives);
    reveal(stop_of);
    reveal(stops);
    reveal(computes);
    let (x, m, y) = (a.heap.record(), b.made@, b.heap.record());
    let s = a.scene();
    b.heap.lemma_record_ok();
    lemma_look(a, Reg(0));
    lemma_meaning(y, v);
    if v.spec_cell() is Some {
        assert(y.has(v.spec_cell()->Some_0));
        assert(y.cells[v.spec_cell()->Some_0] == m.cells[v.spec_cell()->Some_0]);
    }
    match a.instr() {
        Instr::Int { dst, op, a: p, b: q } => {
            lemma_look(a, p);
            lemma_look(a, q);
            lemma_meaning(x, s.at(p));
            lemma_meaning(x, s.at(q));
        },
        Instr::IntNeg { dst, a: p } => {
            lemma_look(a, p);
            lemma_meaning(x, s.at(p));
        },
        Instr::Concat { dst, parts } => {
            lemma_look_all(a, parts@);
            s.lemma_all_at(x, parts@);
            lemma_joined(x, s.all_at(parts@));
        },
        _ => {},
    }
}

/// A part of a value is what it was in it.
proof fn lemma_part(a: Machine, b: Machine, w: Value, i: int, v: Value)
    requires
        a.wf(),
        b.wf(),
        crate::vm::exec::heap_moved(a, b),
        w.ok(),
        live(a.heap.record(), w),
        0 <= i,
        i < crate::vm::meaning::parts_of(a.heap.record(), w).len(),
        v == crate::vm::meaning::parts_of(a.heap.record(), w)[i],
        v.ok(),
        live(b.heap.record(), v),
    ensures
        meanings(
            a.heap.record(),
            crate::vm::meaning::parts_of(a.heap.record(), w),
        )[i] == meaning(b.heap.record(), v),
{
    let x = a.heap.record();
    a.heap.lemma_record_ok();
    lemma_meaning(x, w);
    let c = w.spec_cell()->Some_0;
    assert(below(x, parts(x, c)[i], x.rank[c]));
    lemma_same(a, b, v);
}

/// A constructor's word names it.
pub proof fn lemma_variant_word(v: VariantRef)
    ensures
        variant_of(crate::vm::value::variant_bits(v)) == v,
{
    let low = crate::vm::value::unsigned(v.type_id.0);
    let bits = low + v.variant_idx * 0x1_0000_0000;
    assert(bits % 0x1_0000_0000 == low && bits / 0x1_0000_0000 == v.variant_idx);
}

/// An instruction does what it says: it puts in its register what it comes to,
/// from what the registers and globals hold, and the function goes on behind it
/// with everything else as it was. It stops the run exactly when it comes to
/// nothing, or when there is no room left.
pub proof fn law_an_instruction_does_what_it_says(a: Machine, b: Machine, r: Result<Event, Stop>)
    requires
        steps(a, b, r),
        plain(a.instr()),
    ensures
        match (comes_to(a.instr(), locals(a), shared(a), itself(a)), r) {
            (Some(d), Ok(ev)) => ev == Event::Going && b.wf() && went_on(
                a,
                b,
                a.top().pc + 1,
                put(locals(a), writes(a.instr()), d),
                shared(a),
            ),
            (Some(_), Err(e)) => e == Stop::HeapFull,
            (None, _) => r is Err,
        },
{
    let i = a.instr();
    let x = a.heap.record();
    let s = a.scene();
    assert(target(i) == writes(i)) by {
        reveal(target);
    }
    assert(computes(i)) by {
        reveal(computes);
    }
    lemma_look(a, writes(i));
    let at = a.top().base + writes(i).0;
    match r {
        Ok(ev) => {
            reveal(stepped);
            let v = value_at(b.regs@, at);
            lemma_look(b, writes(i));
            lemma_wrote(a, b, writes(i), v);
            if at < a.regs@.len() {
                if i is Const || i is Move || i is GetGlobal || i is GetSelf || i is Equal
                    || i is NotEqual || i is Not {
                    lemma_word_comes_to(a, b, v);
                } else if i is Ctor || i is Closure || i is Tuple {
                    lemma_cell_comes_to(a, b, v);
                } else if i is GetCapture || i is Field || i is Element {
                    lemma_part_comes_to(a, b, v);
                } else {
                    lemma_text_comes_to(a, b, v);
                }
            }
        },
        Err(e) => {},
    }
    lemma_not_stopped(a);
}

/// What comes to something does not stop, and nothing else does not.
proof fn lemma_not_stopped(a: Machine)
    requires
        a.wf(),
        a.frames@.len() > 0,
        a.top().pc < a.top().body.instrs@.len(),
        plain(a.instr()),
    ensures
        stop_of(a) is None <==> comes_to(a.instr(), locals(a), shared(a), itself(a)) is Some,
{
    reveal(stop_of);
    reveal(stops);
    reveal(computes);
    let x = a.heap.record();
    let s = a.scene();
    lemma_look(a, Reg(0));
    match a.instr() {
        Instr::Int { dst, op, a: p, b: q } => {
            lemma_look(a, p);
            lemma_look(a, q);
            lemma_meaning(x, s.at(p));
            lemma_meaning(x, s.at(q));
        },
        Instr::IntNeg { dst, a: p } => {
            lemma_look(a, p);
            lemma_meaning(x, s.at(p));
        },
        Instr::Concat { dst, parts } => {
            lemma_look_all(a, parts@);
            s.lemma_all_at(x, parts@);
            lemma_joined(x, s.all_at(parts@));
        },
        Instr::GetCapture { dst, index } => {
            lemma_meaning(x, s.env);
        },
        Instr::Field { dst, src, index } => {
            lemma_look(a, src);
            lemma_meaning(x, s.at(src));
        },
        Instr::Element { dst, src, index } => {
            lemma_look(a, src);
            lemma_meaning(x, s.at(src));
        },
        Instr::Not { dst, a: p } => {
            lemma_look(a, p);
            lemma_meaning(x, s.at(p));
        },
        _ => {},
    }
}

} // verus!
