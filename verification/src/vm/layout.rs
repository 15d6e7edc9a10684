//! What loaded code keeps to: every constant in it is a word of its own, every
//! jump stays inside it, and its last instruction does not fall through.

use crate::vm::code::{
    arms_code, atom_code, Context, Dest, Draft, expr_code, fn_code, Func, func_is, lemma_expr_grows,
    Line, ops, pattern_code, start, tail_code, with_atom, with_fields, with_global,
};
use crate::vm::compute::const_ok;
use crate::vm::core_ir::{Arm, Atom, Bind, CoreExpr, CoreFn, CorePat, LoweredFn};
use crate::vm::exec::func_ok;
use crate::vm::instr::{Op, Reg};
use vstd::prelude::*;

verus! {

/// A constant is a word of its own.
pub open spec fn const_op(op: Op) -> bool {
    op matches Op::Const { dst, value } ==> value.ok() && value.spec_cell() is None
}

/// What never goes on to the next instruction.
pub open spec fn ends_run(op: Op) -> bool {
    op is Ret || op is TailCall || op is Jump || op is Bad
}

/// Where a jump goes.
pub open spec fn goes_to(op: Op) -> Option<int> {
    match op {
        Op::Jump { to } => Some(to),
        Op::JumpIfFalse { to, .. } => Some(to),
        Op::JumpUnlessVariant { to, .. } => Some(to),
        Op::JumpUnlessInt { to, .. } => Some(to),
        Op::JumpUnlessStr { to, .. } => Some(to),
        _ => None,
    }
}

/// A line whose label, if it is a jump's, is one of the first `n`.
pub open spec fn line_ok(line: Line, n: int) -> bool {
    &&& const_op(line.op)
    &&& goes_to(line.op) is Some <==> line.to is Some
    &&& line.to matches Some(l) ==> 0 <= l < n
}

/// Code with more after it. The labels there were are where they were, and the
/// new ones are before `end`.
pub open spec fn extends(a: Draft, b: Draft, end: int) -> bool {
    &&& a.lines.len() <= b.lines.len()
    &&& forall|i: int| 0 <= i < a.lines.len() ==> #[trigger] b.lines[i] == a.lines[i]
    &&& a.places.len() <= b.places.len()
    &&& forall|l: int| 0 <= l < a.places.len() ==> #[trigger] b.places[l] == a.places[l]
    &&& forall|l: int|
        a.places.len() <= l < b.places.len() ==> (#[trigger] b.places[l] matches Some(at) && 0 <= at
            < end)
    &&& forall|i: int|
        a.lines.len() <= i < b.lines.len() ==> line_ok(
            #[trigger] b.lines[i],
            b.places.len() as int,
        )
}

/// Labels that what follows may jump to.
pub open spec fn aims(a: Draft, dest: Dest) -> bool {
    &&& dest matches Dest::Join { reg, after } ==> after < a.places.len()
    &&& forall|id: u32| #[trigger]
        a.conts.dom().contains(id) ==> 0 <= a.conts[id] < a.places.len()
}

/// An expression's code.
pub open spec fn laid(a: Draft, b: Draft, dest: Dest) -> bool {
    &&& extends(a, b, b.lines.len() as int)
    &&& a.lines.len() < b.lines.len()
    &&& ends_run(b.lines.last().op)
    &&& aims(b, dest)
}

proof fn lemma_then(a: Draft, b: Draft, c: Draft, e1: int, e2: int)
    requires
        extends(a, b, e1),
        extends(b, c, e2),
        e1 <= e2,
    ensures
        extends(a, c, e2),
{
    assert forall|i: int| 0 <= i < a.lines.len() implies #[trigger] c.lines[i] == a.lines[i] by {
        assert(c.lines[i] == b.lines[i]);
    }
    assert forall|l: int| 0 <= l < a.places.len() implies #[trigger] c.places[l] == a.places[l] by {
        assert(c.places[l] == b.places[l]);
    }
    assert forall|l: int| a.places.len() <= l < c.places.len() implies (#[trigger] c.places[l] matches Some(
        at,
    ) && 0 <= at < e2) by {
        if l < b.places.len() {
            assert(c.places[l] == b.places[l]);
        }
    }
    assert forall|i: int| a.lines.len() <= i < c.lines.len() implies line_ok(
        #[trigger] c.lines[i],
        c.places.len() as int,
    ) by {
        if i < b.lines.len() {
            assert(c.lines[i] == b.lines[i]);
        }
    }
}

/// Code with a new label `l`, placed between its two parts.
proof fn lemma_around(a: Draft, s: Draft, b: Draft, p: Draft, c: Draft, l: int)
    requires
        l == a.places.len(),
        s.places == a.places.push(None),
        a.lines.len() <= s.lines.len() <= a.lines.len() + 1,
        forall|i: int| 0 <= i < a.lines.len() ==> #[trigger] s.lines[i] == a.lines[i],
        forall|i: int|
            a.lines.len() <= i < s.lines.len() ==> line_ok(#[trigger] s.lines[i], l + 1),
        extends(s, b, b.lines.len() as int),
        p.places == b.places.update(l, Some(b.lines.len() as int)),
        p.lines == b.lines,
        extends(p, c, c.lines.len() as int),
        p.lines.len() < c.lines.len(),
    ensures
        extends(a, c, c.lines.len() as int),
{
    assert forall|i: int| 0 <= i < a.lines.len() implies #[trigger] c.lines[i] == a.lines[i] by {
        assert(c.lines[i] == p.lines[i]);
        assert(b.lines[i] == s.lines[i]);
    }
    assert forall|k: int| 0 <= k < a.places.len() implies #[trigger] c.places[k] == a.places[k] by {
        assert(c.places[k] == p.places[k]);
        assert(b.places[k] == s.places[k]);
    }
    assert forall|k: int| a.places.len() <= k < c.places.len() implies (#[trigger] c.places[k] matches Some(
        at,
    ) && 0 <= at < c.lines.len()) by {
        if k < p.places.len() {
            assert(c.places[k] == p.places[k]);
            if k > l {
                assert(p.places[k] == b.places[k]);
            }
        }
    }
    assert forall|i: int| a.lines.len() <= i < c.lines.len() implies line_ok(
        #[trigger] c.lines[i],
        c.places.len() as int,
    ) by {
        if i < p.lines.len() {
            assert(c.lines[i] == p.lines[i]);
            if i < s.lines.len() {
                assert(b.lines[i] == s.lines[i]);
            }
        }
    }
}

proof fn lemma_atom_word(x: Context, dst: Reg, atom: Atom)
    ensures
        atom_code(x, dst, atom) matches Ok(op) ==> const_op(op) && goes_to(op) is None,
{
    if let Ok(op) = atom_code(x, dst, atom) {
        if let Atom::Ctor { variant, .. } = atom {
            let bits = crate::vm::value::variant_bits(variant);
            assert(bits < 0x1_0000_0000_0000) by {
                assert(crate::vm::value::unsigned(variant.type_id.0) < 0x1_0000_0000);
            }
        }
    }
}

/// Code with one more line.
pub proof fn lemma_pushed(a: Draft, b: Draft, line: Line)
    requires
        b.lines == a.lines.push(line),
        b.places == a.places,
        line_ok(line, a.places.len() as int),
    ensures
        extends(a, b, b.lines.len() as int),
{
}

pub proof fn lemma_with_atom(x: Context, a: Draft, dst: Reg, atom: Atom)
    ensures
        with_atom(x, a, dst, atom) matches Ok(b) ==> {
            &&& extends(a, b, b.lines.len() as int)
            &&& b.places == a.places
            &&& b.conts == a.conts
            &&& b.next == a.next
        },
{
    lemma_atom_word(x, dst, atom);
    if let Ok(op) = atom_code(x, dst, atom) {
        lemma_pushed(a, a.push(op), Line { op, to: None });
    }
}

pub proof fn lemma_with_global(a: Draft, b: Bind)
    ensures
        extends(a, with_global(a, b), with_global(a, b).lines.len() as int),
        with_global(a, b).places == a.places,
        with_global(a, b).conts == a.conts,
{
    if let Some(slot) = b.global {
        let op = Op::SetGlobal { slot, src: Reg(b.id.0) };
        lemma_pushed(a, a.push(op), Line { op, to: None });
    }
}

pub proof fn lemma_fields_lay(a: Draft, src: Reg, fields: Seq<Bind>, n: nat)
    ensures
        extends(a, with_fields(a, src, fields, n), with_fields(a, src, fields, n).lines.len() as int),
        with_fields(a, src, fields, n).places == a.places,
        with_fields(a, src, fields, n).conts == a.conts,
    decreases n,
{
    if n > 0 {
        let b = with_fields(a, src, fields, (n - 1) as nat);
        let op = Op::Field { dst: Reg(fields[n - 1].id.0), src, index: (n - 1) as u16 };
        lemma_fields_lay(a, src, fields, (n - 1) as nat);
        lemma_pushed(b, b.push(op), Line { op, to: None });
        lemma_then(a, b, b.push(op), b.lines.len() as int, (b.lines.len() + 1) as int);
    }
}

pub proof fn lemma_pattern_lays(x: Context, a: Draft, src: Reg, p: CorePat, l: int)
    requires
        0 <= l < a.places.len(),
    ensures
        pattern_code(x, a, src, p, l) matches Ok(b) ==> {
            &&& extends(a, b, b.lines.len() as int)
            &&& b.places == a.places
            &&& b.conts == a.conts
        },
{
    if let Ok(b) = pattern_code(x, a, src, p, l) {
        match p {
            CorePat::Wild => {},
            CorePat::Ctor { variant, fields } => {
                let op = Op::JumpUnlessVariant { src, variant, to: 0 };
                let j = a.jump(op, l);
                lemma_pushed(a, j, Line { op, to: Some(l) });
                lemma_fields_lay(j, src, fields@, fields@.len());
                lemma_then(a, j, b, j.lines.len() as int, b.lines.len() as int);
            },
            _ => {
                lemma_pushed(a, b, b.lines.last());
            },
        }
    }
}

proof fn lemma_tail_lays(x: Context, a: Draft, atom: Atom, dest: Dest)
    requires
        aims(a, dest),
    ensures
        tail_code(x, a, atom, dest) matches Ok(b) ==> laid(a, b, dest),
{
    if let Ok(b) = tail_code(x, a, atom, dest) {
        match dest {
            Dest::Return => {
                if crate::vm::code::called(x, atom) is Some {
                    lemma_pushed(a, b, b.lines.last());
                } else {
                    let src = Reg(a.next as u32);
                    let more = Draft { next: a.next + 1, ..a };
                    lemma_with_atom(x, more, src, atom);
                    let c = with_atom(x, more, src, atom)->Ok_0;
                    lemma_pushed(c, b, b.lines.last());
                    assert(extends(a, c, c.lines.len() as int));
                    lemma_then(a, c, b, c.lines.len() as int, b.lines.len() as int);
                }
            },
            Dest::Join { reg, after } => {
                lemma_with_atom(x, a, reg, atom);
                let c = with_atom(x, a, reg, atom)->Ok_0;
                lemma_pushed(c, b, b.lines.last());
                lemma_then(a, c, b, c.lines.len() as int, b.lines.len() as int);
            },
        }
    }
}

pub proof fn lemma_expr_lays(x: Context, a: Draft, e: CoreExpr, dest: Dest)
    requires
        aims(a, dest),
        expr_code(x, a, e, dest) matches Ok(b) && b.places.len() <= usize::MAX,
    ensures
        laid(a, expr_code(x, a, e, dest)->Ok_0, dest),
    decreases e,
{
    let whole = expr_code(x, a, e, dest)->Ok_0;
    match e {
        CoreExpr::Let { bind, rhs, body } => {
            let b = with_atom(x, a, Reg(bind.id.0), rhs)->Ok_0;
            lemma_with_atom(x, a, Reg(bind.id.0), rhs);
            let g = with_global(b, bind);
            lemma_with_global(b, bind);
            lemma_then(a, b, g, b.lines.len() as int, g.lines.len() as int);
            lemma_expr_lays(x, g, *body, dest);
            lemma_then(a, g, whole, g.lines.len() as int, whole.lines.len() as int);
        },
        CoreExpr::Drop { local, body } => {
            let op = Op::Drop { reg: Reg(local.0) };
            let g = a.push(op);
            lemma_pushed(a, g, Line { op, to: None });
            lemma_expr_lays(x, g, *body, dest);
            lemma_then(a, g, whole, g.lines.len() as int, whole.lines.len() as int);
        },
        CoreExpr::Tail(atom) => {
            lemma_tail_lays(x, a, atom, dest);
        },
        CoreExpr::LetJoin { bind, join, body } => {
            let after = a.places.len() as int;
            let d = Dest::Join { reg: Reg(bind.id.0), after: after as usize };
            let s = a.with_label();
            let b = expr_code(x, s, *join, d)->Ok_0;
            lemma_expr_grows(x, s, *join, d);
            let p = b.place(after);
            let g = with_global(p, bind);
            lemma_expr_grows(x, g, *body, dest);
            lemma_expr_lays(x, s, *join, d);
            lemma_with_global(p, bind);
            lemma_expr_lays(x, g, *body, dest);
            lemma_then(p, g, whole, g.lines.len() as int, whole.lines.len() as int);
            lemma_around(a, s, b, p, whole, after);
        },
        CoreExpr::If { cond, then, els } => {
            let otherwise = a.places.len() as int;
            let op = Op::JumpIfFalse { cond: Reg(cond.0), to: 0 };
            let s = a.with_label().jump(op, otherwise);
            let b = expr_code(x, s, *then, dest)->Ok_0;
            lemma_expr_grows(x, s, *then, dest);
            let p = b.place(otherwise);
            lemma_expr_grows(x, p, *els, dest);
            lemma_expr_lays(x, s, *then, dest);
            lemma_expr_lays(x, p, *els, dest);
            lemma_around(a, s, b, p, whole, otherwise);
        },
        CoreExpr::Match { scrut, arms } => {
            let b = arms_code(x, a, Reg(scrut.0), arms@, dest)->Ok_0;
            lemma_arms_lay(x, a, Reg(scrut.0), arms@, dest);
            lemma_pushed(b, whole, whole.lines.last());
            lemma_then(a, b, whole, (b.lines.len() + 1) as int, whole.lines.len() as int);
        },
        CoreExpr::LetCont { id, cont, body } => {
            let l = a.places.len() as int;
            let w = a.with_label();
            let s = Draft { conts: w.conts.insert(id.0, l), ..w };
            let b = expr_code(x, s, *body, dest)->Ok_0;
            lemma_expr_grows(x, s, *body, dest);
            let p = b.place(l);
            lemma_expr_grows(x, p, *cont, dest);
            lemma_expr_lays(x, s, *body, dest);
            lemma_expr_lays(x, p, *cont, dest);
            lemma_around(a, s, b, p, whole, l);
        },
        CoreExpr::Goto(id) => {
            lemma_pushed(a, whole, whole.lines.last());
        },
    }
}

pub proof fn lemma_arms_lay(x: Context, a: Draft, src: Reg, arms: Seq<Arm>, dest: Dest)
    requires
        aims(a, dest),
        arms_code(x, a, src, arms, dest) matches Ok(b) && b.places.len() <= usize::MAX,
    ensures
        ({
            let b = arms_code(x, a, src, arms, dest)->Ok_0;
            extends(a, b, (b.lines.len() + 1) as int) && aims(b, dest)
        }),
    decreases arms,
{
    if arms.len() > 0 {
        let whole = arms_code(x, a, src, arms, dest)->Ok_0;
        let arm = arms[arms.len() - 1];
        let b = arms_code(x, a, src, arms.drop_last(), dest)->Ok_0;
        let l = b.places.len() as int;
        let w = b.with_label();
        let c = pattern_code(x, w, src, arm.pat, l)->Ok_0;
        let d = expr_code(x, c, arm.body, dest)->Ok_0;
        lemma_pattern_lays(x, w, src, arm.pat, l);
        lemma_expr_grows(x, c, arm.body, dest);
        lemma_arms_lay(x, a, src, arms.drop_last(), dest);
        lemma_expr_lays(x, c, arm.body, dest);
        lemma_then(w, c, d, c.lines.len() as int, d.lines.len() as int);
        assert(whole == d.place(l));
        assert(extends(b, whole, (whole.lines.len() + 1) as int)) by {
            assert forall|i: int| 0 <= i < b.lines.len() implies #[trigger] whole.lines[i] == b.lines[i] by {
                assert(d.lines[i] == w.lines[i]);
            }
            assert forall|k: int| 0 <= k < b.places.len() implies #[trigger] whole.places[k]
                == b.places[k] by {
                assert(d.places[k] == w.places[k]);
            }
            assert forall|k: int| b.places.len() <= k < whole.places.len() implies (
            #[trigger] whole.places[k] matches Some(at) && 0 <= at < whole.lines.len() + 1) by {
                if k > l {
                    assert(whole.places[k] == d.places[k]);
                }
            }
            assert forall|i: int| b.lines.len() <= i < whole.lines.len() implies line_ok(
                #[trigger] whole.lines[i],
                whole.places.len() as int,
            ) by {
                assert(whole.lines[i] == d.lines[i]);
            }
        }
        lemma_then(a, b, whole, (b.lines.len() + 1) as int, (whole.lines.len() + 1) as int);
    }
}

/// A function's code stays inside itself: it is not empty, every jump goes to
/// an instruction of it, the last one does not fall through, and every constant
/// is a word of its own.
pub proof fn law_code_stays_inside(x: Context, f: CoreFn)
    requires
        fn_code(x, f) matches Ok(d) && d.places.len() <= usize::MAX,
    ensures
        ({
            let code = fn_code(x, f)->Ok_0.code();
            &&& code.len() > 0
            &&& ends_run(code.last())
            &&& forall|i: int| 0 <= i < code.len() ==> const_op(#[trigger] code[i])
            &&& forall|i: int|
                0 <= i < code.len() ==> (goes_to(#[trigger] code[i]) matches Some(to) ==> 0 <= to
                    < code.len())
        }),
{
    let a = start(f);
    let d = fn_code(x, f)->Ok_0;
    lemma_expr_lays(x, a, f.body, Dest::Return);
    let code = d.code();
    assert forall|i: int| 0 <= i < code.len() implies const_op(#[trigger] code[i]) && (goes_to(
        code[i],
    ) matches Some(to) ==> 0 <= to < code.len()) by {
        assert(line_ok(d.lines[i], d.places.len() as int));
        if let Some(l) = d.lines[i].to {
            assert(d.places[l] is Some);
        }
    }
    assert(line_ok(d.lines[d.lines.len() - 1], d.places.len() as int));
}

/// A loaded function is fit to run.
pub proof fn law_loaded_function_is_fit(f: Func, x: Context, src: LoweredFn)
    requires
        func_is(f, x, src),
        fn_code(x, src.core) matches Ok(d) ==> d.places.len() <= usize::MAX,
    ensures
        func_ok(f),
{
    if let Func::Ready(b) = f {
        law_code_stays_inside(x, src.core);
        let code = fn_code(x, src.core)->Ok_0.code();
        assert forall|i: int| 0 <= i < b.instrs@.len() implies const_ok(#[trigger] b.instrs@[i]) by {
            assert(ops(b.instrs@)[i] == b.instrs@[i].op());
            assert(const_op(code[i]));
        }
    }
}

} // verus!
