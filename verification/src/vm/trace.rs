//! Whole runs of loaded functions, told by what values are.

use crate::vm::code::{Body, Code, Context, Dest, Func, fn_code, func_is, ops, start};
use crate::vm::core_ir::{CoreExpr, LoweredFn, Program};
use crate::vm::eval::lemma_to_string;
use crate::vm::exec::{
    computes, entered, Event, Frame, jumps, Machine, matched, placed, stepped, stop_of,
};
use crate::vm::instr::{Instr, Op, Reg};
use crate::vm::meaning::{Data, lemma_meaning, meaning};
use crate::vm::nodes::live;
use crate::vm::run::{begun, part};
use crate::vm::runs::{after, At, lemma_runs, op_next, unshadowed, value_of};
use crate::vm::scene::{nil_value, Stop};
use crate::vm::sense::{
    itself, law_a_test_takes_the_arm_that_fits, law_an_instruction_does_what_it_says, lemma_look,
    lemma_same, lemma_wrote, locals, look, look_all, put, seen, shared, steps, went_on,
};
use crate::vm::value::{FuncIdx, Value};
use vstd::prelude::*;

verus! {

/// Where a machine is in the function under way, and what it holds there.
pub open spec fn stands(m: Machine) -> At {
    At { pc: m.top().pc as int, env: locals(m), globals: shared(m) }
}

/// A slot takes what a register holds, and everything else stays.
proof fn lemma_set_global(a: Machine, b: Machine, r: Result<Event, Stop>)
    requires
        steps(a, b, r),
        a.instr() is SetGlobal,
    ensures
        match r {
            Ok(ev) => ev == Event::Going && b.wf() && went_on(
                a,
                b,
                a.top().pc + 1,
                locals(a),
                put(
                    shared(a),
                    Reg(a.instr()->SetGlobal_slot.0),
                    look(locals(a), a.instr()->SetGlobal_src),
                ),
            ),
            Err(e) => e == Stop::HeapFull,
        },
{
    reveal(stepped);
    reveal(jumps);
    reveal(computes);
    reveal(stop_of);
    if let Instr::SetGlobal { slot, src } = a.instr() {
        let (x, y) = (a.heap.record(), b.heap.record());
        let base = a.top().base as int;
        let _ = a.top().body.instrs.len();
        lemma_look(a, src);
        if r is Ok {
            lemma_look(b, src);
            assert forall|i: int| 0 <= i < a.regs@.len() implies meaning(y, b.regs@[i])
                == #[trigger] meaning(x, a.regs@[i]) by {
                assert(a.regs@[i].ok() && live(x, a.regs@[i]));
                assert(live(y, b.regs@[i]));
                lemma_same(a, b, a.regs@[i]);
            }
            assert forall|i: int| 0 <= i < a.globals@.len() && i != slot.0 implies meaning(
                y,
                b.globals@[i],
            ) == #[trigger] meaning(x, a.globals@[i]) by {
                assert(a.globals@[i].ok() && live(x, a.globals@[i]));
                assert(b.globals@[i] == a.globals@[i]);
                assert(live(y, b.globals@[i]));
                lemma_same(a, b, a.globals@[i]);
            }
            assert forall|i: int| 0 <= i < locals(a).len() implies locals(b)[i] == locals(a)[i] by {
                assert(meaning(x, a.regs@[base + i]) == locals(a)[i]);
            }
            assert(locals(b) =~= locals(a));
            let v = a.scene().at(src);
            if slot.0 < a.globals@.len() {
                assert(b.globals@[slot.0 as int] == v);
                assert(live(y, b.globals@[slot.0 as int]));
                lemma_same(a, b, v);
            }
            let globals = put(shared(a), Reg(slot.0), look(locals(a), src));
            assert forall|i: int| 0 <= i < globals.len() implies shared(b)[i] == globals[i] by {
                if i != slot.0 {
                    assert(meaning(x, a.globals@[0 + i]) == shared(a)[i]);
                }
            }
            assert(shared(b) =~= globals);
            assert forall|i: int| 0 <= i < base implies #[trigger] seen(y, b.regs@, 0)[i] == seen(
                x,
                a.regs@,
                0,
            )[i] by {
                assert(meaning(x, a.regs@[0 + i]) == seen(x, a.regs@, 0)[i]);
            }
            lemma_same(a, b, a.top().env);
        }
    }
}

/// A register is emptied, and everything else stays.
proof fn lemma_drop(a: Machine, b: Machine, r: Result<Event, Stop>)
    requires
        steps(a, b, r),
        a.instr() is Drop,
    ensures
        match r {
            Ok(ev) => ev == Event::Going && b.wf() && went_on(
                a,
                b,
                a.top().pc + 1,
                put(locals(a), a.instr()->reg, Data::Nil),
                shared(a),
            ),
            Err(e) => e == Stop::HeapFull,
        },
{
    reveal(stepped);
    reveal(jumps);
    reveal(computes);
    reveal(stop_of);
    if let Instr::Drop { reg } = a.instr() {
        lemma_look(a, reg);
        if r is Ok {
            lemma_look(b, reg);
            lemma_wrote(a, b, reg, nil_value());
            lemma_meaning(b.heap.record(), nil_value());
        }
    }
}

/// A step of the machine does what its instruction makes of a run.
proof fn lemma_machine_steps(a: Machine, b: Machine, r: Result<Event, Stop>)
    requires
        steps(a, b, r),
        op_next(a.instr().op(), stands(a)) is Some,
    ensures
        match r {
            Ok(ev) => {
                let t = op_next(a.instr().op(), stands(a))->Some_0;
                ev == Event::Going && b.wf() && went_on(a, b, t.pc, t.env, t.globals)
            },
            Err(e) => e == Stop::HeapFull,
        },
{
    match a.instr() {
        Instr::SetGlobal { slot, src } => lemma_set_global(a, b, r),
        Instr::Drop { reg } => lemma_drop(a, b, r),
        Instr::ToString { dst, a: src } => lemma_to_string(a, b, r),
        Instr::Jump { .. }
        | Instr::JumpIfFalse { .. }
        | Instr::JumpUnlessVariant { .. }
        | Instr::JumpUnlessInt { .. }
        | Instr::JumpUnlessStr { .. } => law_a_test_takes_the_arm_that_fits(a, b, r),
        _ => law_an_instruction_does_what_it_says(a, b, r),
    }
}

/// Machines one after the other, each a step on from the one before, none of
/// which stopped, waited or returned from the last function.
pub open spec fn in_turn(ms: Seq<Machine>) -> bool {
    forall|i: int|
        0 <= i < ms.len() - 1 ==> steps(
            #[trigger] ms[i],
            ms[i + 1],
            Ok::<Event, Stop>(Event::Going),
        )
}

/// The same call is under way in two machines, with the same calls below it,
/// whose registers hold what they held.
pub open spec fn same_call(a: Machine, b: Machine) -> bool {
    &&& b.wf()
    &&& b.waiting is None
    &&& b.frames@.len() == a.frames@.len()
    &&& forall|i: int| 0 <= i < a.frames@.len() - 1 ==> #[trigger] b.frames@[i] == a.frames@[i]
    &&& b.top().body == a.top().body
    &&& b.top().base == a.top().base
    &&& b.top().env == a.top().env
    &&& b.top().ret_to == a.top().ret_to
    &&& b.regs@.len() == a.regs@.len()
    &&& forall|i: int|
        0 <= i < a.top().base ==> #[trigger] seen(b.heap.record(), b.regs@, 0)[i] == seen(
            a.heap.record(),
            a.regs@,
            0,
        )[i]
    &&& itself(b) == itself(a)
}

/// Machines in turn go where the code they run goes.
proof fn lemma_in_turn(ms: Seq<Machine>, code: Seq<Op>, k: nat)
    requires
        in_turn(ms),
        k < ms.len(),
        ms[0].wf(),
        ms[0].frames@.len() > 0,
        ms[0].waiting is None,
        ops(ms[0].top().body.instrs@) == code,
        after(code, stands(ms[0]), k) is Some,
    ensures
        same_call(ms[0], ms[k as int]),
        stands(ms[k as int]) == after(code, stands(ms[0]), k)->Some_0,
    decreases k,
{
    if k > 0 {
        let (a, b) = (ms[0], ms[1]);
        let s = stands(a);
        assert(steps(a, b, Ok::<Event, Stop>(Event::Going)));
        assert(code[s.pc] == a.instr().op());
        lemma_machine_steps(a, b, Ok::<Event, Stop>(Event::Going));
        let t = op_next(code[s.pc], s)->Some_0;
        assert(stands(b) == t);
        let rest = ms.skip(1);
        assert(rest[0] == b);
        assert forall|i: int| 0 <= i < rest.len() - 1 implies steps(
            #[trigger] rest[i],
            rest[i + 1],
            Ok::<Event, Stop>(Event::Going),
        ) by {
            assert(steps(ms[i + 1], ms[i + 2], Ok::<Event, Stop>(Event::Going)));
        }
        lemma_in_turn(rest, code, (k - 1) as nat);
        let c = ms[k as int];
        assert(rest[k - 1] == c);
        assert forall|i: int| 0 <= i < a.top().base implies #[trigger] seen(
            c.heap.record(),
            c.regs@,
            0,
        )[i] == seen(a.heap.record(), a.regs@, 0)[i] by {
            assert(seen(b.heap.record(), b.regs@, 0)[i] == seen(a.heap.record(), a.regs@, 0)[i]);
        }
        assert forall|i: int| 0 <= i < a.frames@.len() - 1 implies #[trigger] c.frames@[i]
            == a.frames@[i] by {
            assert(b.frames@[i] == a.frames@[i]);
        }
    } else {
        assert(after(code, stands(ms[0]), 0) == Some(stands(ms[0])));
    }
}

/// A function returns what the register says: the caller's register that waits
/// for it takes the value, and the caller's others and the globals hold what they
/// held; the last function's value is what the run returns.
pub proof fn law_a_return_gives_the_value(a: Machine, b: Machine, ev: Event, src: Reg)
    requires
        steps(a, b, Ok::<Event, Stop>(ev)),
        a.instr() == (Instr::Ret { src }),
    ensures
        ({
            let n = a.frames@.len() - 1;
            let d = look(locals(a), src);
            &&& b.frames@ == a.frames@.take(n)
            &&& shared(b) == shared(a)
            &&& match a.top().ret_to {
                Some(dst) => {
                    &&& ev == Event::Going
                    &&& b.wf()
                    &&& locals(b) == put(
                        seen(
                            a.heap.record(),
                            a.regs@.take(a.top().base as int),
                            a.frames@[n - 1].base as int,
                        ),
                        dst,
                        d,
                    )
                },
                None => ev matches Event::Returned(v) && meaning(b.heap.record(), v) == d,
            }
        }),
{
    reveal(stepped);
    reveal(jumps);
    reveal(computes);
    reveal(stop_of);
    let (x, y) = (a.heap.record(), b.heap.record());
    let n = a.frames@.len() - 1;
    let v = a.scene().at(src);
    let at = a.top().base as int;
    let below = a.regs@.take(at);
    lemma_look(a, src);
    b.heap.lemma_record_ok();
    assert(crate::vm::exec::ends_at(a.frames@, a.regs@.len() as int, n));
    assert(a.frames@[n].ret_to is None <==> n == 0);
    lemma_after_return(a, b, ev);
    assert forall|i: int| 0 <= i < a.globals@.len() implies shared(b)[i] == shared(a)[i] by {
        assert(a.globals@[i].ok() && live(x, a.globals@[i]));
        assert(live(y, b.globals@[i]));
        lemma_same(a, b, a.globals@[i]);
    }
    assert(shared(b) =~= shared(a));
    match a.top().ret_to {
        Some(dst) => {
            let low = a.frames@[n - 1].base as int;
            assert(crate::vm::exec::ends_at(a.frames@, a.regs@.len() as int, n - 1));
            let env = put(seen(x, below, low), dst, look(locals(a), src));
            assert forall|i: int| 0 <= i < env.len() implies locals(b)[i] == env[i] by {
                let w = b.regs@[low + i];
                assert(w.ok() && live(y, w));
                if i != dst.0 {
                    assert(w == a.regs@[low + i]);
                    assert(live(x, a.regs@[low + i]));
                }
                lemma_same(a, b, w);
            }
            assert(locals(b) =~= env);
        },
        None => {
            assert(live(y, v));
            lemma_same(a, b, v);
        },
    }
}

/// After a return what registers and globals hold, and what is returned, is live.
proof fn lemma_after_return(a: Machine, b: Machine, ev: Event)
    requires
        match ev {
            Event::Returned(v) => crate::vm::exec::done(b, v),
            _ => b.wf(),
        },
    ensures
        crate::vm::nodes::all_live(b.heap.record(), b.regs@),
        crate::vm::nodes::all_live(b.heap.record(), b.globals@),
        ev matches Event::Returned(v) ==> live(b.heap.record(), v),
{
    let r = b.heap.record();
    b.heap.lemma_record_ok();
    assert(crate::vm::cells::handles(b.regs@).subset_of(r.ext));
    assert(crate::vm::cells::handles(b.globals@).subset_of(r.ext));
    crate::vm::join::lemma_owned_live(r, b.regs@);
    crate::vm::join::lemma_owned_live(r, b.globals@);
    if let Event::Returned(v) = ev {
        crate::vm::nodes::lemma_handle_one(v);
        assert(crate::vm::cells::handles(seq![v]).subset_of(r.ext));
        crate::vm::join::lemma_owned_live(r, seq![v]);
        assert(live(r, seq![v][0]));
    }
}

/// A loaded function computes what its body comes to. Started with what its
/// locals hold in its registers, it comes after so many steps to the return of
/// that value, with the globals as its body leaves them and everything below its
/// frame as it was; on the way nothing stops it but want of room.
pub proof fn law_a_loaded_function_computes_its_value(
    m: Machine,
    x: Context,
    src: LoweredFn,
    n: nat,
) -> (k: nat)
    requires
        m.wf(),
        m.frames@.len() > 0,
        m.waiting is None,
        m.top().pc == 0,
        func_is(Func::Ready(*m.top().body), x, src),
        fn_code(x, src.core)->Ok_0.places.len() <= usize::MAX,
        unshadowed(src.core.body, Seq::empty()),
        value_of(x.consts, locals(m), shared(m), Seq::empty(), src.core.body, n) is Some,
    ensures
        forall|ms: Seq<Machine>|
            #![trigger in_turn(ms)]
            in_turn(ms) && ms.len() > k && ms[0] == m ==> {
                let out = value_of(
                    x.consts,
                    locals(m),
                    shared(m),
                    Seq::empty(),
                    src.core.body,
                    n,
                )->Some_0;
                let last = ms[k as int];
                &&& same_call(m, last)
                &&& shared(last) == out.globals
                &&& last.top().pc < last.top().body.instrs@.len()
                &&& last.instr() matches Instr::Ret { src } && look(locals(last), src) == out.value
            },
        forall|ms: Seq<Machine>, b: Machine, r: Result<Event, Stop>|
            #![trigger in_turn(ms), steps(ms.last(), b, r)]
            in_turn(ms) && 0 < ms.len() <= k && ms[0] == m && steps(ms.last(), b, r) ==> r == Ok::<
                Event,
                Stop,
            >(Event::Going) || r == Err::<Event, Stop>(Stop::HeapFull),
{
    let z = fn_code(x, src.core)->Ok_0;
    let a = start(src.core);
    let code = z.code();
    let s = stands(m);
    let none = Seq::<(u32, CoreExpr)>::empty();
    assert(crate::vm::runs::ids_of(none) =~= Seq::empty());
    lemma_look(m, Reg(0));
    assert(crate::vm::exec::ends_at(m.frames@, m.regs@.len() as int, m.frames@.len() - 1));
    let k = lemma_runs(
        x,
        a,
        src.core.body,
        Dest::Return,
        z,
        none,
        Seq::empty(),
        locals(m),
        shared(m),
        n,
    );
    assert forall|ms: Seq<Machine>|
        #![trigger in_turn(ms)]
        in_turn(ms) && ms.len() > k && ms[0] == m implies {
        let out = value_of(x.consts, locals(m), shared(m), Seq::empty(), src.core.body, n)->Some_0;
        let last = ms[k as int];
        &&& same_call(m, last)
        &&& shared(last) == out.globals
        &&& last.top().pc < last.top().body.instrs@.len()
        &&& last.instr() matches Instr::Ret { src } && look(locals(last), src) == out.value
    } by {
        lemma_in_turn(ms, code, k);
        let last = ms[k as int];
        assert(code[last.top().pc as int] == last.instr().op());
    }
    assert forall|ms: Seq<Machine>, b: Machine, r: Result<Event, Stop>|
        #![trigger in_turn(ms), steps(ms.last(), b, r)]
        in_turn(ms) && 0 < ms.len() <= k && ms[0] == m && steps(ms.last(), b, r) implies r == Ok::<
        Event,
        Stop,
    >(Event::Going) || r == Err::<Event, Stop>(Stop::HeapFull) by {
        let j = (ms.len() - 1) as nat;
        lemma_before(code, s, j, k);
        lemma_in_turn(ms, code, j);
        assert(code[ms.last().top().pc as int] == ms.last().instr().op());
        lemma_machine_steps(ms.last(), b, r);
    }
    k
}

/// A run that goes so far has a next step before.
proof fn lemma_before(code: Seq<Op>, s: At, j: nat, k: nat)
    requires
        j < k,
        after(code, s, k) is Some,
    ensures
        after(code, s, j) matches Some(t) && 0 <= t.pc < code.len() && op_next(code[t.pc], t) is Some,
    decreases j,
{
    if j > 0 {
        lemma_before(code, op_next(code[s.pc], s)->Some_0, (j - 1) as nat, (k - 1) as nat);
    } else {
        assert(after(code, s, 0) == Some(s));
    }
}

/// What a call finds in its registers: each argument in its parameter, and `Nil`
/// in every register that is none.
pub open spec fn received(b: Body, args: Seq<Data>, env: Seq<Data>) -> bool {
    let n = if b.params@.len() <= args.len() {
        b.params@.len()
    } else {
        args.len()
    };
    &&& env.len() == b.regs
    &&& forall|i: int|
        0 <= i < n && b.params@[i].0 < b.regs && (forall|j: int|
            i < j < n ==> #[trigger] b.params@[j] != b.params@[i]) ==> look(
            env,
            #[trigger] b.params@[i],
        ) == args[i]
    &&& forall|r: int|
        0 <= r < b.regs && (forall|i: int| 0 <= i < n ==> (#[trigger] b.params@[i]).0 != r)
            ==> #[trigger] env[r] == Data::Nil
}

/// Where the values of a frame that was entered come from.
proof fn lemma_placed_at(below: Seq<Value>, n: nat, params: Seq<Reg>, args: Seq<Value>, k: nat)
    requires
        k <= params.len(),
        k <= args.len(),
    ensures
        placed(below, n, params, args, k).len() == below.len() + n,
        forall|i: int|
            0 <= i < below.len() ==> #[trigger] placed(below, n, params, args, k)[i] == below[i],
        forall|i: int|
            0 <= i < k && params[i].0 < n && (forall|j: int|
                i < j < k ==> #[trigger] params[j] != params[i]) ==> placed(
                below,
                n,
                params,
                args,
                k,
            )[below.len() + (#[trigger] params[i]).0] == args[i],
        forall|r: int|
            0 <= r < n && (forall|i: int| 0 <= i < k ==> (#[trigger] params[i]).0 != r)
                ==> #[trigger] placed(below, n, params, args, k)[below.len() + r] == nil_value(),
    decreases k,
{
    if k > 0 {
        let m = (k - 1) as nat;
        lemma_placed_at(below, n, params, args, m);
        let (p, q) = (placed(below, n, params, args, m), placed(below, n, params, args, k));
        assert forall|i: int|
            0 <= i < k && params[i].0 < n && (forall|j: int|
                i < j < k ==> #[trigger] params[j] != params[i]) implies q[below.len() + (
        #[trigger] params[i]).0] == args[i] by {
            if i < m {
                assert(params[m as int] != params[i]);
                assert(p[below.len() + params[i].0] == args[i]);
            }
        }
        assert forall|r: int|
            0 <= r < n && (forall|i: int| 0 <= i < k ==> (#[trigger] params[i]).0 != r) implies
        #[trigger] q[below.len() + r] == nil_value() by {
            assert(params[m as int].0 != r);
            assert(p[below.len() + r] == nil_value());
        }
    }
}

/// A frame that was entered holds what was passed.
proof fn lemma_passed(a: Machine, b: Machine, body: Body, args: Seq<Reg>, low: int)
    requires
        a.wf(),
        b.wf(),
        a.frames@.len() > 0,
        b.frames@.len() > 0,
        crate::vm::exec::heap_moved(a, b),
        0 <= low <= a.regs@.len(),
        b.regs@ == entered(a.regs@.take(low), body, a.scene().all_at(args)),
        b.top().base == low,
        b.globals@ == a.globals@,
    ensures
        received(body, look_all(locals(a), args), locals(b)),
        shared(b) == shared(a),
        forall|i: int|
            0 <= i < low ==> #[trigger] seen(b.heap.record(), b.regs@, 0)[i] == seen(
                a.heap.record(),
                a.regs@,
                0,
            )[i],
{
    let (x, y) = (a.heap.record(), b.heap.record());
    let below = a.regs@.take(low);
    let vs = a.scene().all_at(args);
    let n = matched(body.params@, vs);
    lemma_placed_at(below, body.regs as nat, body.params@, vs, n);
    lemma_look(a, Reg(0));
    lemma_look(b, Reg(0));
    b.heap.lemma_record_ok();
    assert forall|i: int| 0 <= i < low implies #[trigger] seen(y, b.regs@, 0)[i] == seen(
        x,
        a.regs@,
        0,
    )[i] by {
        assert(b.regs@[i] == below[i]);
        assert(a.regs@[i].ok() && live(x, a.regs@[i]));
        assert(live(y, b.regs@[i]));
        lemma_same(a, b, a.regs@[i]);
    }
    assert forall|i: int| 0 <= i < a.globals@.len() implies shared(b)[i] == shared(a)[i] by {
        assert(a.globals@[i].ok() && live(x, a.globals@[i]));
        assert(live(y, b.globals@[i]));
        lemma_same(a, b, a.globals@[i]);
    }
    assert(shared(b) =~= shared(a));
    let env = locals(b);
    assert forall|i: int|
        0 <= i < n && body.params@[i].0 < body.regs && (forall|j: int|
            i < j < n ==> #[trigger] body.params@[j] != body.params@[i]) implies look(
        env,
        #[trigger] body.params@[i],
    ) == look_all(locals(a), args)[i] by {
        lemma_look(a, args[i]);
        let at = low + body.params@[i].0;
        assert(b.regs@[at] == vs[i]);
        assert(live(y, b.regs@[at]));
        lemma_same(a, b, vs[i]);
    }
    assert forall|r: int|
        0 <= r < body.regs && (forall|i: int|
            0 <= i < n ==> (#[trigger] body.params@[i]).0 != r) implies #[trigger] env[r]
        == Data::Nil by {
        assert(b.regs@[low + r] == nil_value());
        lemma_meaning(y, nil_value());
    }
}

/// The function that a value calls, if it calls one.
pub open spec fn function_of(d: Data) -> Option<FuncIdx> {
    match d {
        Data::Func(f) => Some(f),
        Data::Closure(f, _) => Some(f),
        _ => None,
    }
}

/// The function that a call runs, what it runs as, and its arguments; `None` for
/// what is no call.
pub open spec fn calls(a: Machine) -> Option<(Option<FuncIdx>, Data, Seq<Data>)> {
    let env = locals(a);
    match a.instr() {
        Instr::Call { dst, func, args } => Some((Some(func), Data::Nil, look_all(env, args@))),
        Instr::TailCall { func, args } => Some((Some(func), Data::Nil, look_all(env, args@))),
        Instr::CallSelf { dst, args } => Some((None, itself(a), look_all(env, args@))),
        Instr::TailCallSelf { args } => Some((None, itself(a), look_all(env, args@))),
        Instr::CallValue { dst, callee, args } => Some(
            (function_of(look(env, callee)), look(env, callee), look_all(env, args@)),
        ),
        Instr::TailCallValue { callee, args } => Some(
            (function_of(look(env, callee)), look(env, callee), look_all(env, args@)),
        ),
        _ => None,
    }
}

/// The register of the caller that a call's value goes to; a tail call's goes
/// where the running function's would.
pub open spec fn answers_to(a: Machine) -> Option<Reg> {
    match a.instr() {
        Instr::Call { dst, .. } => Some(dst),
        Instr::CallSelf { dst, .. } => Some(dst),
        Instr::CallValue { dst, .. } => Some(dst),
        _ => a.top().ret_to,
    }
}

/// What a call does: it runs a function from its start, with each argument in its
/// parameter, and everything below it as it was.
pub open spec fn call_made(a: Machine, b: Machine, ev: Event) -> bool {
    let (f, me, args) = calls(a)->Some_0;
    let tail = a.instr() is TailCall || a.instr() is TailCallSelf
        || a.instr() is TailCallValue;
    let n = a.frames@.len() - 1;
    &&& ev == Event::Going
    &&& b.wf()
    &&& match f {
        Some(f) => f.0 < a.code.fns@.len() && a.code.fns@[f.0 as int] == Func::Ready(
            *b.top().body,
        ),
        None => *b.top().body == *a.top().body,
    }
    &&& b.top().pc == 0
    &&& b.top().ret_to == answers_to(a)
    &&& itself(b) == me
    &&& received(*b.top().body, args, locals(b))
    &&& shared(b) == shared(a)
    &&& b.frames@.len() == if tail {
        n + 1
    } else {
        n + 2
    }
    &&& b.top().base == if tail {
        a.top().base as int
    } else {
        a.regs@.len() as int
    }
    &&& forall|i: int| 0 <= i < n ==> #[trigger] b.frames@[i] == a.frames@[i]
    &&& !tail ==> b.frames@[n] == (Frame { pc: (a.top().pc + 1) as usize, ..a.top() })
    &&& forall|i: int|
        0 <= i < b.top().base ==> #[trigger] seen(b.heap.record(), b.regs@, 0)[i] == seen(
            a.heap.record(),
            a.regs@,
            0,
        )[i]
}

/// A call by name.
#[verifier::rlimit(40)]
#[verifier::spinoff_prover]
proof fn lemma_named_call(a: Machine, b: Machine, ev: Event)
    requires
        steps(a, b, Ok::<Event, Stop>(ev)),
        a.instr() is Call || a.instr() is CallSelf,
    ensures
        call_made(a, b, ev),
{
    reveal(stepped);
    reveal(jumps);
    reveal(computes);
    reveal(stop_of);
    let (x, y) = (a.heap.record(), b.heap.record());
    let n = a.frames@.len() - 1;
    lemma_look(a, Reg(0));
    assert forall|i: int| 0 <= i < n implies #[trigger] b.frames@[i] == a.frames@[i] by {
        assert(b.frames@.take(n + 1)[i] == b.frames@[i]);
    }
    assert(b.frames@.take(n + 1)[n] == b.frames@[n]);
    assert(a.regs@.take(a.regs@.len() as int) =~= a.regs@);
    lemma_look(b, Reg(0));
    let e = b.top().env;
    assert(e.ok() && live(y, e));
    lemma_meaning(y, e);
    match a.instr() {
        Instr::Call { dst, func, args } => {
            lemma_passed(a, b, *b.top().body, args@, a.regs@.len() as int);
        },
        Instr::CallSelf { dst, args } => {
            lemma_passed(a, b, *b.top().body, args@, a.regs@.len() as int);
            lemma_same(a, b, e);
        },
        _ => {},
    }
}

/// A call of a value.
#[verifier::rlimit(40)]
#[verifier::spinoff_prover]
proof fn lemma_value_call(a: Machine, b: Machine, ev: Event)
    requires
        steps(a, b, Ok::<Event, Stop>(ev)),
        a.instr() is CallValue,
    ensures
        call_made(a, b, ev),
{
    reveal(stepped);
    reveal(jumps);
    reveal(computes);
    reveal(stop_of);
    let (x, y) = (a.heap.record(), b.heap.record());
    let n = a.frames@.len() - 1;
    lemma_look(a, Reg(0));
    assert forall|i: int| 0 <= i < n implies #[trigger] b.frames@[i] == a.frames@[i] by {
        assert(b.frames@.take(n + 1)[i] == b.frames@[i]);
    }
    assert(b.frames@.take(n + 1)[n] == b.frames@[n]);
    assert(a.regs@.take(a.regs@.len() as int) =~= a.regs@);
    lemma_look(b, Reg(0));
    let e = b.top().env;
    assert(e.ok() && live(y, e));
    lemma_meaning(y, e);
    match a.instr() {
        Instr::CallValue { dst, callee, args } => {
            lemma_look(a, callee);
            lemma_meaning(x, a.scene().at(callee));
            lemma_same(a, b, e);
            lemma_passed(a, b, *b.top().body, args@, a.regs@.len() as int);
        },
        _ => {},
    }
}

/// A tail call by name.
#[verifier::rlimit(40)]
#[verifier::spinoff_prover]
proof fn lemma_named_tail(a: Machine, b: Machine, ev: Event)
    requires
        steps(a, b, Ok::<Event, Stop>(ev)),
        a.instr() is TailCall || a.instr() is TailCallSelf,
    ensures
        call_made(a, b, ev),
{
    reveal(stepped);
    reveal(jumps);
    reveal(computes);
    reveal(stop_of);
    let (x, y) = (a.heap.record(), b.heap.record());
    let n = a.frames@.len() - 1;
    lemma_look(a, Reg(0));
    assert forall|i: int| 0 <= i < n implies #[trigger] b.frames@[i] == a.frames@[i] by {
        assert(b.frames@.take(n)[i] == b.frames@[i]);
        assert(a.frames@.take(n)[i] == a.frames@[i]);
    }
    lemma_look(b, Reg(0));
    let e = b.top().env;
    assert(e.ok() && live(y, e));
    lemma_meaning(y, e);
    match a.instr() {
        Instr::TailCall { func, args } => {
            lemma_passed(a, b, *b.top().body, args@, a.top().base as int);
        },
        Instr::TailCallSelf { args } => {
            lemma_passed(a, b, *b.top().body, args@, a.top().base as int);
            lemma_same(a, b, e);
        },
        _ => {},
    }
}

/// A tail call of a value.
#[verifier::rlimit(40)]
#[verifier::spinoff_prover]
proof fn lemma_value_tail(a: Machine, b: Machine, ev: Event)
    requires
        steps(a, b, Ok::<Event, Stop>(ev)),
        a.instr() is TailCallValue,
    ensures
        call_made(a, b, ev),
{
    reveal(stepped);
    reveal(jumps);
    reveal(computes);
    reveal(stop_of);
    let (x, y) = (a.heap.record(), b.heap.record());
    let n = a.frames@.len() - 1;
    lemma_look(a, Reg(0));
    assert forall|i: int| 0 <= i < n implies #[trigger] b.frames@[i] == a.frames@[i] by {
        assert(b.frames@.take(n)[i] == b.frames@[i]);
        assert(a.frames@.take(n)[i] == a.frames@[i]);
    }
    lemma_look(b, Reg(0));
    let e = b.top().env;
    assert(e.ok() && live(y, e));
    lemma_meaning(y, e);
    match a.instr() {
        Instr::TailCallValue { callee, args } => {
            lemma_look(a, callee);
            lemma_meaning(x, a.scene().at(callee));
            lemma_same(a, b, e);
            lemma_passed(a, b, *b.top().body, args@, a.top().base as int);
        },
        _ => {},
    }
}

/// A call runs the function it names, from its start, with each argument in its
/// parameter. The caller goes on behind the call once it returns; a tail call
/// takes the caller's place. Every register below, and every global, holds what
/// it held.
pub proof fn law_a_call_passes_its_arguments(a: Machine, b: Machine, ev: Event)
    requires
        steps(a, b, Ok::<Event, Stop>(ev)),
        calls(a) is Some,
    ensures
        call_made(a, b, ev),
{
    let i = a.instr();
    if i is Call || i is CallSelf {
        lemma_named_call(a, b, ev);
    } else if i is CallValue {
        lemma_value_call(a, b, ev);
    } else if i is TailCallValue {
        lemma_value_tail(a, b, ev);
    } else {
        lemma_named_tail(a, b, ev);
    }
}

/// A program and what it loaded as.
pub open spec fn loaded(p: Program, c: Code) -> bool {
    let top = Context { consts: p.consts@, this: None };
    &&& c.fns@.len() == p.fns@.len()
    &&& forall|i: int|
        0 <= i < p.fns@.len() ==> func_is(
            #[trigger] c.fns@[i],
            (Context { consts: p.consts@, this: Some(FuncIdx(i as u32)) }),
            p.fns@[i],
        )
    &&& c.toplevels@.len() == p.inits@.len() + 1
    &&& forall|i: int|
        0 <= i < p.inits@.len() ==> func_is(#[trigger] c.toplevels@[i], top, p.inits@[i])
    &&& func_is(c.toplevels@[p.inits@.len() as int], top, p.toplevel)
    &&& c.main == p.main
}

/// A program runs its modules' toplevels in their order, then the entry file's,
/// then `main` if it has one, and nothing else. A part that does not load stops
/// the run.
pub proof fn law_a_program_runs_in_order(p: Program, c: Code, k: int)
    requires
        loaded(p, c),
        p.main matches Some(f) ==> f.0 < p.fns@.len(),
        k >= 0,
    ensures
        ({
            let top = Context { consts: p.consts@, this: None };
            let n = p.inits@.len() as int;
            let (x, src) = if k < n {
                (top, p.inits@[k])
            } else if k == n {
                (top, p.toplevel)
            } else {
                (
                    Context { consts: p.consts@, this: p.main },
                    p.fns@[p.main->Some_0.0 as int],
                )
            };
            if k > n + 1 || k == n + 1 && p.main is None {
                part(c, k) is None
            } else {
                match part(c, k) {
                    Some(Ok(body)) => func_is(Func::Ready(body), x, src),
                    Some(Err(_)) => fn_code(x, src.core) is Err,
                    None => false,
                }
            }
        }),
{
    let n = p.inits@.len() as int;
    if k < n {
        assert(func_is(
            c.toplevels@[k],
            Context { consts: p.consts@, this: None },
            p.inits@[k],
        ));
    }
    if k == n + 1 {
        if let Some(f) = p.main {
            assert(func_is(
                c.fns@[f.0 as int],
                Context { consts: p.consts@, this: Some(FuncIdx(f.0 as int as u32)) },
                p.fns@[f.0 as int],
            ));
        }
    }
}

/// A part of a program begins with nothing in its registers, and with the globals
/// as the parts before it left them.
pub proof fn law_a_part_begins_with_nothing(a: Machine, b: Machine, body: Body)
    requires
        a.wf(),
        b.wf(),
        begun(a, b, body),
    ensures
        stands(b).pc == 0,
        locals(b) == Seq::new(body.regs as nat, |i: int| Data::Nil),
        shared(b) == shared(a),
        itself(b) == Data::Nil,
{
    let (x, y) = (a.heap.record(), b.heap.record());
    let none = Seq::<Value>::empty();
    lemma_placed_at(none, body.regs as nat, body.params@, none, 0);
    lemma_look(b, Reg(0));
    lemma_meaning(y, nil_value());
    let env = locals(b);
    assert(matched(body.params@, none) == 0);
    assert forall|i: int| 0 <= i < body.regs implies env[i] == Data::Nil by {
        assert(b.regs@[0 + i] == placed(none, body.regs as nat, body.params@, none, 0)[none.len() + i]);
    }
    assert(env =~= Seq::new(body.regs as nat, |i: int| Data::Nil));
    a.heap.lemma_record_ok();
    assert(crate::vm::cells::handles(a.globals@).subset_of(x.ext));
    crate::vm::join::lemma_owned_live(x, a.globals@);
    assert forall|i: int| 0 <= i < a.globals@.len() implies shared(b)[i] == shared(a)[i] by {
        assert(a.globals@[i].ok() && live(x, a.globals@[i]));
        assert(live(y, b.globals@[i]));
        lemma_same(a, b, a.globals@[i]);
    }
    assert(shared(b) =~= shared(a));
}

} // verus!
