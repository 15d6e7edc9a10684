//! The interpreter: runs loaded instructions.
//!
//! Frames live on a stack the machine owns, so a deep recursion in a program
//! uses memory and never overflows anything. All frames' registers sit in one
//! vector: a frame is a function, where it is in that function, and where its
//! registers start.
//!
//! Reference counting follows one rule: every register, global and frame holds
//! one reference to its value. So copying a value into a register adds a
//! reference, and overwriting a register, or leaving a frame, gives one up.
//!
//! The machine prints nothing itself. An instruction that needs a value shown
//! stops the run with the value, and the answer resumes it.

use crate::vm::array::out_of_room;
use crate::vm::cells::{all_ok, handles};
use crate::vm::code::{Body, Code, Func};
use crate::vm::compute::{
    as_bool, body_of, compute_value, const_ok, ends, gives_value, is_string, is_variant,
    is_variant_of, kind_of, over_values, stops_value, too_many,
};
use crate::vm::compute_array::{compute_array, gives_array, over_arrays, stops_array};
use crate::vm::compute_text::{compute_text, gives_text, over_text, stops_text, too_large};
use crate::vm::core_ir::{GlobalSlot, Intrinsic};
use crate::vm::eq;
use crate::vm::heap::Heap;
use crate::vm::instr::{Broken, Instr, Reg};
use crate::vm::join::lemma_owned_live;
use crate::vm::nodes::{
    give_up, handle, lemma_handle_one, lemma_handles_add, lemma_no_handles, live,
};
use crate::vm::record::{keeps, Kind, part_of, Record};
use crate::vm::scene::{Fault, nil_value, Scene, share, Stop, value_at};
use crate::vm::sound::{sound, valid};
use crate::vm::value::{Cell, FuncIdx, Value};
use vstd::multiset::Multiset;
use vstd::prelude::*;

verus! {

/// Cells were only freed.
pub open spec fn thinned(a: Record, b: Record) -> bool {
    part_of(b, a) && keeps(a, b)
}

pub proof fn lemma_thinned_then(a: Record, b: Record, c: Record)
    requires
        thinned(a, b),
        thinned(b, c),
    ensures
        thinned(a, c),
{
    assert forall|d: Cell| #[trigger] a.has(d) && c.has(d) implies c.cells[d] == a.cells[d] by {
        assert(b.has(d));
    }
}

/// Registers with `v` in one of them, if there is such a one.
pub open spec fn set_at(vs: Seq<Value>, i: int, v: Value) -> Seq<Value> {
    if 0 <= i < vs.len() {
        vs.update(i, v)
    } else {
        vs
    }
}

proof fn lemma_handles_at(vs: Seq<Value>, i: int)
    requires
        0 <= i < vs.len(),
    ensures
        handles(vs) == handles(vs.take(i)).add(handle(vs[i])).add(handles(vs.skip(i + 1))),
{
    assert(vs =~= vs.take(i) + seq![vs[i]] + vs.skip(i + 1));
    lemma_handles_add(vs.take(i) + seq![vs[i]], vs.skip(i + 1));
    lemma_handles_add(vs.take(i), seq![vs[i]]);
    lemma_handle_one(vs[i]);
}

proof fn lemma_handles_update(vs: Seq<Value>, i: int, v: Value)
    requires
        0 <= i < vs.len(),
    ensures
        handles(vs.update(i, v)).add(handle(vs[i])) == handles(vs).add(handle(v)),
{
    lemma_handles_at(vs, i);
    let ws = vs.update(i, v);
    lemma_handles_at(ws, i);
    assert(ws.take(i) =~= vs.take(i));
    assert(ws.skip(i + 1) =~= vs.skip(i + 1));
    assert(handles(ws).add(handle(vs[i])) =~= handles(vs).add(handle(v)));
}

/// Put the owned `v` in register `i`, whose old value is given up. Where there is
/// no such register, `v` is given up.
fn put(heap: &mut Heap, regs: &mut Vec<Value>, i: usize, v: Value, Ghost(rest): Ghost<
    Multiset<Cell>,
>)
    requires
        old(heap).wf(),
        sound(old(heap).record()),
        v.ok(),
        all_ok(old(regs)@),
        old(heap).record().ext == rest.add(handles(old(regs)@)).add(handle(v)),
    ensures
        final(heap).wf(),
        sound(final(heap).record()),
        thinned(old(heap).record(), final(heap).record()),
        final(regs)@ == set_at(old(regs)@, i as int, v),
        all_ok(final(regs)@),
        final(heap).record().ext == rest.add(handles(final(regs)@)),
{
    let ghost before = regs@;
    if i < regs.len() {
        let old_value = regs[i];
        regs.set(i, v);
        proof {
            lemma_handles_update(before, i as int, v);
            assert(before[i as int].ok());
            assert forall|k: int| 0 <= k < regs@.len() implies (#[trigger] regs@[k]).ok() by {
                if k != i {
                    assert(before[k].ok());
                }
            }
            lemma_handles_at(before, i as int);
            assert(handle(old_value).subset_of(heap.record().ext));
        }
        give_up(heap, old_value);
        proof {
            assert(heap.record().ext =~= rest.add(handles(regs@))) by {
                let e = old(heap).record().ext;
                let x = handles(regs@).add(handle(old_value));
                assert(e =~= rest.add(handles(before).add(handle(v))));
                assert(e == rest.add(x));
                assert(e =~= rest.add(handles(regs@)).add(handle(old_value)));
            }
        }
    } else {
        proof {
            assert(handle(v).subset_of(heap.record().ext));
        }
        give_up(heap, v);
        proof {
            assert(heap.record().ext =~= rest.add(handles(regs@)));
        }
    }
}

/// Give up every register from `base` on, and drop them.
pub(crate) fn leave(heap: &mut Heap, regs: &mut Vec<Value>, base: usize, Ghost(rest): Ghost<Multiset<Cell>>)
    requires
        old(heap).wf(),
        sound(old(heap).record()),
        all_ok(old(regs)@),
        base <= old(regs)@.len(),
        old(heap).record().ext == rest.add(handles(old(regs)@)),
    ensures
        final(heap).wf(),
        sound(final(heap).record()),
        thinned(old(heap).record(), final(heap).record()),
        final(regs)@ == old(regs)@.take(base as int),
        final(heap).record().ext == rest.add(handles(final(regs)@)),
{
    let ghost before = regs@;
    let ghost first = heap.record();
    proof {
        assert(before.take(before.len() as int) =~= before);
    }
    while regs.len() > base
        invariant
            heap.wf(),
            first == old(heap).record(),
            sound(heap.record()),
            thinned(first, heap.record()),
            base <= regs@.len() <= before.len(),
            regs@ == before.take(regs@.len() as int),
            heap.record().ext == rest.add(handles(regs@)),
        decreases regs@.len(),
    {
        let ghost now = heap.record();
        let n: usize = regs.len();
        let v = regs[n - 1];
        let ghost all = regs@;
        regs.truncate(n - 1);
        proof {
            assert(all =~= regs@ + seq![v]);
            lemma_handles_add(regs@, seq![v]);
            lemma_handle_one(v);
            assert(regs@ =~= before.take(n - 1));
            assert(handle(v).subset_of(now.ext));
        }
        give_up(heap, v);
        proof {
            lemma_thinned_then(first, now, heap.record());
            assert(heap.record().ext =~= rest.add(handles(regs@)));
        }
    }
}

/// A frame's registers, `Nil` but for the first `k` arguments, which are in its
/// parameters.
pub open spec fn placed(below: Seq<Value>, n: nat, params: Seq<Reg>, args: Seq<Value>, k: nat) -> Seq<
    Value,
>
    decreases k,
{
    if k == 0 {
        below + Seq::new(n, |i: int| nil_value())
    } else {
        set_at(
            placed(below, n, params, args, (k - 1) as nat),
            below.len() + params[k - 1].0,
            args[k - 1],
        )
    }
}

/// How many arguments have a parameter.
pub open spec fn matched(params: Seq<Reg>, args: Seq<Value>) -> nat {
    if params.len() <= args.len() {
        params.len()
    } else {
        args.len()
    }
}

/// The registers after a frame was entered over `below`.
pub open spec fn entered(below: Seq<Value>, b: Body, args: Seq<Value>) -> Seq<Value> {
    placed(below, b.regs as nat, b.params@, args, matched(b.params@, args))
}

proof fn lemma_placed_len(below: Seq<Value>, n: nat, params: Seq<Reg>, args: Seq<Value>, k: nat)
    ensures
        placed(below, n, params, args, k).len() == below.len() + n,
    decreases k,
{
    if k > 0 {
        lemma_placed_len(below, n, params, args, (k - 1) as nat);
    }
}

pub proof fn lemma_nils(n: nat)
    ensures
        handles(Seq::new(n, |i: int| nil_value())) == Multiset::<Cell>::empty(),
    decreases n,
{
    let s = Seq::new(n, |i: int| nil_value());
    if n == 0 {
        assert(s =~= Seq::empty());
        lemma_no_handles();
    } else {
        lemma_nils((n - 1) as nat);
        assert(s =~= Seq::new((n - 1) as nat, |i: int| nil_value()) + seq![nil_value()]);
        lemma_handles_add(Seq::new((n - 1) as nat, |i: int| nil_value()), seq![nil_value()]);
        lemma_handle_one(nil_value());
        assert(handles(s) =~= Multiset::empty());
    }
}

/// Give `body` a fresh frame at `base`, with the owned `args` in its parameters.
/// Whatever held registers from `base` on is given up first; so is an argument
/// that has no parameter.
pub(crate) fn enter(
    heap: &mut Heap,
    regs: &mut Vec<Value>,
    body: &Body,
    base: usize,
    args: &Vec<Value>,
    Ghost(rest): Ghost<Multiset<Cell>>,
)
    requires
        old(heap).wf(),
        sound(old(heap).record()),
        all_ok(old(regs)@),
        all_ok(args@),
        base <= old(regs)@.len(),
        base + body.regs <= usize::MAX,
        old(heap).record().ext == rest.add(handles(old(regs)@)).add(handles(args@)),
    ensures
        final(heap).wf(),
        sound(final(heap).record()),
        thinned(old(heap).record(), final(heap).record()),
        final(regs)@ == entered(old(regs)@.take(base as int), *body, args@),
        final(regs)@.len() == base + body.regs,
        all_ok(final(regs)@),
        final(heap).record().ext == rest.add(handles(final(regs)@)),
{
    let ghost first = heap.record();
    let ghost below = regs@.take(base as int);
    let ghost n = body.regs as nat;
    let ghost more = rest.add(handles(args@));
    proof {
        assert(first.ext =~= more.add(handles(regs@)));
        assert forall|k: int| 0 <= k < below.len() implies (#[trigger] below[k]).ok() by {
            assert(regs@[k].ok());
        }
    }
    leave(heap, regs, base, Ghost(more));
    let ghost one = heap.record();
    let mut k: u32 = 0;
    proof {
        assert(below + Seq::new(0, |i: int| nil_value()) =~= below);
    }
    while k < body.regs
        invariant
            k <= body.regs,
            regs@ == below + Seq::new(k as nat, |i: int| nil_value()),
        decreases body.regs - k,
    {
        regs.push(Value { bits: 0xFFFA_0000_0000_0000 });
        proof {
            assert(regs@ =~= below + Seq::new((k + 1) as nat, |i: int| nil_value()));
        }
        k += 1;
    }
    proof {
        lemma_handles_add(below, Seq::new(n, |i: int| nil_value()));
        lemma_nils(n);
        assert(handles(regs@) =~= handles(below));
        assert forall|i: int| 0 <= i < regs@.len() implies (#[trigger] regs@[i]).ok() by {
            if i < below.len() {
                assert(below[i].ok());
            }
        }
        assert(args@.skip(0) =~= args@);
        assert(one.ext =~= rest.add(handles(args@.skip(0))).add(handles(regs@)));
    }
    let count: usize = args.len();
    let mut j: usize = 0;
    while j < count
        invariant
            count == args@.len(),
            j <= count,
            heap.wf(),
            first == old(heap).record(),
            sound(heap.record()),
            thinned(first, heap.record()),
            all_ok(args@),
            all_ok(regs@),
            base == below.len(),
            n == body.regs,
            base + body.regs <= usize::MAX,
            regs@ == placed(
                below,
                n,
                body.params@,
                args@,
                if j <= matched(body.params@, args@) {
                    j as nat
                } else {
                    matched(body.params@, args@)
                },
            ),
            heap.record().ext == rest.add(handles(args@.skip(j as int))).add(handles(regs@)),
        decreases count - j,
    {
        let ghost now = heap.record();
        let v = args[j];
        let ghost left = rest.add(handles(args@.skip(j + 1)));
        proof {
            assert(args@[j as int].ok());
            assert(args@.skip(j as int) =~= seq![v] + args@.skip(j + 1));
            lemma_handles_add(seq![v], args@.skip(j + 1));
            lemma_handle_one(v);
            assert(now.ext =~= left.add(handles(regs@)).add(handle(v)));
            lemma_placed_len(
                below,
                n,
                body.params@,
                args@,
                if j <= matched(body.params@, args@) {
                    j as nat
                } else {
                    matched(body.params@, args@)
                },
            );
        }
        if j < body.params.len() {
            let r = body.params[j];
            let at: usize = match base.checked_add(r.0 as usize) {
                Some(at) => at,
                None => usize::MAX,
            };
            put(heap, regs, at, v, Ghost(left));
        } else {
            proof {
                assert(handle(v).subset_of(now.ext));
            }
            give_up(heap, v);
            proof {
                assert(heap.record().ext =~= left.add(handles(regs@)));
            }
        }
        proof {
            lemma_thinned_then(first, now, heap.record());
        }
        j += 1;
    }
    proof {
        assert(args@.skip(count as int) =~= Seq::empty());
        lemma_no_handles();
        assert(heap.record().ext =~= rest.add(handles(regs@)));
        lemma_placed_len(below, n, body.params@, args@, matched(body.params@, args@));
    }
}

/// A call under way.
pub struct Frame<'c> {
    pub body: &'c Body,
    pub pc: usize,
    pub base: usize,
    /// The caller's register that the result goes to. `None` for the frame that
    /// a run started with.
    pub ret_to: Option<Reg>,
    /// The closure that this frame runs as, or `Nil` for a call by name.
    pub env: Value,
}

/// What a run waits for.
#[derive(Clone, Copy, PartialEq, Eq, Structural, Debug)]
pub enum Wait {
    /// A value printed; then `Nil` goes to `dst`.
    Printed { dst: Reg },
    /// A value's text, which goes to `dst`.
    Text { dst: Reg },
}

/// What a step came to.
#[derive(Clone, Copy, PartialEq, Eq, Structural, Debug)]
pub enum Event {
    /// There is more to run.
    Going,
    /// The function that the run started with returned. The caller holds the
    /// value's reference.
    Returned(Value),
    /// A value is to be printed, on a line of its own.
    Print(Value),
    /// A value's text is asked for.
    Show(Value),
}

pub struct Machine<'c> {
    pub code: &'c Code,
    pub heap: Heap,
    pub globals: Vec<Value>,
    /// What the last part of the program to return came to.
    pub last: Value,
    pub regs: Vec<Value>,
    pub frames: Vec<Frame<'c>>,
    pub waiting: Option<Wait>,
    /// The heap before the last step gave anything up.
    pub made: Ghost<Record>,
}

/// The closures that frames run as.
pub open spec fn envs(frames: Seq<Frame>) -> Seq<Value> {
    Seq::new(frames.len(), |i: int| frames[i].env)
}

/// Each frame's registers start where those of the frame below end.
pub open spec fn stacked(frames: Seq<Frame>, n: int) -> bool {
    &&& forall|i: int| 0 <= i < frames.len() ==> #[trigger] ends_at(frames, n, i)
    &&& frames.len() == 0 ==> n == 0
    &&& frames.len() > 0 ==> frames[0].base == 0
}

/// Where frame `i`'s registers end.
pub open spec fn ends_at(frames: Seq<Frame>, n: int, i: int) -> bool {
    frames[i].base + frames[i].body.regs == (if i + 1 < frames.len() {
        frames[i + 1].base as int
    } else {
        n
    })
}

/// Constants are words of their own.
pub open spec fn body_ok(b: Body) -> bool {
    forall|i: int| 0 <= i < b.instrs@.len() ==> const_ok(#[trigger] b.instrs@[i])
}

pub open spec fn func_ok(f: Func) -> bool {
    f matches Func::Ready(b) ==> body_ok(b)
}

pub open spec fn code_ok(c: Code) -> bool {
    &&& forall|i: int| 0 <= i < c.fns@.len() ==> func_ok(#[trigger] c.fns@[i])
    &&& forall|i: int| 0 <= i < c.toplevels@.len() ==> func_ok(#[trigger] c.toplevels@[i])
}

/// Only the first frame has no caller.
pub open spec fn frames_ok(frames: Seq<Frame>) -> bool {
    forall|i: int|
        #![trigger frames[i]]
        0 <= i < frames.len() ==> body_ok(*frames[i].body) && frames[i].env.ok() && (frames[i].ret_to is None
            <==> i == 0)
}

impl<'c> Machine<'c> {
    /// The references that outlast a part of the program: one by each global,
    /// and the last result's.
    pub open spec fn kept(self) -> Multiset<Cell> {
        handles(self.globals@).add(handle(self.last))
    }

    /// The references that are held: those, and one by each register and frame.
    pub open spec fn held(self) -> Multiset<Cell> {
        self.kept().add(handles(envs(self.frames@))).add(handles(self.regs@))
    }

    pub open spec fn wf(self) -> bool {
        &&& self.heap.wf()
        &&& sound(self.heap.record())
        &&& code_ok(*self.code)
        &&& all_ok(self.regs@)
        &&& all_ok(self.globals@)
        &&& self.last.ok()
        &&& frames_ok(self.frames@)
        &&& stacked(self.frames@, self.regs@.len() as int)
        &&& self.heap.record().ext == self.held()
        &&& self.waiting is Some ==> self.frames@.len() > 0
    }

    pub open spec fn top(self) -> Frame<'c> {
        self.frames@[self.frames@.len() - 1]
    }

    /// The instruction that runs next.
    pub open spec fn instr(self) -> Instr {
        self.top().body.instrs@[self.top().pc as int]
    }

    /// What it reads.
    pub open spec fn scene(self) -> Scene<'c> {
        Scene {
            regs: &self.regs,
            base: self.top().base,
            env: self.top().env,
            globals: &self.globals,
            abi: self.code.abi,
        }
    }
}

/// Frames with the last one at `pc`.
pub open spec fn with_pc<'c>(frames: Seq<Frame<'c>>, pc: int) -> Seq<Frame<'c>> {
    let n = frames.len() - 1;
    frames.update(n, Frame { pc: pc as usize, ..frames[n] })
}

/// Frames with the last one run by another function.
pub open spec fn with_body<'c>(frames: Seq<Frame<'c>>, b: &'c Body, env: Value) -> Seq<Frame<'c>> {
    let n = frames.len() - 1;
    frames.update(n, Frame { body: b, pc: 0, env, ..frames[n] })
}

/// The function that a value is.
pub open spec fn func_of(r: Record, v: Value) -> Option<FuncIdx> {
    match v.spec_view() {
        crate::vm::value::View::Func(f) => Some(f),
        crate::vm::value::View::Cell(c) => if r.cells[c].kind is Closure {
            Some(FuncIdx((r.cells[c].data[0] % 0x1_0000_0000) as u32))
        } else {
            None
        },
        _ => None,
    }
}

/// A function that is there and ready.
pub open spec fn ready_body(code: Code, f: FuncIdx) -> Option<Body> {
    if f.0 < code.fns@.len() {
        match code.fns@[f.0 as int] {
            Func::Ready(b) => Some(b),
            Func::NotBuiltYet(_) => None,
        }
    } else {
        None
    }
}

pub open spec fn no_function(code: Code, f: FuncIdx) -> Option<Stop> {
    if f.0 >= code.fns@.len() {
        Some(Stop::NotBuiltYet(Fault::NoFunction(f)))
    } else if code.fns@[f.0 as int] is NotBuiltYet {
        Some(Stop::NotBuiltYet(Fault::NotReady(f)))
    } else {
        None
    }
}

/// What stops a call of a value.
pub open spec fn no_callee(code: Code, r: Record, v: Value, given: int) -> Option<Stop> {
    match func_of(r, v) {
        None => Some(Stop::BadProgram(Fault::NotAFunction(v))),
        Some(f) => match ready_body(code, f) {
            None => no_function(code, f),
            Some(b) => if b.params@.len() != given {
                Some(
                    Stop::BadProgram(
                        Fault::Arguments { given: given as usize, wanted: b.params@.len() as usize },
                    ),
                )
            } else {
                None
            },
        },
    }
}

/// A function's body.
pub(crate) fn body_at<'c>(code: &'c Code, f: FuncIdx) -> (r: Result<&'c Body, Stop>)
    requires
        code_ok(*code),
    ensures
        match r {
            Ok(b) => ready_body(*code, f) == Some(*b) && no_function(*code, f) is None && body_ok(*b),
            Err(e) => no_function(*code, f) == Some(e) && ready_body(*code, f) is None,
        },
{
    if f.0 as usize >= code.fns.len() {
        return Err(Stop::NotBuiltYet(Fault::NoFunction(f)));
    }
    proof {
        assert(func_ok(code.fns@[f.0 as int]));
    }
    match &code.fns[f.0 as usize] {
        Func::Ready(b) => Ok(b),
        Func::NotBuiltYet(_) => Err(Stop::NotBuiltYet(Fault::NotReady(f))),
    }
}

/// The body that function value `v` runs.
fn callee<'c>(heap: &Heap, code: &'c Code, v: Value, given: usize) -> (r: Result<&'c Body, Stop>)
    requires
        heap.wf(),
        sound(heap.record()),
        code_ok(*code),
        live(heap.record(), v),
    ensures
        match r {
            Ok(b) => {
                &&& func_of(heap.record(), v) matches Some(f) && ready_body(*code, f) == Some(*b)
                &&& no_callee(*code, heap.record(), v, given as int) is None
                &&& body_ok(*b)
            },
            Err(e) => no_callee(*code, heap.record(), v, given as int) == Some(e),
        },
{
    let f = match v.view() {
        crate::vm::value::View::Func(f) => f,
        crate::vm::value::View::Cell(c) => {
            proof {
                assert(v.spec_cell() == Some(c));
                assert(heap.record().has(c));
                assert(valid(heap.record(), c));
            }
            if heap.kind(c) == Kind::Closure {
                heap.closure_func(c)
            } else {
                return Err(Stop::BadProgram(Fault::NotAFunction(v)));
            }
        },
        _ => {
            return Err(Stop::BadProgram(Fault::NotAFunction(v)));
        },
    };
    let b = body_at(code, f)?;
    if b.params.len() != given {
        return Err(Stop::BadProgram(Fault::Arguments { given, wanted: b.params.len() }));
    }
    Ok(b)
}

/// An instruction that computes a value from what it reads, and puts it in a
/// register.
#[verifier::opaque]
pub open spec fn computes(i: Instr) -> bool {
    &&& over_values(i) || over_text(i) || over_arrays(i)
    &&& !(i matches Instr::Builtin { dst, intrinsic, args } && intrinsic is StringInspect && args@.len()
        == 1)
}

/// The register it goes to.
#[verifier::opaque]
pub open spec fn target(i: Instr) -> Reg {
    match i {
        Instr::Const { dst, .. } => dst,
        Instr::Str { dst, .. } => dst,
        Instr::BigInt { dst, .. } => dst,
        Instr::Move { dst, .. } => dst,
        Instr::GetGlobal { dst, .. } => dst,
        Instr::Int { dst, .. } => dst,
        Instr::IntNeg { dst, .. } => dst,
        Instr::Concat { dst, .. } => dst,
        Instr::Ctor { dst, .. } => dst,
        Instr::Closure { dst, .. } => dst,
        Instr::GetCapture { dst, .. } => dst,
        Instr::GetSelf { dst, .. } => dst,
        Instr::Field { dst, .. } => dst,
        Instr::Tuple { dst, .. } => dst,
        Instr::Element { dst, .. } => dst,
        Instr::Array { dst, .. } => dst,
        Instr::Builtin { dst, .. } => dst,
        Instr::Equal { dst, .. } => dst,
        Instr::NotEqual { dst, .. } => dst,
        Instr::Not { dst, .. } => dst,
        Instr::Range { dst, .. } => dst,
        Instr::ArrayLen { dst, .. } => dst,
        Instr::ArrayElem { dst, .. } => dst,
        Instr::ArrayDrop { dst, .. } => dst,
        Instr::ArrayPrepend { dst, .. } => dst,
        Instr::ArrayAppend { dst, .. } => dst,
        Instr::ArrayConcat { dst, .. } => dst,
        Instr::ArraySlice { dst, .. } => dst,
        Instr::ArrayIndex { dst, .. } => dst,
        Instr::ArrayIndexOr { dst, .. } => dst,
        _ => Reg(0),
    }
}

fn target_of(i: &Instr) -> (r: Reg)
    ensures
        r == target(*i),
{
    proof {
        reveal(target);
    }
    match i {
        Instr::Const { dst, .. } => *dst,
        Instr::Str { dst, .. } => *dst,
        Instr::BigInt { dst, .. } => *dst,
        Instr::Move { dst, .. } => *dst,
        Instr::GetGlobal { dst, .. } => *dst,
        Instr::Int { dst, .. } => *dst,
        Instr::IntNeg { dst, .. } => *dst,
        Instr::Concat { dst, .. } => *dst,
        Instr::Ctor { dst, .. } => *dst,
        Instr::Closure { dst, .. } => *dst,
        Instr::GetCapture { dst, .. } => *dst,
        Instr::GetSelf { dst, .. } => *dst,
        Instr::Field { dst, .. } => *dst,
        Instr::Tuple { dst, .. } => *dst,
        Instr::Element { dst, .. } => *dst,
        Instr::Array { dst, .. } => *dst,
        Instr::Builtin { dst, .. } => *dst,
        Instr::Equal { dst, .. } => *dst,
        Instr::NotEqual { dst, .. } => *dst,
        Instr::Not { dst, .. } => *dst,
        Instr::Range { dst, .. } => *dst,
        Instr::ArrayLen { dst, .. } => *dst,
        Instr::ArrayElem { dst, .. } => *dst,
        Instr::ArrayDrop { dst, .. } => *dst,
        Instr::ArrayPrepend { dst, .. } => *dst,
        Instr::ArrayAppend { dst, .. } => *dst,
        Instr::ArrayConcat { dst, .. } => *dst,
        Instr::ArraySlice { dst, .. } => *dst,
        Instr::ArrayIndex { dst, .. } => *dst,
        Instr::ArrayIndexOr { dst, .. } => *dst,
        _ => Reg(0),
    }
}

/// What it gives.
#[verifier::opaque]
pub open spec fn gives(i: Instr, s: Scene, a: Record, b: Record, v: Value) -> bool {
    if over_values(i) {
        gives_value(i, s, a, b, v)
    } else if over_text(i) {
        gives_text(i, s, a, b, v)
    } else {
        gives_array(i, s, a, b, v)
    }
}

/// What stops it.
#[verifier::opaque]
pub open spec fn stops(i: Instr, s: Scene, a: Record) -> Option<Stop> {
    if over_values(i) {
        stops_value(i, s, a)
    } else if over_text(i) {
        stops_text(i, s, a)
    } else {
        stops_array(i, s, a)
    }
}

/// More than a cell holds is asked for.
#[verifier::opaque]
pub open spec fn oversize(i: Instr, s: Scene, a: Record) -> bool {
    too_many(i) || too_large(i, s, a)
}

/// Run an instruction that computes.
fn compute(heap: &mut Heap, s: &Scene, i: &Instr) -> (r: Result<Value, Stop>)
    requires
        old(heap).wf(),
        sound(old(heap).record()),
        s.ok(old(heap).record()),
        computes(*i),
        const_ok(*i),
    ensures
        r matches Err(Stop::HeapFull) ==> out_of_room(*final(heap)) || oversize(
            *i,
            *s,
            old(heap).record(),
        ),
        final(heap).wf(),
        ends(
            old(heap).record(),
            final(heap).record(),
            r,
            stops(*i, *s, old(heap).record()),
        ),
        r matches Ok(v) ==> gives(*i, *s, old(heap).record(), final(heap).record(), v),
{
    proof {
        reveal(computes);
        reveal(gives);
        reveal(stops);
        reveal(oversize);
    }
    match i {
        Instr::Const { .. }
        | Instr::Move { .. }
        | Instr::GetGlobal { .. }
        | Instr::Ctor { .. }
        | Instr::Closure { .. }
        | Instr::Tuple { .. }
        | Instr::GetCapture { .. }
        | Instr::GetSelf { .. }
        | Instr::Field { .. }
        | Instr::Element { .. }
        | Instr::Equal { .. }
        | Instr::NotEqual { .. }
        | Instr::Not { .. } => compute_value(heap, s, i),
        Instr::Str { .. }
        | Instr::BigInt { .. }
        | Instr::Int { .. }
        | Instr::IntNeg { .. }
        | Instr::Concat { .. }
        | Instr::Builtin { .. } => compute_text(heap, s, i),
        _ => compute_array(heap, s, i),
    }
}

/// A branch on what is no Bool.
pub open spec fn no_branch(i: Instr, s: Scene) -> Option<Stop> {
    match i {
        Instr::JumpIfFalse { cond, to } => if as_bool(s.at(cond)) is None {
            Some(Stop::NotBuiltYet(Fault::BranchOn(s.at(cond))))
        } else {
            None
        },
        _ => None,
    }
}

/// What stops the next step, apart from a full heap.
#[verifier::opaque]
pub open spec fn stop_of(m: Machine) -> Option<Stop> {
    let f = m.top();
    let s = m.scene();
    let a = m.heap.record();
    if f.pc >= f.body.instrs@.len() {
        Some(Stop::BadProgram(Fault::RanPast))
    } else if computes(m.instr()) {
        stops(m.instr(), s, a)
    } else {
        match m.instr() {
            Instr::Call { dst, func, args } => no_function(*m.code, func),
            Instr::TailCall { func, args } => no_function(*m.code, func),
            Instr::CallValue { dst, callee, args } => no_callee(
                *m.code,
                a,
                s.at(callee),
                args@.len() as int,
            ),
            Instr::TailCallValue { callee, args } => no_callee(
                *m.code,
                a,
                s.at(callee),
                args@.len() as int,
            ),
            Instr::JumpIfFalse { .. } => no_branch(m.instr(), s),
            Instr::Bad { why } => Some(Stop::BadProgram(Fault::Broken(why))),
            _ => None,
        }
    }
}

/// The last frame went on to `pc`, and nothing else changed.
pub open spec fn moved_to(a: Machine, b: Machine, pc: int) -> bool {
    &&& b.frames@ == with_pc(a.frames@, pc)
    &&& b.regs@ == a.regs@
    &&& b.globals@ == a.globals@
    &&& b.last == a.last
    &&& b.heap.record() == a.heap.record()
    &&& b.waiting == a.waiting
}

/// Where a jump goes.
#[verifier::opaque]
pub open spec fn jumps(m: Machine) -> Option<int> {
    let s = m.scene();
    let a = m.heap.record();
    let next = m.top().pc + 1;
    match m.instr() {
        Instr::Jump { to } => Some(to as int),
        Instr::JumpIfFalse { cond, to } => Some(
            if as_bool(s.at(cond)) == Some(true) {
                next
            } else {
                to as int
            },
        ),
        Instr::JumpUnlessVariant { src, variant, to } => Some(
            if is_variant_of(a, s.at(src), variant) {
                next
            } else {
                to as int
            },
        ),
        Instr::JumpUnlessInt { src, n, to } => Some(
            if crate::vm::bigint::int_of(a, s.at(src)) == Some(n as int) {
                next
            } else {
                to as int
            },
        ),
        Instr::JumpUnlessStr { src, text, to } => Some(
            if kind_of(a, s.at(src)) == Some(Kind::String) && crate::vm::cells::text_of(
                body_of(a, s.at(src)),
            ) == text@ {
                next
            } else {
                to as int
            },
        ),
        _ => None,
    }
}

/// Cells were made, then cells were freed.
pub open spec fn heap_moved(a: Machine, b: Machine) -> bool {
    &&& part_of(a.heap.record(), b.made@)
    &&& thinned(b.made@, b.heap.record())
}

/// A frame more, which runs `body` with `args`.
pub open spec fn called(
    a: Machine,
    b: Machine,
    body: Body,
    args: Seq<Value>,
    dst: Reg,
    env: Value,
) -> bool {
    let n = a.frames@.len();
    let f = b.frames@[n as int];
    &&& b.frames@.len() == n + 1
    &&& b.frames@.take(n as int) == with_pc(a.frames@, a.top().pc + 1)
    &&& *f.body == body
    &&& f.pc == 0
    &&& f.base == a.regs@.len()
    &&& f.ret_to == Some(dst)
    &&& f.env == env
    &&& b.regs@ == entered(a.regs@, body, args)
    &&& b.globals@ == a.globals@
    &&& b.last == a.last
    &&& b.waiting == a.waiting
    &&& heap_moved(a, b)
}

/// The last frame taken over by `body` with `args`.
pub open spec fn replaced(a: Machine, b: Machine, body: Body, args: Seq<Value>, env: Value) -> bool {
    let n = a.frames@.len() - 1;
    let f = b.frames@[n];
    &&& b.frames@.len() == n + 1
    &&& b.frames@.take(n) == a.frames@.take(n)
    &&& *f.body == body
    &&& f.pc == 0
    &&& f.base == a.top().base
    &&& f.ret_to == a.top().ret_to
    &&& f.env == env
    &&& b.regs@ == entered(a.regs@.take(a.top().base as int), body, args)
    &&& b.globals@ == a.globals@
    &&& b.last == a.last
    &&& b.waiting == a.waiting
    &&& heap_moved(a, b)
}

/// A register took a value, and the frame went on.
pub open spec fn wrote(a: Machine, b: Machine, dst: Reg, v: Value) -> bool {
    &&& b.frames@ == with_pc(a.frames@, a.top().pc + 1)
    &&& b.regs@ == set_at(a.regs@, a.top().base + dst.0, v)
    &&& b.globals@ == a.globals@
    &&& b.last == a.last
    &&& b.waiting == a.waiting
    &&& heap_moved(a, b)
}

/// A run that waits for an answer.
pub open spec fn asked(a: Machine, b: Machine, w: Wait) -> bool {
    &&& b.frames@ == with_pc(a.frames@, a.top().pc + 1)
    &&& b.regs@ == a.regs@
    &&& b.globals@ == a.globals@
    &&& b.last == a.last
    &&& b.heap.record() == a.heap.record()
    &&& b.waiting == Some(w)
}

/// The function that the last frame ran returned `v`.
pub open spec fn returned(a: Machine, b: Machine, v: Value, ev: Event) -> bool {
    let n = a.frames@.len() - 1;
    let below = a.regs@.take(a.top().base as int);
    &&& b.frames@ == a.frames@.take(n)
    &&& b.globals@ == a.globals@
    &&& b.last == a.last
    &&& b.waiting == a.waiting
    &&& heap_moved(a, b)
    &&& match a.top().ret_to {
        Some(dst) if n > 0 => ev == Event::Going && b.regs@ == set_at(
            below,
            a.frames@[n - 1].base + dst.0,
            v,
        ),
        _ => ev == Event::Returned(v) && b.regs@ == below,
    }
}

/// What a step does.
#[verifier::opaque]
pub open spec fn stepped(a: Machine, b: Machine, ev: Event) -> bool {
    let i = a.instr();
    let s = a.scene();
    let r = a.heap.record();
    if computes(i) {
        let at = s.base + target(i).0;
        &&& ev == Event::Going
        &&& wrote(a, b, target(i), value_at(b.regs@, at))
        &&& at < a.regs@.len() ==> gives(i, s, r, b.made@, b.regs@[at])
    } else if jumps(a) is Some {
        ev == Event::Going && moved_to(a, b, jumps(a)->Some_0)
    } else {
        match i {
            Instr::SetGlobal { slot, src } => {
                &&& ev == Event::Going
                &&& b.frames@ == with_pc(a.frames@, a.top().pc + 1)
                &&& b.regs@ == a.regs@
                &&& b.globals@ == set_at(a.globals@, slot.0 as int, s.at(src))
                &&& b.last == a.last
                &&& b.waiting == a.waiting
                &&& heap_moved(a, b)
            },
            Instr::Drop { reg } => ev == Event::Going && wrote(a, b, reg, nil_value()),
            Instr::Println { dst, arg } => ev == Event::Print(s.at(arg)) && asked(
                a,
                b,
                Wait::Printed { dst },
            ),
            Instr::ToString { dst, a: x } => if kind_of(r, s.at(x)) == Some(Kind::String) {
                ev == Event::Going && wrote(a, b, dst, s.at(x))
            } else {
                ev == Event::Show(s.at(x)) && asked(a, b, Wait::Text { dst })
            },
            Instr::Builtin { dst, intrinsic, args } => ev == Event::Show(s.at(args@[0])) && asked(
                a,
                b,
                Wait::Text { dst },
            ),
            Instr::Call { dst, func, args } => ev == Event::Going && (ready_body(
                *a.code,
                func,
            ) matches Some(f) && called(a, b, f, s.all_at(args@), dst, nil_value())),
            Instr::CallSelf { dst, args } => ev == Event::Going && called(
                a,
                b,
                *a.top().body,
                s.all_at(args@),
                dst,
                s.env,
            ),
            Instr::CallValue { dst, callee, args } => ev == Event::Going && (func_of(
                r,
                s.at(callee),
            ) matches Some(k) && ready_body(*a.code, k) matches Some(f) && called(
                a,
                b,
                f,
                s.all_at(args@),
                dst,
                s.at(callee),
            )),
            Instr::TailCall { func, args } => ev == Event::Going && (ready_body(
                *a.code,
                func,
            ) matches Some(f) && replaced(a, b, f, s.all_at(args@), nil_value())),
            Instr::TailCallSelf { args } => ev == Event::Going && replaced(
                a,
                b,
                *a.top().body,
                s.all_at(args@),
                s.env,
            ),
            Instr::TailCallValue { callee, args } => ev == Event::Going && (func_of(
                r,
                s.at(callee),
            ) matches Some(k) && ready_body(*a.code, k) matches Some(f) && replaced(
                a,
                b,
                f,
                s.all_at(args@),
                s.at(callee),
            )),
            Instr::Ret { src } => returned(a, b, s.at(src), ev),
            _ => false,
        }
    }
}

/// Everything but the references is right.
pub open spec fn sane(m: Machine) -> bool {
    &&& m.heap.wf()
    &&& sound(m.heap.record())
    &&& code_ok(*m.code)
    &&& all_ok(m.regs@)
    &&& all_ok(m.globals@)
    &&& m.last.ok()
    &&& frames_ok(m.frames@)
    &&& stacked(m.frames@, m.regs@.len() as int)
    &&& m.waiting is Some ==> m.frames@.len() > 0
}

/// A run after it returned `v`, whose reference the caller holds.
pub open spec fn done(m: Machine, v: Value) -> bool {
    &&& sane(m)
    &&& v.ok()
    &&& m.heap.record().ext == m.held().add(handle(v))
}

/// What a machine reads is live.
pub proof fn lemma_scene(m: Machine)
    requires
        m.wf(),
        m.frames@.len() > 0,
    ensures
        m.scene().ok(m.heap.record()),
        m.heap.record().ok(),
{
    let r = m.heap.record();
    m.heap.lemma_record_ok();
    assert(handles(m.regs@).subset_of(r.ext));
    assert(handles(m.globals@).subset_of(r.ext));
    assert(handles(envs(m.frames@)).subset_of(r.ext));
    lemma_owned_live(r, m.regs@);
    lemma_owned_live(r, m.globals@);
    lemma_owned_live(r, envs(m.frames@));
    let n = m.frames@.len() - 1;
    assert(envs(m.frames@)[n] == m.frames@[n].env);
    assert(live(r, envs(m.frames@)[n]));
}

/// Moving the last frame's place changes no frame's closure.
proof fn lemma_with_pc(frames: Seq<Frame>, pc: int, n: int)
    requires
        frames.len() > 0,
        frames_ok(frames),
        stacked(frames, n),
    ensures
        envs(with_pc(frames, pc)) == envs(frames),
        frames_ok(with_pc(frames, pc)),
        stacked(with_pc(frames, pc), n),
{
    let w = with_pc(frames, pc);
    assert(envs(w) =~= envs(frames));
    assert forall|i: int| #![trigger w[i]] 0 <= i < w.len() implies body_ok(*w[i].body)
        && w[i].env.ok() && (w[i].ret_to is None <==> i == 0) by {
        assert(frames[i].env.ok());
    }
    assert forall|i: int| 0 <= i < w.len() implies #[trigger] ends_at(w, n, i) by {
        assert(ends_at(frames, n, i));
    }
}

/// A frame on top.
proof fn lemma_push_frame<'c>(frames: Seq<Frame<'c>>, f: Frame<'c>, n: int)
    requires
        frames.len() > 0,
        frames_ok(frames),
        stacked(frames, n),
        body_ok(*f.body),
        f.env.ok(),
        f.base == n,
        f.ret_to is Some,
    ensures
        frames_ok(frames.push(f)),
        stacked(frames.push(f), n + f.body.regs),
        handles(envs(frames.push(f))) == handles(envs(frames)).add(handle(f.env)),
{
    let w = frames.push(f);
    assert(envs(w) =~= envs(frames) + seq![f.env]);
    lemma_handles_add(envs(frames), seq![f.env]);
    lemma_handle_one(f.env);
    assert forall|i: int| #![trigger w[i]] 0 <= i < w.len() implies body_ok(*w[i].body)
        && w[i].env.ok() && (w[i].ret_to is None <==> i == 0) by {
        if i < frames.len() {
            assert(frames[i].env.ok());
        }
    }
    assert forall|i: int| 0 <= i < w.len() implies #[trigger] ends_at(w, n + f.body.regs, i) by {
        if i < frames.len() {
            assert(ends_at(frames, n, i));
        }
    }
    assert(w[0] == frames[0]);
}

/// The last frame run by another function.
proof fn lemma_with_body<'c>(frames: Seq<Frame<'c>>, b: &'c Body, env: Value, n: int)
    requires
        frames.len() > 0,
        frames_ok(frames),
        stacked(frames, n),
        body_ok(*b),
        env.ok(),
    ensures
        frames_ok(with_body(frames, b, env)),
        stacked(
            with_body(frames, b, env),
            frames[frames.len() - 1].base + b.regs,
        ),
        handles(envs(with_body(frames, b, env))).add(handle(frames[frames.len() - 1].env))
            == handles(envs(frames)).add(handle(env)),
{
    let w = with_body(frames, b, env);
    let k = frames.len() - 1;
    assert(envs(w) =~= envs(frames).update(k, env));
    assert(envs(frames)[k] == frames[k].env);
    lemma_handles_update(envs(frames), k, env);
    assert forall|i: int| #![trigger w[i]] 0 <= i < w.len() implies body_ok(*w[i].body)
        && w[i].env.ok() && (w[i].ret_to is None <==> i == 0) by {
        assert(frames[i].env.ok());
    }
    assert forall|i: int| 0 <= i < w.len() implies #[trigger] ends_at(
        w,
        frames[k].base + b.regs,
        i,
    ) by {
        assert(ends_at(frames, n, i));
    }
    assert(frames[0].env.ok());
}

/// The last frame gone.
proof fn lemma_pop_frame(frames: Seq<Frame>, n: int)
    requires
        frames.len() > 0,
        frames_ok(frames),
        stacked(frames, n),
    ensures
        frames_ok(frames.drop_last()),
        stacked(frames.drop_last(), frames[frames.len() - 1].base as int),
        handles(envs(frames)) == handles(envs(frames.drop_last())).add(
            handle(frames[frames.len() - 1].env),
        ),
{
    let w = frames.drop_last();
    let k = frames.len() - 1;
    assert(envs(frames) =~= envs(w) + seq![frames[k].env]);
    lemma_handles_add(envs(w), seq![frames[k].env]);
    lemma_handle_one(frames[k].env);
    assert forall|i: int| #![trigger w[i]] 0 <= i < w.len() implies body_ok(*w[i].body)
        && w[i].env.ok() && (w[i].ret_to is None <==> i == 0) by {
        assert(frames[i].env.ok());
    }
    assert forall|i: int| 0 <= i < w.len() implies #[trigger] ends_at(
        w,
        frames[k].base as int,
        i,
    ) by {
        assert(ends_at(frames, n, i));
    }
    assert(frames[0].env.ok());
}

fn index_of(base: usize, r: Reg) -> (i: usize)
    ensures
        i == base + r.0 || i == usize::MAX && base + r.0 > usize::MAX,
{
    match base.checked_add(r.0 as usize) {
        Some(i) => i,
        None => usize::MAX,
    }
}

/// There was no room for a step: the heap or the stack can grow no more, or more
/// than a cell holds was asked for.
pub open spec fn spent(a: Machine, b: Machine) -> bool {
    ||| out_of_room(b.heap)
    ||| b.regs@.len() + u32::MAX > usize::MAX
    ||| oversize(a.instr(), a.scene(), a.heap.record())
}

/// What a step comes to.
pub open spec fn outcome(a: Machine, b: Machine, r: Result<Event, Stop>) -> bool {
    &&& b.code == a.code
    &&& match r {
        Ok(ev) => {
            &&& stop_of(a) is None
            &&& stepped(a, b, ev)
            &&& match ev {
                Event::Returned(v) => done(b, v),
                _ => b.wf(),
            }
        },
        Err(e) => e == Stop::HeapFull && spent(a, b) || stop_of(a) == Some(e),
    }
}

/// A machine whose next instruction is there.
pub open spec fn poised(m: Machine) -> bool {
    &&& m.wf()
    &&& m.frames@.len() > 0
    &&& m.waiting is None
    &&& m.top().pc < m.top().body.instrs@.len()
    &&& m.top().pc < usize::MAX
}

impl<'c> Machine<'c> {
    /// Put the owned `v` in the last frame's register `dst`.
    pub(crate) fn fill(&mut self, dst: Reg, v: Value)
        requires
            sane(*old(self)),
            old(self).frames@.len() > 0,
            v.ok(),
            old(self).heap.record().ext == old(self).held().add(handle(v)),
        ensures
            final(self).wf(),
            final(self).code == old(self).code,
            final(self).made@ == old(self).heap.record(),
            final(self).waiting == old(self).waiting,
            final(self).frames@ == old(self).frames@,
            final(self).regs@ == set_at(old(self).regs@, old(self).top().base + dst.0, v),
            final(self).globals@ == old(self).globals@,
            final(self).last == old(self).last,
            thinned(old(self).heap.record(), final(self).heap.record()),
    {
        let n: usize = self.frames.len();
        let base = self.frames[n - 1].base;
        let ghost rest = self.kept().add(handles(envs(self.frames@)));
        let size: usize = self.regs.len();
        proof {
            assert(size == self.regs@.len());
            assert(self.heap.record().ext =~= rest.add(handles(self.regs@)).add(handle(v)));
        }
        self.made = Ghost(self.heap.record());
        put(&mut self.heap, &mut self.regs, index_of(base, dst), v, Ghost(rest));
    }

    /// Put the owned `v` in the last frame's register `dst`, and go on.
    fn write(&mut self, dst: Reg, v: Value)
        requires
            sane(*old(self)),
            old(self).frames@.len() > 0,
            old(self).top().pc < usize::MAX,
            v.ok(),
            old(self).heap.record().ext == old(self).held().add(handle(v)),
        ensures
            final(self).wf(),
            final(self).code == old(self).code,
            final(self).made@ == old(self).heap.record(),
            final(self).waiting == old(self).waiting,
            final(self).frames@ == with_pc(old(self).frames@, old(self).top().pc + 1),
            final(self).regs@ == set_at(old(self).regs@, old(self).top().base + dst.0, v),
            final(self).globals@ == old(self).globals@,
            final(self).last == old(self).last,
            thinned(old(self).heap.record(), final(self).heap.record()),
    {
        let n: usize = self.frames.len();
        let pc = self.frames[n - 1].pc;
        self.fill(dst, v);
        self.go(pc + 1);
    }

    /// Run an instruction that computes.
    fn do_compute(&mut self, i: &Instr) -> (r: Result<Event, Stop>)
        requires
            poised(*old(self)),
            old(self).instr() == *i,
            computes(*i),
        ensures
            final(self).code == old(self).code,
            match r {
                Ok(ev) => {
                    let at = old(self).top().base + target(*i).0;
                    &&& ev == Event::Going
                    &&& stops(*i, old(self).scene(), old(self).heap.record()) is None
                    &&& final(self).wf()
                    &&& wrote(*old(self), *final(self), target(*i), value_at(final(self).regs@, at))
                    &&& at < old(self).regs@.len() ==> gives(
                        *i,
                        old(self).scene(),
                        old(self).heap.record(),
                        final(self).made@,
                        final(self).regs@[at],
                    )
                },
                Err(e) => e == Stop::HeapFull && spent(*old(self), *final(self)) || stops(
                    *i,
                    old(self).scene(),
                    old(self).heap.record(),
                ) == Some(e),
            },
    {
        let ghost a = self.heap.record();
        let n: usize = self.frames.len();
        let base = self.frames[n - 1].base;
        let env = self.frames[n - 1].env;
        proof {
            lemma_scene(*self);
            assert(self.frames@[n - 1] == self.top());
            assert(body_ok(*self.frames@[n - 1].body));
            assert(const_ok(self.top().body.instrs@[self.top().pc as int]));
        }
        let s = Scene {
            regs: &self.regs,
            base,
            env,
            globals: &self.globals,
            abi: self.code.abi,
        };
        let ghost scene = s;
        proof {
            assert(scene == old(self).scene());
        }
        let v = compute(&mut self.heap, &s, i)?;
        let ghost m = self.heap.record();
        proof {
            assert(m.ext =~= self.held().add(handle(v)));
            assert(self.top().pc < usize::MAX);
        }
        self.write(target_of(i), v);
        proof {
            let at = base + target(*i).0;
            if at < old(self).regs@.len() {
                assert(value_at(self.regs@, at) == v);
            } else {
                assert(self.regs@ == old(self).regs@);
            }
        }
        Ok(Event::Going)
    }

    /// Move the last frame to `pc`.
    fn go(&mut self, pc: usize)
        requires
            old(self).wf(),
            old(self).frames@.len() > 0,
        ensures
            final(self).wf(),
            final(self).code == old(self).code,
            final(self).made == old(self).made,
            moved_to(*old(self), *final(self), pc as int),
    {
        let n: usize = self.frames.len();
        proof {
            lemma_with_pc(self.frames@, pc as int, self.regs@.len() as int);
        }
        self.frames[n - 1].pc = pc;
        proof {
            assert(self.frames@ =~= with_pc(old(self).frames@, pc as int));
        }
    }

    /// Run a jump.
    fn do_jump(&mut self, i: &Instr) -> (r: Result<Event, Stop>)
        requires
            poised(*old(self)),
            old(self).instr() == *i,
            jumps(*old(self)) is Some,
        ensures
            final(self).code == old(self).code,
            match r {
                Ok(ev) => {
                    &&& ev == Event::Going
                    &&& no_branch(*i, old(self).scene()) is None
                    &&& final(self).wf()
                    &&& moved_to(*old(self), *final(self), jumps(*old(self))->Some_0)
                },
                Err(e) => no_branch(*i, old(self).scene()) == Some(e),
            },
    {
        let ghost a = self.heap.record();
        let n: usize = self.frames.len();
        let base = self.frames[n - 1].base;
        let env = self.frames[n - 1].env;
        let next: usize = self.frames[n - 1].pc + 1;
        proof {
            lemma_scene(*self);
            reveal(jumps);
        }
        let s = Scene {
            regs: &self.regs,
            base,
            env,
            globals: &self.globals,
            abi: self.code.abi,
        };
        let ghost scene = s;
        proof {
            assert(scene == old(self).scene());
        }
        let to: usize = match i {
            Instr::Jump { to } => *to,
            Instr::JumpIfFalse { cond, to } => {
                let v = s.get(*cond);
                match v.view() {
                    crate::vm::value::View::Bool(t) => if t {
                        next
                    } else {
                        *to
                    },
                    _ => {
                        return Err(Stop::NotBuiltYet(Fault::BranchOn(v)));
                    },
                }
            },
            Instr::JumpUnlessVariant { src, variant, to } => {
                proof {
                    scene.lemma_at(a, *src);
                }
                if is_variant(&self.heap, s.get(*src), *variant) {
                    next
                } else {
                    *to
                }
            },
            Instr::JumpUnlessInt { src, n: k, to } => {
                proof {
                    scene.lemma_at(a, *src);
                }
                if eq::is_int(&self.heap, s.get(*src), *k as i128) {
                    next
                } else {
                    *to
                }
            },
            Instr::JumpUnlessStr { src, text, to } => {
                proof {
                    scene.lemma_at(a, *src);
                }
                let v = s.get(*src);
                match v.as_cell() {
                    Some(c) => {
                        proof {
                            assert(a.has(c));
                            assert(valid(a, c));
                        }
                        if self.heap.kind(c) == Kind::String && self.heap.string_is(
                            c,
                            text.as_slice(),
                        ) {
                            next
                        } else {
                            *to
                        }
                    },
                    None => *to,
                }
            },
            _ => vstd::pervasive::unreached(),
        };
        self.go(to);
        Ok(Event::Going)
    }

    /// Ask for an answer, and go on when it comes.
    fn ask(&mut self, w: Wait)
        requires
            poised(*old(self)),
        ensures
            final(self).wf(),
            final(self).code == old(self).code,
            asked(*old(self), *final(self), w),
    {
        let n: usize = self.frames.len();
        let pc: usize = self.frames[n - 1].pc + 1;
        self.go(pc);
        self.waiting = Some(w);
    }
}

impl<'c> Machine<'c> {
    /// Enter `body` in a frame on top, with the values of registers as its
    /// arguments, run as the owned `env`.
    fn do_call(&mut self, dst: Reg, body: &'c Body, args: &Vec<Reg>, env: Value) -> (r: Result<
        Event,
        Stop,
    >)
        requires
            poised(*old(self)),
            body_ok(*body),
            env.ok(),
            live(old(self).heap.record(), env),
        ensures
            final(self).code == old(self).code,
            match r {
                Ok(ev) => ev == Event::Going && final(self).wf() && called(
                    *old(self),
                    *final(self),
                    *body,
                    old(self).scene().all_at(args@),
                    dst,
                    env,
                ),
                Err(e) => e == Stop::HeapFull && spent(*old(self), *final(self)),
            },
    {
        let ghost a = self.heap.record();
        let n: usize = self.frames.len();
        let base = self.frames[n - 1].base;
        let own_env = self.frames[n - 1].env;
        let pc = self.frames[n - 1].pc;
        proof {
            lemma_scene(*self);
        }
        let s = Scene {
            regs: &self.regs,
            base,
            env: own_env,
            globals: &self.globals,
            abi: self.code.abi,
        };
        let ghost scene = s;
        proof {
            assert(scene == old(self).scene());
            scene.lemma_all_at(a, args@);
        }
        let vs = s.args(&mut self.heap, args)?;
        let ghost one = self.heap.record();
        proof {
            assert(live(one, env));
        }
        let env = share(&mut self.heap, env)?;
        let ghost two = self.heap.record();
        let new_base: usize = self.regs.len();
        if usize::MAX - new_base < body.regs as usize {
            return Err(Stop::HeapFull);
        }
        let ghost rest = self.kept().add(handles(envs(self.frames@))).add(handle(env));
        proof {
            assert(two.ext =~= rest.add(handles(self.regs@)).add(handles(vs@)));
            assert(self.regs@.take(new_base as int) =~= self.regs@);
            lemma_with_pc(self.frames@, pc + 1, self.regs@.len() as int);
        }
        self.made = Ghost(two);
        enter(&mut self.heap, &mut self.regs, body, new_base, &vs, Ghost(rest));
        self.frames[n - 1].pc = pc + 1;
        let ghost moved = self.frames@;
        let frame = Frame { body, pc: 0, base: new_base, ret_to: Some(dst), env };
        proof {
            assert(moved =~= with_pc(old(self).frames@, pc + 1));
            lemma_push_frame(moved, frame, new_base as int);
        }
        self.frames.push(frame);
        proof {
            assert(self.frames@.take(n as int) =~= moved);
            assert(self.heap.record().ext =~= self.held());
        }
        Ok(Event::Going)
    }

    /// Enter `body` in the last frame's place, run as the owned `env`.
    fn do_tail(&mut self, body: &'c Body, args: &Vec<Reg>, env: Value) -> (r: Result<Event, Stop>)
        requires
            poised(*old(self)),
            body_ok(*body),
            env.ok(),
            live(old(self).heap.record(), env),
        ensures
            final(self).code == old(self).code,
            match r {
                Ok(ev) => ev == Event::Going && final(self).wf() && replaced(
                    *old(self),
                    *final(self),
                    *body,
                    old(self).scene().all_at(args@),
                    env,
                ),
                Err(e) => e == Stop::HeapFull && spent(*old(self), *final(self)),
            },
    {
        let ghost a = self.heap.record();
        let n: usize = self.frames.len();
        let base = self.frames[n - 1].base;
        let own_env = self.frames[n - 1].env;
        proof {
            lemma_scene(*self);
            assert(ends_at(self.frames@, self.regs@.len() as int, n - 1));
        }
        let s = Scene {
            regs: &self.regs,
            base,
            env: own_env,
            globals: &self.globals,
            abi: self.code.abi,
        };
        let ghost scene = s;
        proof {
            assert(scene == old(self).scene());
            scene.lemma_all_at(a, args@);
        }
        let vs = s.args(&mut self.heap, args)?;
        let ghost one = self.heap.record();
        proof {
            assert(live(one, env));
        }
        // The callee's closure gets its own reference before this frame's
        // registers are given up: one of them may be the only other holder.
        let env = share(&mut self.heap, env)?;
        let ghost two = self.heap.record();
        if usize::MAX - base < body.regs as usize {
            return Err(Stop::HeapFull);
        }
        let ghost rest = self.kept().add(handles(envs(self.frames@))).add(handle(env));
        proof {
            assert(two.ext =~= rest.add(handles(self.regs@)).add(handles(vs@)));
            lemma_with_body(self.frames@, body, env, self.regs@.len() as int);
        }
        self.made = Ghost(two);
        enter(&mut self.heap, &mut self.regs, body, base, &vs, Ghost(rest));
        let ghost three = self.heap.record();
        self.frames[n - 1].body = body;
        self.frames[n - 1].pc = 0;
        self.frames[n - 1].env = env;
        proof {
            assert(self.frames@ =~= with_body(old(self).frames@, body, env));
            assert(three.ext =~= self.held().add(handle(own_env))) by {
                let x = handles(envs(self.frames@)).add(handle(own_env));
                let y = handles(envs(old(self).frames@)).add(handle(env));
                assert(x == y);
                assert(three.ext =~= self.kept().add(y).add(handles(self.regs@)));
                assert(self.held().add(handle(own_env)) =~= self.kept().add(x).add(
                    handles(self.regs@),
                ));
            }
            assert(handle(own_env).subset_of(three.ext));
        }
        give_up(&mut self.heap, own_env);
        proof {
            lemma_thinned_then(two, three, self.heap.record());
            assert(self.heap.record().ext =~= self.held());
            assert(self.frames@.take(n - 1) =~= old(self).frames@.take(n - 1));
        }
        Ok(Event::Going)
    }

    /// Return the value of a register.
    fn do_return(&mut self, src: Reg) -> (r: Result<Event, Stop>)
        requires
            poised(*old(self)),
        ensures
            final(self).code == old(self).code,
            match r {
                Ok(ev) => {
                    let v = old(self).scene().at(src);
                    &&& returned(*old(self), *final(self), v, ev)
                    &&& match ev {
                        Event::Returned(w) => done(*final(self), w),
                        _ => final(self).wf(),
                    }
                },
                Err(e) => e == Stop::HeapFull && spent(*old(self), *final(self)),
            },
    {
        let ghost a = self.heap.record();
        let n: usize = self.frames.len();
        let base = self.frames[n - 1].base;
        let env = self.frames[n - 1].env;
        let ret_to = self.frames[n - 1].ret_to;
        proof {
            lemma_scene(*self);
            assert(ends_at(self.frames@, self.regs@.len() as int, n - 1));
        }
        let s = Scene {
            regs: &self.regs,
            base,
            env,
            globals: &self.globals,
            abi: self.code.abi,
        };
        let ghost scene = s;
        proof {
            assert(scene == old(self).scene());
            scene.lemma_at(a, src);
        }
        let v = share(&mut self.heap, s.get(src))?;
        let ghost one = self.heap.record();
        self.made = Ghost(one);
        proof {
            lemma_pop_frame(self.frames@, self.regs@.len() as int);
        }
        self.frames.truncate(n - 1);
        proof {
            assert(self.frames@ =~= old(self).frames@.drop_last());
            assert(self.frames@ =~= old(self).frames@.take(n - 1));
        }
        let ghost rest = self.kept().add(handles(envs(self.frames@))).add(
            handle(env),
        ).add(handle(v));
        proof {
            assert(one.ext =~= rest.add(handles(self.regs@)));
        }
        leave(&mut self.heap, &mut self.regs, base, Ghost(rest));
        let ghost two = self.heap.record();
        proof {
            assert(handle(env).subset_of(two.ext));
            assert forall|k: int| 0 <= k < self.regs@.len() implies (#[trigger] self.regs@[k]).ok() by {
                assert(old(self).regs@[k].ok());
            }
        }
        give_up(&mut self.heap, env);
        let ghost three = self.heap.record();
        proof {
            lemma_thinned_then(one, two, three);
            assert(three.ext =~= self.held().add(handle(v)));
        }
        match ret_to {
            Some(dst) => {
                if n > 1 {
                    let caller = self.frames[n - 2].base;
                    let ghost others = self.kept().add(handles(envs(self.frames@)));
                    proof {
                        assert(three.ext =~= others.add(handles(self.regs@)).add(handle(v)));
                    }
                    let size: usize = self.regs.len();
                    proof {
                        assert(size == self.regs@.len());
                    }
                    put(
                        &mut self.heap,
                        &mut self.regs,
                        index_of(caller, dst),
                        v,
                        Ghost(others),
                    );
                    proof {
                        lemma_thinned_then(one, three, self.heap.record());
                        assert(self.heap.record().ext =~= self.held());
                    }
                    return Ok(Event::Going);
                }
            },
            None => {},
        }
        Ok(Event::Returned(v))
    }

    /// Set a global to the value of a register.
    fn do_global(&mut self, slot: GlobalSlot, src: Reg) -> (r: Result<Event, Stop>)
        requires
            poised(*old(self)),
        ensures
            final(self).code == old(self).code,
            match r {
                Ok(ev) => {
                    &&& ev == Event::Going
                    &&& final(self).wf()
                    &&& final(self).waiting == old(self).waiting
                    &&& final(self).frames@ == with_pc(old(self).frames@, old(self).top().pc + 1)
                    &&& final(self).regs@ == old(self).regs@
                    &&& final(self).last == old(self).last
                    &&& final(self).globals@ == set_at(
                        old(self).globals@,
                        slot.0 as int,
                        old(self).scene().at(src),
                    )
                    &&& heap_moved(*old(self), *final(self))
                },
                Err(e) => e == Stop::HeapFull && spent(*old(self), *final(self)),
            },
    {
        let ghost a = self.heap.record();
        let n: usize = self.frames.len();
        let base = self.frames[n - 1].base;
        let env = self.frames[n - 1].env;
        let pc = self.frames[n - 1].pc;
        proof {
            lemma_scene(*self);
        }
        let s = Scene {
            regs: &self.regs,
            base,
            env,
            globals: &self.globals,
            abi: self.code.abi,
        };
        let ghost scene = s;
        proof {
            assert(scene == old(self).scene());
            scene.lemma_at(a, src);
        }
        let v = share(&mut self.heap, s.get(src))?;
        let ghost one = self.heap.record();
        self.made = Ghost(one);
        let ghost rest = handles(envs(self.frames@)).add(handles(self.regs@)).add(
            handle(self.last),
        );
        proof {
            assert(one.ext =~= rest.add(handles(self.globals@)).add(handle(v)));
            lemma_with_pc(self.frames@, pc + 1, self.regs@.len() as int);
        }
        put(&mut self.heap, &mut self.globals, slot.0 as usize, v, Ghost(rest));
        self.frames[n - 1].pc = pc + 1;
        proof {
            assert(self.frames@ =~= with_pc(old(self).frames@, pc + 1));
            assert(self.heap.record().ext =~= self.held());
        }
        Ok(Event::Going)
    }

    /// Give up a register's value.
    fn do_drop(&mut self, reg: Reg)
        requires
            poised(*old(self)),
        ensures
            final(self).code == old(self).code,
            final(self).wf(),
            wrote(*old(self), *final(self), reg, nil_value()),
    {
        let nil = Value { bits: 0xFFFA_0000_0000_0000 };
        proof {
            assert(self.heap.record().ext =~= self.held().add(handle(nil)));
        }
        self.write(reg, nil);
    }

    /// The text of a string is itself; of another value it is asked for.
    fn do_text(&mut self, dst: Reg, src: Reg) -> (r: Result<Event, Stop>)
        requires
            poised(*old(self)),
        ensures
            final(self).code == old(self).code,
            match r {
                Ok(ev) => {
                    let v = old(self).scene().at(src);
                    &&& final(self).wf()
                    &&& if kind_of(old(self).heap.record(), v) == Some(Kind::String) {
                        ev == Event::Going && wrote(*old(self), *final(self), dst, v)
                    } else {
                        ev == Event::Show(v) && asked(
                            *old(self),
                            *final(self),
                            Wait::Text { dst },
                        )
                    }
                },
                Err(e) => e == Stop::HeapFull && spent(*old(self), *final(self)),
            },
    {
        let ghost a = self.heap.record();
        let v = self.read(src);
        if is_string(&self.heap, v) {
            let v = share(&mut self.heap, v)?;
            proof {
                assert(self.heap.record().ext =~= self.held().add(handle(v)));
            }
            self.write(dst, v);
            Ok(Event::Going)
        } else {
            self.ask(Wait::Text { dst });
            Ok(Event::Show(v))
        }
    }

    /// The value in a register of the last frame.
    fn read(&self, r: Reg) -> (v: Value)
        requires
            self.wf(),
            self.frames@.len() > 0,
        ensures
            v == self.scene().at(r),
            v.ok(),
            live(self.heap.record(), v),
    {
        let n: usize = self.frames.len();
        proof {
            lemma_scene(*self);
            self.scene().lemma_at(self.heap.record(), r);
        }
        let s = Scene {
            regs: &self.regs,
            base: self.frames[n - 1].base,
            env: self.frames[n - 1].env,
            globals: &self.globals,
            abi: self.code.abi,
        };
        s.get(r)
    }
}

/// An instruction that does more than compute.
pub open spec fn control(i: Instr) -> bool {
    match i {
        Instr::SetGlobal { .. } => true,
        Instr::Println { .. } => true,
        Instr::ToString { .. } => true,
        Instr::Drop { .. } => true,
        Instr::Call { .. } => true,
        Instr::CallSelf { .. } => true,
        Instr::CallValue { .. } => true,
        Instr::TailCall { .. } => true,
        Instr::TailCallSelf { .. } => true,
        Instr::TailCallValue { .. } => true,
        Instr::Ret { .. } => true,
        Instr::Jump { .. } => true,
        Instr::JumpIfFalse { .. } => true,
        Instr::JumpUnlessVariant { .. } => true,
        Instr::JumpUnlessInt { .. } => true,
        Instr::JumpUnlessStr { .. } => true,
        Instr::Bad { .. } => true,
        Instr::Builtin { dst, intrinsic, args } => intrinsic is StringInspect && args@.len() == 1,
        _ => false,
    }
}

proof fn lemma_control(i: Instr)
    ensures
        computes(i) == !control(i),
{
    reveal(computes);
}

proof fn lemma_computed(a: Machine, b: Machine, r: Result<Event, Stop>)
    requires
        poised(a),
        computes(a.instr()),
        b.code == a.code,
        match r {
            Ok(ev) => {
                let at = a.top().base + target(a.instr()).0;
                &&& ev == Event::Going
                &&& stops(a.instr(), a.scene(), a.heap.record()) is None
                &&& b.wf()
                &&& wrote(a, b, target(a.instr()), value_at(b.regs@, at))
                &&& at < a.regs@.len() ==> gives(
                    a.instr(),
                    a.scene(),
                    a.heap.record(),
                    b.made@,
                    b.regs@[at],
                )
            },
            Err(e) => e == Stop::HeapFull && spent(a, b) || stops(
                a.instr(),
                a.scene(),
                a.heap.record(),
            ) == Some(e),
        },
    ensures
        outcome(a, b, r),
{
    reveal(stepped);
    reveal(stop_of);
}

proof fn lemma_jumped(a: Machine, b: Machine, r: Result<Event, Stop>)
    requires
        poised(a),
        control(a.instr()),
        jumps(a) is Some,
        b.code == a.code,
        match r {
            Ok(ev) => {
                &&& ev == Event::Going
                &&& no_branch(a.instr(), a.scene()) is None
                &&& b.wf()
                &&& moved_to(a, b, jumps(a)->Some_0)
            },
            Err(e) => no_branch(a.instr(), a.scene()) == Some(e),
        },
    ensures
        outcome(a, b, r),
{
    lemma_control(a.instr());
    reveal(stepped);
    reveal(stop_of);
    reveal(jumps);
}

impl<'c> Machine<'c> {
    /// Run a call that takes a frame of its own.
    fn do_any_call(&mut self, i: &'c Instr) -> (r: Result<Event, Stop>)
        requires
            poised(*old(self)),
            old(self).instr() == *i,
            *i is Call || *i is CallSelf || *i is CallValue,
        ensures
            outcome(*old(self), *final(self), r),
    {
        proof {
            lemma_control(*i);
            reveal(stepped);
            reveal(stop_of);
            reveal(jumps);
        }
        match i {
            Instr::Call { dst, func, args } => {
                let body = body_at(self.code, *func)?;
                self.do_call(*dst, body, args, Value { bits: 0xFFFA_0000_0000_0000 })
            },
            Instr::CallSelf { dst, args } => {
                let n: usize = self.frames.len();
                let body = self.frames[n - 1].body;
                let env = self.frames[n - 1].env;
                proof {
                    lemma_scene(*self);
                }
                self.do_call(*dst, body, args, env)
            },
            Instr::CallValue { dst, callee: c, args } => {
                let env = self.read(*c);
                let body = callee(&self.heap, self.code, env, args.len())?;
                self.do_call(*dst, body, args, env)
            },
            _ => vstd::pervasive::unreached(),
        }
    }

    /// Run a call whose callee takes over the last frame, so that a loop
    /// written as tail recursion runs in constant space.
    fn do_any_tail(&mut self, i: &'c Instr) -> (r: Result<Event, Stop>)
        requires
            poised(*old(self)),
            old(self).instr() == *i,
            *i is TailCall || *i is TailCallSelf || *i is TailCallValue,
        ensures
            outcome(*old(self), *final(self), r),
    {
        proof {
            lemma_control(*i);
            reveal(stepped);
            reveal(stop_of);
            reveal(jumps);
        }
        match i {
            Instr::TailCall { func, args } => {
                let body = body_at(self.code, *func)?;
                self.do_tail(body, args, Value { bits: 0xFFFA_0000_0000_0000 })
            },
            Instr::TailCallSelf { args } => {
                let n: usize = self.frames.len();
                let body = self.frames[n - 1].body;
                let env = self.frames[n - 1].env;
                proof {
                    lemma_scene(*self);
                }
                self.do_tail(body, args, env)
            },
            Instr::TailCallValue { callee: c, args } => {
                let env = self.read(*c);
                let body = callee(&self.heap, self.code, env, args.len())?;
                self.do_tail(body, args, env)
            },
            _ => vstd::pervasive::unreached(),
        }
    }

    /// Run an instruction that neither computes, jumps nor calls.
    fn do_other(&mut self, i: &'c Instr) -> (r: Result<Event, Stop>)
        requires
            poised(*old(self)),
            old(self).instr() == *i,
            control(*i),
            *i is SetGlobal || *i is Println || *i is ToString || *i is Drop || *i is Ret || *i is Bad
                || *i is Builtin,
        ensures
            outcome(*old(self), *final(self), r),
    {
        proof {
            lemma_control(*i);
            reveal(stepped);
            reveal(stop_of);
            reveal(jumps);
        }
        match i {
            Instr::SetGlobal { slot, src } => self.do_global(*slot, *src),
            Instr::Println { dst, arg } => {
                let v = self.read(*arg);
                self.ask(Wait::Printed { dst: *dst });
                Ok(Event::Print(v))
            },
            Instr::ToString { dst, a } => self.do_text(*dst, *a),
            Instr::Drop { reg } => {
                self.do_drop(*reg);
                Ok(Event::Going)
            },
            Instr::Ret { src } => self.do_return(*src),
            Instr::Bad { why } => Err(Stop::BadProgram(Fault::Broken(*why))),
            Instr::Builtin { dst, args, .. } => {
                let v = self.read(args[0]);
                self.ask(Wait::Text { dst: *dst });
                Ok(Event::Show(v))
            },
            _ => vstd::pervasive::unreached(),
        }
    }

    /// Run the next instruction.
    pub fn step(&mut self) -> (r: Result<Event, Stop>)
        requires
            old(self).wf(),
            old(self).frames@.len() > 0,
            old(self).waiting is None,
        ensures
            outcome(*old(self), *final(self), r),
    {
        let n: usize = self.frames.len();
        let body: &'c Body = self.frames[n - 1].body;
        let pc = self.frames[n - 1].pc;
        if pc >= body.instrs.len() {
            proof {
                reveal(stop_of);
            }
            return Err(Stop::BadProgram(Fault::RanPast));
        }
        let i: &'c Instr = &body.instrs[pc];
        proof {
            lemma_control(*i);
        }
        match i {
            Instr::Call { .. } | Instr::CallSelf { .. } | Instr::CallValue { .. } => self.do_any_call(i),
            Instr::TailCall { .. }
            | Instr::TailCallSelf { .. }
            | Instr::TailCallValue { .. } => self.do_any_tail(i),
            Instr::Jump { .. }
            | Instr::JumpIfFalse { .. }
            | Instr::JumpUnlessVariant { .. }
            | Instr::JumpUnlessInt { .. }
            | Instr::JumpUnlessStr { .. } => {
                proof {
                    reveal(jumps);
                }
                let r = self.do_jump(i);
                proof {
                    lemma_jumped(*old(self), *self, r);
                }
                r
            },
            Instr::SetGlobal { .. }
            | Instr::Println { .. }
            | Instr::ToString { .. }
            | Instr::Drop { .. }
            | Instr::Ret { .. }
            | Instr::Bad { .. } => self.do_other(i),
            Instr::Builtin { intrinsic: Intrinsic::StringInspect, args, .. } if args.len() == 1 => {
                self.do_other(i)
            },
            _ => {
                let r = self.do_compute(i);
                proof {
                    lemma_computed(*old(self), *self, r);
                }
                r
            },
        }
    }
}

} // verus!
