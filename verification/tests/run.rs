use scarlet::vm::bigint::{Int, IntOp};
use scarlet::vm::code::{load, Abi, Body, Code, Func};
use scarlet::vm::core_ir::{
    Arm, Atom, Bind, Callee, Const, ConstId, CoreExpr, CoreFn, CorePat, GlobalSlot, Intrinsic, JoinId,
    Load, LocalId, LoweredFn, PrimOp, Program,
};
use scarlet::vm::exec::{Event, Machine};
use scarlet::vm::instr::{Broken, Instr, Reg};
use scarlet::vm::record::Kind;
use scarlet::vm::scene::{Fault, Stop};
use scarlet::type_def::TypeId;
use scarlet::vm::value::{FuncIdx, Value, VariantRef, View};

fn variant(type_id: i32, variant_idx: u16) -> VariantRef {
    VariantRef { type_id: TypeId(type_id), variant_idx }
}

const CONS: VariantRef = VariantRef { type_id: TypeId(50), variant_idx: 0 };
const END: VariantRef = VariantRef { type_id: TypeId(50), variant_idx: 1 };
const BOX: VariantRef = VariantRef { type_id: TypeId(51), variant_idx: 0 };

fn abi() -> Abi {
    Abi { ok: variant(1, 0), err: variant(1, 1), some: variant(2, 0), none: variant(2, 1) }
}

fn r(i: u32) -> Reg {
    Reg(i)
}

fn rs(is: &[u32]) -> Vec<Reg> {
    is.iter().map(|&i| Reg(i)).collect()
}

fn small(n: i64) -> Value {
    Value::small_int(n).expect("small")
}

fn body(name: &str, regs: u32, params: &[u32], instrs: Vec<Instr>) -> Func {
    Func::Ready(Body { name: name.to_string(), regs, params: rs(params), instrs })
}

fn konst(dst: u32, n: i64) -> Instr {
    Instr::Const { dst: r(dst), value: small(n) }
}

fn nil(dst: u32) -> Instr {
    Instr::Const { dst: r(dst), value: Value::nil() }
}

fn text(dst: u32, s: &str) -> Instr {
    Instr::Str { dst: r(dst), text: s.as_bytes().to_vec() }
}

fn op(dst: u32, op: IntOp, a: u32, b: u32) -> Instr {
    Instr::Int { dst: r(dst), op, a: r(a), b: r(b) }
}

fn to_string(dst: u32, a: u32) -> Instr {
    Instr::ToString { dst: r(dst), a: r(a) }
}

fn concat_of(dst: u32, parts: &[u32]) -> Instr {
    Instr::Concat { dst: r(dst), parts: rs(parts) }
}

fn call(dst: u32, func: u32, args: &[u32]) -> Instr {
    Instr::Call { dst: r(dst), func: FuncIdx(func), args: rs(args) }
}

fn call_value(dst: u32, callee: u32, args: &[u32]) -> Instr {
    Instr::CallValue { dst: r(dst), callee: r(callee), args: rs(args) }
}

fn again(args: &[u32]) -> Instr {
    Instr::TailCallSelf { args: rs(args) }
}

fn println_of(dst: u32, arg: u32) -> Instr {
    Instr::Println { dst: r(dst), arg: r(arg) }
}

fn ret(src: u32) -> Instr {
    Instr::Ret { src: r(src) }
}

fn ctor(dst: u32, variant: VariantRef, fields: &[u32]) -> Instr {
    Instr::Ctor { dst: r(dst), variant, fields: rs(fields) }
}

fn unless(src: u32, variant: VariantRef, to: usize) -> Instr {
    Instr::JumpUnlessVariant { src: r(src), variant, to }
}

fn field(dst: u32, src: u32, index: u16) -> Instr {
    Instr::Field { dst: r(dst), src: r(src), index }
}

fn bad() -> Instr {
    Instr::Bad { why: Broken::NoArm }
}

fn empty_toplevel() -> Func {
    body("m.top", 1, &[], vec![nil(0), ret(0)])
}

/// A program whose last function is `main`.
fn program(fns: Vec<Func>) -> Code {
    let main = Some(FuncIdx(fns.len() as u32 - 1));
    Code { fns, toplevels: vec![empty_toplevel()], main, globals: 0, abi: abi() }
}

fn show(m: &Machine, v: Value) -> String {
    match v.view() {
        View::Int(n) => n.to_string(),
        View::Bool(b) => if b { "True".to_string() } else { "False".to_string() },
        View::Nil => "nil".to_string(),
        View::Cell(c) => match m.heap.kind(c) {
            Kind::String => {
                let mut out = Vec::new();
                m.heap.read_string(c, &mut out);
                String::from_utf8(out).expect("UTF-8")
            }
            Kind::BigInt => Int::Big(m.heap.read_big_int(c)).text(),
            other => panic!("no text for {other:?}"),
        },
        other => panic!("no text for {other:?}"),
    }
}

/// Run until the program stops or ends. What it printed, what it held at the
/// end, and why it stopped.
fn run(code: &Code) -> (String, Option<u64>, Option<Stop>) {
    let mut m = Machine::new(code);
    let mut out = String::new();
    let mut k = 0;
    loop {
        match m.start(k) {
            Ok(true) => {}
            Ok(false) => break,
            Err(stop) => return (out, None, Some(stop)),
        }
        loop {
            match m.resume(1000) {
                Ok(Event::Going) => {}
                Ok(Event::Print(v)) => {
                    out.push_str(&show(&m, v));
                    out.push('\n');
                    m.printed();
                }
                Ok(Event::Show(v)) => {
                    let text = show(&m, v);
                    m.shown(text.as_bytes()).expect("room");
                }
                Ok(Event::Returned(v)) => {
                    m.keep(v);
                    break;
                }
                Err(stop) => return (out, None, Some(stop)),
            }
        }
        k += 1;
    }
    let last = m.take_last();
    m.release(last);
    m.release_globals();
    assert!(m.regs.is_empty(), "a frame's registers outlived it");
    assert!(m.frames.is_empty());
    (out, Some(m.heap.live()), None)
}

/// Run a program that ends, then give up everything a finished run still holds.
/// What is left is what reference counting lost.
fn cells_left_after(code: &Code) -> (String, u64) {
    let (out, left, stop) = run(code);
    assert_eq!(stop, None);
    (out, left.expect("it ended"))
}

fn stop_of(regs: u32, instrs: Vec<Instr>) -> Option<Stop> {
    run(&program(vec![body("m.main", regs, &[], instrs)])).2
}

/// `greet(name)`: 'hello, ${name}'.
fn greet() -> Func {
    body("m.greet", 4, &[0], vec![text(1, "hello, "), to_string(2, 0), concat_of(3, &[1, 2]), ret(3)])
}

#[test]
fn strings_made_and_joined_are_all_freed() {
    let main = body(
        "m.main",
        14,
        &[],
        vec![
            text(0, "world"),
            call(1, 0, &[0]),
            println_of(2, 1),
            konst(3, 1),
            konst(4, 1),
            op(5, IntOp::Add, 3, 4),
            to_string(6, 5),
            text(7, " and "),
            text(8, "you"),
            call(9, 0, &[8]),
            to_string(10, 9),
            concat_of(11, &[6, 7, 10]),
            println_of(12, 11),
            nil(13),
            ret(13),
        ],
    );
    let (out, left) = cells_left_after(&program(vec![greet(), main]));
    assert_eq!(out, "hello, world\n2 and hello, you\n");
    assert_eq!(left, 0);
}

/// Each step makes a string and drops the last one. If a step leaked, the heap
/// would hold 10,000 cells at the end.
#[test]
fn a_loop_that_makes_strings_does_not_keep_them() {
    let spin = body(
        "m.spin",
        7,
        &[0, 1],
        vec![
            konst(2, 0),
            op(3, IntOp::Eq, 0, 2),
            Instr::JumpIfFalse { cond: r(3), to: 4 },
            ret(1),
            konst(4, 1),
            op(5, IntOp::Sub, 0, 4),
            to_string(6, 0),
            again(&[5, 6]),
        ],
    );
    let main = body(
        "m.main",
        4,
        &[],
        vec![konst(0, 10000), text(1, "start"), call(2, 0, &[0, 1]), println_of(3, 2), ret(3)],
    );
    let (out, left) = cells_left_after(&program(vec![spin, main]));
    assert_eq!(out, "1\n");
    assert_eq!(left, 0);
}

/// Each step makes a bigger big int and drops the last, and printing one makes
/// and frees its text.
#[test]
fn big_ints_made_in_a_loop_are_all_freed() {
    let grow = body(
        "m.grow",
        8,
        &[0, 1],
        vec![
            konst(2, 0),
            op(3, IntOp::Eq, 0, 2),
            Instr::JumpIfFalse { cond: r(3), to: 4 },
            ret(1),
            konst(4, 1),
            op(5, IntOp::Sub, 0, 4),
            konst(6, 3),
            op(7, IntOp::Mul, 1, 6),
            again(&[5, 7]),
        ],
    );
    let main = body(
        "m.main",
        9,
        &[],
        vec![
            konst(0, 200),
            konst(1, 1),
            call(2, 0, &[0, 1]),
            op(3, IntOp::Gt, 2, 1),
            println_of(4, 3),
            op(5, IntOp::Div, 2, 2),
            to_string(6, 5),
            println_of(7, 6),
            nil(8),
            ret(8),
        ],
    );
    let (out, left) = cells_left_after(&program(vec![grow, main]));
    assert_eq!(out, "True\n1\n");
    assert_eq!(left, 0);
}

/// `build(n, acc)`: the list of the texts of 1 to `n`, before `acc`.
fn build_list() -> Func {
    body(
        "m.build",
        8,
        &[0, 1],
        vec![
            konst(2, 0),
            op(3, IntOp::Eq, 0, 2),
            Instr::JumpIfFalse { cond: r(3), to: 4 },
            ret(1),
            konst(4, 1),
            op(5, IntOp::Sub, 0, 4),
            to_string(6, 0),
            ctor(7, CONS, &[6, 1]),
            again(&[5, 7]),
        ],
    )
}

/// A match's arms read fields out of the value they match, and each field read
/// holds its own reference: walking, rebuilding and dropping lists of strings
/// leaves nothing behind.
#[test]
fn what_a_match_reads_out_is_all_freed() {
    let rev = body(
        "m.rev",
        5,
        &[0, 1],
        vec![
            unless(0, CONS, 5),
            field(2, 0, 0),
            field(3, 0, 1),
            ctor(4, CONS, &[2, 1]),
            again(&[3, 4]),
            unless(0, END, 7),
            ret(1),
            bad(),
        ],
    );
    let first = body(
        "m.first",
        3,
        &[0],
        vec![
            unless(0, CONS, 3),
            field(1, 0, 0),
            ret(1),
            unless(0, END, 6),
            text(2, "empty"),
            ret(2),
            bad(),
        ],
    );
    let main = body(
        "m.main",
        10,
        &[],
        vec![
            konst(0, 1000),
            Instr::Const { dst: r(1), value: Value::nullary(END) },
            call(2, 0, &[0, 1]),
            call(3, 1, &[2, 1]),
            call(4, 2, &[3]),
            println_of(5, 4),
            call(6, 2, &[2]),
            println_of(7, 6),
            call(8, 2, &[1]),
            println_of(9, 8),
            ret(9),
        ],
    );
    let (out, left) = cells_left_after(&program(vec![build_list(), rev, first, main]));
    assert_eq!(out, "1000\n1\nempty\n");
    assert_eq!(left, 0);
}

/// A closure holds its captures, and each call to it holds the closure: closures
/// made in a loop, returned, called and dropped leave nothing.
#[test]
fn closures_and_their_captures_are_all_freed() {
    let greeter = body(
        "m.greeter",
        3,
        &[0],
        vec![
            ctor(1, BOX, &[0]),
            Instr::Closure { dst: r(2), func: FuncIdx(1), captures: rs(&[1]) },
            ret(2),
        ],
    );
    let inner = body(
        "m.greeter.fn",
        7,
        &[0],
        vec![
            Instr::GetCapture { dst: r(1), index: 0 },
            unless(1, BOX, 8),
            field(2, 1, 0),
            to_string(3, 0),
            text(4, ", "),
            to_string(5, 2),
            concat_of(6, &[3, 4, 5]),
            ret(6),
            bad(),
        ],
    );
    let spin = body(
        "m.spin",
        9,
        &[0, 1],
        vec![
            konst(2, 0),
            op(3, IntOp::Eq, 0, 2),
            Instr::JumpIfFalse { cond: r(3), to: 5 },
            text(4, "bye"),
            Instr::TailCallValue { callee: r(1), args: rs(&[4]) },
            konst(5, 1),
            op(6, IntOp::Sub, 0, 5),
            to_string(7, 0),
            call(8, 0, &[7]),
            again(&[6, 8]),
        ],
    );
    let go = body(
        "m.main.go",
        6,
        &[0],
        vec![
            konst(1, 0),
            op(2, IntOp::Eq, 0, 1),
            Instr::JumpIfFalse { cond: r(2), to: 5 },
            Instr::GetCapture { dst: r(3), index: 0 },
            ret(3),
            konst(4, 1),
            op(5, IntOp::Sub, 0, 4),
            again(&[5]),
        ],
    );
    let main = body(
        "m.main",
        15,
        &[],
        vec![
            text(0, "you"),
            call(1, 0, &[0]),
            text(2, "hi"),
            call_value(3, 1, &[2]),
            println_of(4, 3),
            konst(5, 1000),
            text(6, "start"),
            call(7, 0, &[6]),
            call(8, 2, &[5, 7]),
            println_of(9, 8),
            text(10, "kept"),
            Instr::Closure { dst: r(11), func: FuncIdx(3), captures: rs(&[10]) },
            konst(12, 100),
            call_value(13, 11, &[12]),
            println_of(14, 13),
            ret(14),
        ],
    );
    let (out, left) = cells_left_after(&program(vec![greeter, inner, spin, go, main]));
    assert_eq!(out, "hi, you\nbye, 1\nkept\n");
    assert_eq!(left, 0);
}

/// `count(xs, n)`: `n` and the length of `xs`, one element at a time.
fn count() -> Func {
    body(
        "m.count",
        8,
        &[0, 1],
        vec![
            Instr::ArrayLen { dst: r(2), src: r(0) },
            konst(3, 0),
            op(4, IntOp::Eq, 2, 3),
            Instr::JumpIfFalse { cond: r(4), to: 5 },
            ret(1),
            konst(5, 1),
            Instr::ArrayDrop { dst: r(6), src: r(0), n: r(5) },
            op(7, IntOp::Add, 1, 5),
            again(&[6, 7]),
        ],
    )
}

/// An array shares its nodes with the arrays it was made from. Building arrays of
/// strings at both ends, walking them, joining them and keeping old versions
/// around leaves nothing once they are all dropped.
#[test]
fn arrays_and_what_they_share_are_all_freed() {
    let grow = |name: &str, step: Instr| {
        body(
            name,
            8,
            &[0, 1],
            vec![
                konst(2, 0),
                op(3, IntOp::Eq, 0, 2),
                Instr::JumpIfFalse { cond: r(3), to: 4 },
                ret(1),
                konst(4, 1),
                op(5, IntOp::Sub, 0, 4),
                to_string(6, 0),
                step,
                again(&[5, 7]),
            ],
        )
    };
    let build = grow("m.build", Instr::ArrayAppend { dst: r(7), rest: r(1), back: rs(&[6]) });
    let front = grow("m.front", Instr::ArrayPrepend { dst: r(7), front: rs(&[6]), rest: r(1) });
    let main = body(
        "m.main",
        16,
        &[],
        vec![
            konst(0, 2000),
            Instr::Array { dst: r(1), elements: vec![] },
            call(2, 0, &[0, 1]),
            call(3, 1, &[0, 2]),
            Instr::ArrayConcat { dst: r(4), a: r(3), b: r(2) },
            konst(5, 0),
            call(6, 2, &[4, 5]),
            println_of(7, 6),
            text(8, "?"),
            Instr::ArrayIndexOr { dst: r(9), src: r(4), index: r(5), default: r(8) },
            println_of(10, 9),
            Instr::ArrayIndexOr { dst: r(11), src: r(2), index: r(5), default: r(8) },
            println_of(12, 11),
            Instr::ArrayConcat { dst: r(13), a: r(2), b: r(1) },
            call(14, 2, &[13, 5]),
            println_of(15, 14),
            ret(15),
        ],
    );
    let (out, left) = cells_left_after(&program(vec![build, front, count(), main]));
    assert_eq!(out, "6000\n1\n2000\n2000\n");
    assert_eq!(left, 0);
}

/// A range holds no references, and one built into an array, big ints and all,
/// is freed like any array.
#[test]
fn ranges_and_what_is_made_of_them_are_freed() {
    let main = body(
        "m.main",
        20,
        &[],
        vec![
            konst(0, 0),
            konst(1, 1000),
            Instr::Range { dst: r(2), start: r(0), end: r(1) },
            konst(3, 5),
            Instr::ArrayAppend { dst: r(4), rest: r(2), back: rs(&[3]) },
            call(5, 0, &[4, 0]),
            println_of(6, 5),
            Instr::BigInt { dst: r(7), n: 9223372036854775000 },
            Instr::BigInt { dst: r(8), n: 9223372036854775007 },
            Instr::Range { dst: r(9), start: r(7), end: r(8) },
            Instr::ArrayConcat { dst: r(10), a: r(9), b: r(2) },
            call(11, 0, &[10, 0]),
            println_of(12, 11),
            konst(13, 3),
            Instr::ArraySlice { dst: r(14), src: r(2), start: r(0), end: r(13) },
            unless(14, variant(1, 0), 19),
            field(15, 14, 0),
            call(16, 0, &[15, 0]),
            println_of(17, 16),
            call(18, 0, &[2, 0]),
            println_of(19, 18),
            ret(19),
        ],
    );
    let (out, left) = cells_left_after(&program(vec![count(), main]));
    assert_eq!(out, "1001\n1007\n3\n1000\n");
    assert_eq!(left, 0);
}

/// A tuple holds references to its elements, and reading one out takes its own.
#[test]
fn tuples_and_what_is_read_from_them_are_freed() {
    let main = body(
        "m.main",
        7,
        &[],
        vec![
            text(0, "first"),
            text(1, "second"),
            Instr::Tuple { dst: r(2), elements: rs(&[0, 1]) },
            Instr::Element { dst: r(3), src: r(2), index: 1 },
            Instr::Drop { reg: r(2) },
            println_of(4, 3),
            Instr::Equal { dst: r(5), a: r(3), b: r(1) },
            println_of(6, 5),
            ret(6),
        ],
    );
    let (out, left) = cells_left_after(&program(vec![main]));
    assert_eq!(out, "second\nTrue\n");
    assert_eq!(left, 0);
}

/// A string held in a global lives until the run ends, and no longer.
#[test]
fn a_string_in_a_global_is_freed_with_the_globals() {
    let top = body(
        "m.top",
        2,
        &[],
        vec![
            text(0, "hi"),
            Instr::SetGlobal { slot: GlobalSlot(0), src: r(0) },
            nil(1),
            ret(1),
        ],
    );
    let main = body(
        "m.main",
        4,
        &[],
        vec![
            Instr::GetGlobal { dst: r(0), slot: GlobalSlot(0) },
            println_of(1, 0),
            Instr::GetGlobal { dst: r(2), slot: GlobalSlot(0) },
            println_of(3, 2),
            ret(3),
        ],
    );
    let code = Code {
        fns: vec![main],
        toplevels: vec![top],
        main: Some(FuncIdx(0)),
        globals: 1,
        abi: abi(),
    };
    let (out, left) = cells_left_after(&code);
    assert_eq!(out, "hi\nhi\n");
    assert_eq!(left, 0);
}

#[test]
fn each_broken_promise_stops_the_run() {
    let bad_program = |f: Fault| Some(Stop::BadProgram(f));
    let not_yet = |f: Fault| Some(Stop::NotBuiltYet(f));
    let n = || konst(0, 7);
    assert_eq!(stop_of(1, vec![]), bad_program(Fault::RanPast));
    assert_eq!(stop_of(1, vec![bad()]), bad_program(Fault::Broken(Broken::NoArm)));
    assert_eq!(
        stop_of(2, vec![Instr::GetCapture { dst: r(0), index: 3 }]),
        bad_program(Fault::NoCapture(3))
    );
    assert_eq!(stop_of(2, vec![n(), field(1, 0, 2)]), bad_program(Fault::NoField(2)));
    assert_eq!(
        stop_of(2, vec![n(), Instr::Element { dst: r(1), src: r(0), index: 4 }]),
        bad_program(Fault::NoElement(4))
    );
    assert_eq!(
        stop_of(
            2,
            vec![
                Instr::Array { dst: r(0), elements: vec![] },
                Instr::ArrayElem { dst: r(1), src: r(0), index: 0 },
            ]
        ),
        bad_program(Fault::NoItem(0))
    );
    assert_eq!(
        stop_of(2, vec![n(), Instr::ArrayLen { dst: r(1), src: r(0) }]),
        bad_program(Fault::NotAnArray(small(7)))
    );
    assert_eq!(
        stop_of(2, vec![nil(0), Instr::Range { dst: r(1), start: r(0), end: r(0) }]),
        bad_program(Fault::RangeEnd(Value::nil()))
    );
    assert_eq!(
        stop_of(
            3,
            vec![
                Instr::Array { dst: r(0), elements: vec![] },
                nil(1),
                Instr::ArrayIndex { dst: r(2), src: r(0), index: r(1) },
            ]
        ),
        bad_program(Fault::Position(Value::nil()))
    );
    assert_eq!(
        stop_of(
            3,
            vec![
                Instr::Array { dst: r(0), elements: vec![] },
                konst(1, -1),
                Instr::ArrayDrop { dst: r(2), src: r(0), n: r(1) },
            ]
        ),
        bad_program(Fault::DropCount(small(-1)))
    );
    assert_eq!(
        stop_of(2, vec![n(), Instr::Not { dst: r(1), a: r(0) }]),
        bad_program(Fault::NotABool(small(7)))
    );
    assert_eq!(
        stop_of(2, vec![n(), call_value(1, 0, &[])]),
        bad_program(Fault::NotAFunction(small(7)))
    );
    assert_eq!(
        stop_of(
            2,
            vec![
                Instr::Const { dst: r(0), value: Value::func(FuncIdx(0)) },
                call_value(1, 0, &[0]),
            ]
        ),
        bad_program(Fault::Arguments { given: 1, wanted: 0 })
    );
    assert_eq!(
        stop_of(1, vec![call(0, 9, &[])]),
        not_yet(Fault::NoFunction(FuncIdx(9)))
    );
    assert_eq!(
        stop_of(2, vec![n(), concat_of(1, &[0])]),
        not_yet(Fault::Joining(small(7)))
    );
    assert_eq!(
        stop_of(1, vec![n(), Instr::JumpIfFalse { cond: r(0), to: 0 }]),
        not_yet(Fault::BranchOn(small(7)))
    );
    assert_eq!(
        stop_of(2, vec![nil(0), op(1, IntOp::Add, 0, 0)]),
        not_yet(Fault::IntOf(Value::nil()))
    );
    assert_eq!(
        stop_of(
            2,
            vec![n(), Instr::Builtin { dst: r(1), intrinsic: Intrinsic::StringLength, args: vec![] }]
        ),
        bad_program(Fault::BuiltinArgs(0))
    );
    assert_eq!(
        stop_of(
            2,
            vec![
                n(),
                Instr::Builtin { dst: r(1), intrinsic: Intrinsic::StringLength, args: rs(&[0]) },
            ]
        ),
        bad_program(Fault::LengthOf(small(7)))
    );
    assert_eq!(
        stop_of(
            2,
            vec![
                Instr::Str { dst: r(0), text: vec![0xFF] },
                Instr::Builtin { dst: r(1), intrinsic: Intrinsic::StringLength, args: rs(&[0]) },
            ]
        ),
        bad_program(Fault::NotUtf8)
    );
    assert_eq!(
        stop_of(
            2,
            vec![
                n(),
                Instr::Builtin {
                    dst: r(1),
                    intrinsic: Intrinsic::Other("Sleep".to_string()),
                    args: rs(&[0]),
                },
            ]
        ),
        not_yet(Fault::Builtin)
    );
    // The product of two 63-bit numbers is past any range's end.
    assert_eq!(
        stop_of(
            3,
            vec![
                Instr::BigInt { dst: r(0), n: i64::MAX },
                op(1, IntOp::Mul, 0, 0),
                Instr::Range { dst: r(2), start: r(0), end: r(1) },
            ]
        ),
        not_yet(Fault::RangePast64)
    );
}

#[test]
fn built_ins_count_and_show() {
    let main = body(
        "m.main",
        12,
        &[],
        vec![
            text(0, "h\u{e9}llo"),
            Instr::Builtin { dst: r(1), intrinsic: Intrinsic::StringLength, args: rs(&[0]) },
            println_of(2, 1),
            Instr::Array { dst: r(3), elements: rs(&[0, 1]) },
            Instr::Builtin { dst: r(4), intrinsic: Intrinsic::ArrayLength, args: rs(&[3]) },
            println_of(5, 4),
            Instr::BigInt { dst: r(6), n: i64::MAX },
            op(7, IntOp::Mul, 6, 6),
            Instr::Builtin { dst: r(8), intrinsic: Intrinsic::IntToString, args: rs(&[7]) },
            println_of(9, 8),
            Instr::Builtin { dst: r(10), intrinsic: Intrinsic::StringInspect, args: rs(&[1]) },
            println_of(11, 10),
            ret(11),
        ],
    );
    let (out, left) = cells_left_after(&program(vec![main]));
    assert_eq!(out, "5\n2\n85070591730234615847396907784232501249\n5\n");
    assert_eq!(left, 0);
}

#[test]
fn a_program_that_is_not_all_built_runs_until_it_needs_the_rest() {
    let missing = Func::NotBuiltYet("matching a Float".to_string());
    let main = body("m.main", 2, &[], vec![text(0, "so far"), println_of(1, 0), call(0, 0, &[])]);
    let (out, left, stop) = run(&program(vec![missing, main]));
    assert_eq!(out, "so far\n");
    assert_eq!(left, None);
    assert_eq!(stop, Some(Stop::NotBuiltYet(Fault::NotReady(FuncIdx(0)))));

    let code = Code {
        fns: vec![],
        toplevels: vec![Func::NotBuiltYet("closures that capture".to_string())],
        main: None,
        globals: 0,
        abi: abi(),
    };
    assert_eq!(run(&code).2, Some(Stop::NotBuiltYet(Fault::ToplevelNotReady(0))));
}

fn local(i: u32) -> LocalId {
    LocalId(i)
}

fn bind(i: u32) -> Bind {
    Bind { id: LocalId(i), global: None }
}

fn let_of(i: u32, rhs: Atom, body: CoreExpr) -> CoreExpr {
    CoreExpr::Let { bind: bind(i), rhs, body: Box::new(body) }
}

fn prim(op: PrimOp, args: &[u32]) -> Atom {
    Atom::PrimOp { op, args: args.iter().map(|&i| LocalId(i)).collect() }
}

fn print_of(i: u32) -> Atom {
    Atom::Intrinsic { intrinsic: Intrinsic::Println, args: vec![LocalId(i)] }
}

fn lowered(name: &str, params: &[u32], body: CoreExpr) -> LoweredFn {
    LoweredFn {
        module: "m".to_string(),
        name: name.to_string(),
        core: CoreFn { params: params.iter().map(|&i| LocalId(i)).collect(), body },
    }
}

fn core_program(fns: Vec<LoweredFn>, toplevel: CoreExpr, consts: Vec<Const>) -> Program {
    Program {
        fns,
        inits: vec![],
        toplevel: lowered("top", &[], toplevel),
        main: None,
        globals: 1,
        consts,
    }
}

fn instrs(f: &Func) -> &Vec<Instr> {
    match f {
        Func::Ready(b) => &b.instrs,
        Func::NotBuiltYet(what) => panic!("not built: {what}"),
    }
}

/// A branch: the condition's jump goes past the first arm, to the second.
#[test]
fn a_branch_jumps_past_the_arm_it_does_not_take() {
    let e = CoreExpr::If {
        cond: local(0),
        then: Box::new(CoreExpr::Tail(Atom::Local(local(0)))),
        els: Box::new(CoreExpr::Tail(Atom::Nil)),
    };
    let program = core_program(vec![lowered("f", &[0], e)], CoreExpr::Tail(Atom::Nil), vec![]);
    let code = load(&program, abi());
    let got = instrs(&code.fns[0]);
    assert_eq!(got.len(), 5);
    assert!(matches!(got[0], Instr::JumpIfFalse { cond: Reg(0), to: 3 }));
    assert!(matches!(got[1], Instr::Move { dst: Reg(1), src: Reg(0) }));
    assert!(matches!(got[2], Instr::Ret { src: Reg(1) }));
    assert!(matches!(got[3], Instr::Const { dst: Reg(2), .. }));
    assert!(matches!(got[4], Instr::Ret { src: Reg(2) }));
    match &code.fns[0] {
        Func::Ready(b) => {
            assert_eq!(b.name, "m.f");
            assert_eq!(b.regs, 3);
        }
        Func::NotBuiltYet(_) => unreachable!(),
    }
}

/// `sum(n, acc)` as a loop, a `match` on its result, a shared case and a global.
#[test]
fn a_core_program_loads_and_runs() {
    let sum = lowered(
        "sum",
        &[0, 1],
        let_of(
            2,
            Atom::Const(ConstId(0)),
            let_of(
                3,
                prim(PrimOp::IntEq, &[0, 2]),
                CoreExpr::If {
                    cond: local(3),
                    then: Box::new(CoreExpr::Tail(Atom::Local(local(1)))),
                    els: Box::new(let_of(
                        4,
                        Atom::Const(ConstId(1)),
                        let_of(
                            5,
                            prim(PrimOp::IntSub, &[0, 4]),
                            let_of(
                                6,
                                prim(PrimOp::IntAdd, &[1, 0]),
                                CoreExpr::Tail(Atom::Call {
                                    callee: Callee::Itself,
                                    args: vec![local(5), local(6)],
                                }),
                            ),
                        ),
                    )),
                },
            ),
        ),
    );
    let arms = vec![
        Arm { pat: CorePat::Lit(ConstId(1)), body: CoreExpr::Goto(JoinId(0)) },
        Arm {
            pat: CorePat::Bind(bind(4)),
            body: let_of(5, print_of(4), CoreExpr::Tail(Atom::Local(local(5)))),
        },
    ];
    let toplevel = let_of(
        0,
        Atom::Const(ConstId(2)),
        let_of(
            1,
            Atom::Const(ConstId(0)),
            let_of(
                2,
                Atom::Call { callee: Callee::Known(FuncIdx(0)), args: vec![local(0), local(1)] },
                CoreExpr::LetJoin {
                    bind: Bind { id: local(3), global: Some(GlobalSlot(0)) },
                    join: Box::new(CoreExpr::LetCont {
                        id: JoinId(0),
                        cont: Box::new(CoreExpr::Tail(Atom::Bool(true))),
                        body: Box::new(CoreExpr::Match { scrut: local(2), arms }),
                    }),
                    body: Box::new(let_of(
                        6,
                        Atom::Const(ConstId(3)),
                        let_of(
                            7,
                            prim(PrimOp::ToString, &[2]),
                            let_of(
                                8,
                                prim(PrimOp::StringConcat, &[6, 7]),
                                let_of(9, print_of(8), CoreExpr::Tail(Atom::Local(local(3)))),
                            ),
                        ),
                    )),
                },
            ),
        ),
    );
    let consts = vec![
        Const::Int(0),
        Const::Int(1),
        Const::Int(1000),
        Const::String("sum: ".to_string()),
    ];
    let code = load(&core_program(vec![sum], toplevel, consts), abi());
    let (out, left) = cells_left_after(&code);
    assert_eq!(out, "500500\nsum: 500500\n");
    assert_eq!(left, 0);
}

/// A constructor's match reads its fields, and one that no arm fits stops.
#[test]
fn a_match_with_no_fitting_arm_stops() {
    let toplevel = |v: VariantRef| {
        let_of(
            0,
            Atom::Ctor { variant: v, fields: vec![], reuse: None },
            CoreExpr::Match {
                scrut: local(0),
                arms: vec![Arm {
                    pat: CorePat::Ctor { variant: END, fields: vec![] },
                    body: CoreExpr::Tail(Atom::Nil),
                }],
            },
        )
    };
    let fits = load(&core_program(vec![], toplevel(END), vec![]), abi());
    assert_eq!(cells_left_after(&fits), (String::new(), 0));
    let none = load(&core_program(vec![], toplevel(BOX), vec![]), abi());
    assert_eq!(run(&none).2, Some(Stop::BadProgram(Fault::Broken(Broken::NoArm))));
    let lost = load(&core_program(vec![], CoreExpr::Goto(JoinId(4)), vec![]), abi());
    assert_eq!(run(&lost).2, Some(Stop::BadProgram(Fault::Broken(Broken::NoCase))));
}

#[test]
fn what_is_not_built_yet_says_what_it_needs() {
    let why = |body: CoreExpr, consts: Vec<Const>| {
        match load(&core_program(vec![lowered("f", &[0], body)], CoreExpr::Tail(Atom::Nil), consts), abi())
            .fns
            .remove(0)
        {
            Func::Ready(_) => panic!("built"),
            Func::NotBuiltYet(what) => what,
        }
    };
    let tail = |a: Atom| CoreExpr::Tail(a);
    assert_eq!(why(tail(Atom::Const(ConstId(0))), vec![Const::Float(0)]), "Float");
    assert_eq!(
        why(tail(Atom::Const(ConstId(0))), vec![Const::Binary { bytes: vec![], bits: 0 }]),
        "Binary"
    );
    assert_eq!(
        why(tail(Atom::Const(ConstId(12))), vec![]),
        "constant c12, which the program does not have"
    );
    assert_eq!(why(tail(Atom::Load(Load::Capture(0))), vec![]), "closures that capture");
    assert_eq!(
        why(tail(Atom::Closure { func_idx: FuncIdx(0), captures: vec![local(0)] }), vec![]),
        "closures that capture"
    );
    assert_eq!(
        why(tail(Atom::Call { callee: Callee::Local(local(0)), args: vec![] }), vec![]),
        "calling a function value"
    );
    assert_eq!(
        why(tail(Atom::Intrinsic { intrinsic: Intrinsic::Println, args: vec![] }), vec![]),
        "println with other than one argument"
    );
    assert_eq!(
        why(tail(Atom::Intrinsic { intrinsic: Intrinsic::StringLength, args: vec![] }), vec![]),
        "the built-in StringLength"
    );
    let lit = CoreExpr::Match {
        scrut: local(0),
        arms: vec![Arm { pat: CorePat::Lit(ConstId(0)), body: CoreExpr::Tail(Atom::Nil) }],
    };
    assert_eq!(why(lit, vec![Const::Float(1)]), "matching a Float");
}

/// What a part of the program came to is held until the next part has returned.
#[test]
fn the_last_result_outlives_the_start_of_the_next_part() {
    let part = |s: &str| body("m.top", 1, &[], vec![text(0, s), ret(0)]);
    let code = Code {
        fns: vec![],
        toplevels: vec![part("one"), part("two")],
        main: None,
        globals: 0,
        abi: abi(),
    };
    let mut m = Machine::new(&code);
    let finish = |m: &mut Machine, k: usize| match (m.start(k), m.resume(10)) {
        (Ok(true), Ok(Event::Returned(v))) => v,
        _ => panic!("part {k} did not return"),
    };
    let one = finish(&mut m, 0);
    m.keep(one);
    assert_eq!(m.heap.live(), 1);
    let two = finish(&mut m, 1);
    assert_eq!(m.heap.live(), 2, "the first result is still there");
    m.keep(two);
    assert_eq!(m.heap.live(), 1);
    assert!(matches!(m.start(2), Ok(false)));
    let last = m.take_last();
    assert_eq!(last, two);
    assert_eq!(show(&m, last), "two");
    m.release(last);
    assert_eq!(m.heap.live(), 0);
    let none = m.take_last();
    assert_eq!(none, Value::nil());
}
