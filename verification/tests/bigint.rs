use num_bigint::BigInt;
use scarlet::vm::bigint::{neg, op, value, Int, IntOp, Number};
use scarlet::vm::heap::Heap;
use scarlet::vm::value::{Value, View};

fn number(n: &BigInt) -> Number {
    let (sign, digits) = n.to_u64_digits();
    Number { negative: sign == num_bigint::Sign::Minus, digits }
}

/// An operand: small where it fits a value word.
fn operand(n: &BigInt) -> Int {
    match i64::try_from(n) {
        Ok(k) if (-(1i64 << 47)..(1i64 << 47)).contains(&k) => Int::Small(k),
        _ => Int::Big(number(n)),
    }
}

fn text_of(heap: &Heap, v: Value) -> String {
    match v.view() {
        View::Int(n) => Int::Small(n).text(),
        View::Bool(b) => b.to_string(),
        View::Cell(c) => Int::Big(heap.read_big_int(c)).text(),
        other => panic!("no Int: {other:?}"),
    }
}

fn big(s: &str) -> BigInt {
    s.parse().expect("a number")
}

fn check(what: IntOp, a: &str, b: &str, want: &str) {
    let mut heap = Heap::new();
    let v = op(&mut heap, what, operand(&big(a)), operand(&big(b))).expect("room");
    assert_eq!(text_of(&heap, v), want, "{a} {what:?} {b}");
}

const HUGE: &str = "123456789012345678901234567890123456789";
const OTHER: &str = "-98765432109876543210";

#[test]
fn numbers_of_any_size_compute() {
    check(IntOp::Add, HUGE, OTHER, "123456789012345678802469135780246913579");
    check(IntOp::Sub, HUGE, OTHER, "123456789012345678999999999999999999999");
    check(IntOp::Mul, HUGE, OTHER, "-12193263113702179522496570642249657064223746380111126352690");
    check(IntOp::Lt, OTHER, HUGE, "true");
    check(IntOp::Lt, HUGE, OTHER, "false");
    check(IntOp::Le, HUGE, HUGE, "true");
    check(IntOp::Gt, HUGE, "7", "true");
    check(IntOp::Ge, "7", HUGE, "false");
    check(IntOp::Eq, HUGE, HUGE, "true");
    check(IntOp::Ne, HUGE, OTHER, "true");
}

/// Every result, held against the same arithmetic on whole numbers.
#[test]
fn results_are_those_of_whole_numbers() {
    let all = [
        "0", "1", "-1", "7", "-7", "140737488355327", "140737488355328", "-140737488355328",
        "-140737488355329", "9223372036854775807", "-9223372036854775808", "18446744073709551616",
        HUGE, OTHER,
    ];
    for a in all {
        for b in all {
            let (x, y) = (big(a), big(b));
            check(IntOp::Add, a, b, &(&x + &y).to_string());
            check(IntOp::Sub, a, b, &(&x - &y).to_string());
            check(IntOp::Mul, a, b, &(&x * &y).to_string());
            check(IntOp::Lt, a, b, &(x < y).to_string());
            check(IntOp::Ge, a, b, &(x >= y).to_string());
            check(IntOp::Eq, a, b, &(x == y).to_string());
            if b == "0" {
                // Nothing over nothing: zero, and what was divided remains.
                check(IntOp::Div, a, b, "0");
                check(IntOp::Rem, a, b, a);
            } else {
                check(IntOp::Div, a, b, &(&x / &y).to_string());
                check(IntOp::Rem, a, b, &(&x % &y).to_string());
            }
        }
    }
}

#[test]
fn a_result_that_fits_a_word_is_one() {
    let mut heap = Heap::new();
    let v = value(&mut heap, number(&big("140737488355327"))).expect("room");
    assert_eq!(v.view(), View::Int(140737488355327));
    assert_eq!(heap.live(), 0);
    let v = value(&mut heap, number(&big("140737488355328"))).expect("room");
    assert!(v.as_cell().is_some());
    assert_eq!(heap.live(), 1);
    let v = neg(&mut heap, Int::Small(-140737488355328)).expect("room");
    assert_eq!(text_of(&heap, v), "140737488355328");
    let v = neg(&mut heap, operand(&big(HUGE))).expect("room");
    assert_eq!(text_of(&heap, v), format!("-{HUGE}"));
}

#[test]
fn a_number_reads_back_as_the_word_it_is() {
    assert_eq!(Number::from_i128(-5).to_i64(), Some(-5));
    assert_eq!(Number::from_i128(i64::MIN as i128).to_i64(), Some(i64::MIN));
    assert_eq!(Number::from_i128(i64::MAX as i128 + 1).to_i64(), None);
    assert!(Number::from_i128(0).is_zero());
    assert!(Number::from_i128(4).same(&Number::from_i128(-4).negated()));
}

/// Two ways to one number: the same word, or cells of the same words.
#[test]
fn a_number_is_held_one_way() {
    let mut heap = Heap::new();
    let a = op(&mut heap, IntOp::Add, operand(&big(HUGE)), operand(&big("1"))).expect("room");
    let less = Int::Big(number(&(big(HUGE) - 1)));
    let b = op(&mut heap, IntOp::Add, less, operand(&big("2"))).expect("room");
    match (a.view(), b.view()) {
        (View::Cell(c), View::Cell(d)) => {
            assert_ne!(c, d);
            assert_eq!(heap.data(c), heap.data(d));
        }
        other => panic!("not two cells: {other:?}"),
    }
    let near = Int::Big(number(&(big(HUGE) - 4)));
    let c = op(&mut heap, IntOp::Sub, operand(&big(HUGE)), near).expect("room");
    assert_eq!(c, value(&mut heap, Number::from_i128(4)).expect("room"));
}
