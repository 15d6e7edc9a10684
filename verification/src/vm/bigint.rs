//! Int arithmetic, small and big.
//!
//! An Int is always exact. One that fits in 48 bits lives in the value word;
//! any other is a heap cell. Every result is put back in that form, so each
//! number has one representation, and a small Int never equals a big one.
//!
//! Two small operands take the fast path, a checked operation on `i64`. The
//! moment an answer needs more room, the arithmetic moves to `num-bigint`.

use crate::text::{decimal_int, int_text};
use crate::vm::cells::lemma_no_refs_needed;
use crate::vm::heap::{Full, Heap, MAX_CELL_WORDS};
use crate::vm::nodes::handle;
use crate::vm::record::{Body, Kind, part_of, Record};
use crate::vm::sound::{
    big_value, digits_value, is_big, lemma_sound_part, signed_value, sound, valid,
};
use crate::vm::value::{Cell, law_one_word_each, SMALL_MAX, SMALL_MIN, Value};
use num_bigint::{BigInt, Sign};
use vstd::prelude::*;

verus! {

/// A number of any size: its sign, and its digits of 64 bits, least first.
pub struct Number {
    pub negative: bool,
    pub digits: Vec<u64>,
}

impl Number {
    pub open spec fn value(&self) -> int {
        signed_value(self.negative, self.digits@)
    }

    /// The one form of a number: no zero digit at the top, and no sign on zero.
    pub open spec fn ok(&self) -> bool {
        &&& self.digits@.len() > 0 ==> self.digits@.last() != 0
        &&& self.digits@.len() == 0 ==> !self.negative
    }

    /// The number of an `i128`.
    pub fn from_i128(n: i128) -> (r: Number)
        ensures
            r.ok(),
            r.value() == n,
    {
        let negative = n < 0;
        let m: u128 = if n < 0 {
            (-(n + 1)) as u128 + 1
        } else {
            n as u128
        };
        let low: u64 = (m % 0x1_0000_0000_0000_0000) as u64;
        let high: u64 = (m / 0x1_0000_0000_0000_0000) as u64;
        let mut digits: Vec<u64> = Vec::new();
        if m > 0 {
            digits.push(low);
            if high > 0 {
                digits.push(high);
            }
        }
        proof {
            if m == 0 {
                assert(digits@ =~= Seq::empty());
            } else if high == 0 {
                assert(digits@ =~= seq![low]);
            } else {
                assert(digits@ =~= seq![low, high]);
            }
            lemma_two_digits(digits@, low, high);
            assert(digits_value(digits@) == m);
        }
        Number { negative, digits }
    }

    /// The number, where an `i64` holds it.
    pub fn to_i64(&self) -> (r: Option<i64>)
        requires
            self.ok(),
        ensures
            match r {
                Some(n) => n == self.value(),
                None => self.value() < i64::MIN || self.value() > i64::MAX,
            },
    {
        let n: usize = self.digits.len();
        proof {
            lemma_digits_low(self.digits@);
        }
        if n == 0 {
            return Some(0);
        }
        if n > 1 {
            return None;
        }
        let d = self.digits[0];
        proof {
            assert(self.digits@.skip(1) =~= Seq::empty());
            assert(digits_value(self.digits@.skip(1)) == 0);
            assert(digits_value(self.digits@) == d);
        }
        if self.negative {
            if d <= 0x8000_0000_0000_0000 {
                Some((-(d as i128)) as i64)
            } else {
                None
            }
        } else if d < 0x8000_0000_0000_0000 {
            Some(d as i64)
        } else {
            None
        }
    }

    /// The number with its sign turned.
    pub fn negated(&self) -> (r: Number)
        requires
            self.ok(),
        ensures
            r.ok(),
            r.value() == -self.value(),
    {
        let mut digits: Vec<u64> = Vec::new();
        let mut i: usize = 0;
        while i < self.digits.len()
            invariant
                i <= self.digits@.len(),
                digits@ == self.digits@.take(i as int),
            decreases self.digits@.len() - i,
        {
            digits.push(self.digits[i]);
            proof {
                assert(self.digits@.take(i + 1) =~= self.digits@.take(i as int).push(
                    self.digits@[i as int],
                ));
            }
            i += 1;
        }
        proof {
            assert(self.digits@.take(i as int) =~= self.digits@);
        }
        Number { negative: digits.len() > 0 && !self.negative, digits }
    }

    pub fn is_zero(&self) -> (r: bool)
        requires
            self.ok(),
        ensures
            r == (self.value() == 0),
    {
        proof {
            lemma_digits_low(self.digits@);
        }
        self.digits.len() == 0
    }

    /// Whether two numbers are the same.
    pub fn same(&self, other: &Number) -> (r: bool)
        requires
            self.ok(),
            other.ok(),
        ensures
            r == (self.value() == other.value()),
    {
        let n: usize = self.digits.len();
        let mut equal = self.negative == other.negative && n == other.digits.len();
        let mut i: usize = 0;
        while equal && i < n
            invariant
                n == self.digits@.len(),
                i <= n,
                equal ==> n == other.digits@.len() && self.negative == other.negative,
                equal ==> self.digits@.take(i as int) == other.digits@.take(i as int),
                !equal ==> self.digits@ != other.digits@ || self.negative != other.negative,
            decreases n - i, (if equal { 1int } else { 0int }),
        {
            if self.digits[i] != other.digits[i] {
                equal = false;
            } else {
                proof {
                    assert(self.digits@.take(i + 1) =~= self.digits@.take(i as int).push(
                        self.digits@[i as int],
                    ));
                    assert(other.digits@.take(i + 1) =~= other.digits@.take(i as int).push(
                        other.digits@[i as int],
                    ));
                }
                i += 1;
            }
        }
        proof {
            if equal {
                assert(self.digits@.take(n as int) =~= self.digits@);
                assert(other.digits@.take(n as int) =~= other.digits@);
            }
            lemma_one_form(self.negative, self.digits@, other.negative, other.digits@);
        }
        equal
    }
}

proof fn lemma_two_digits(ds: Seq<u64>, low: u64, high: u64)
    requires
        ds == if low == 0 && high == 0 {
            Seq::empty()
        } else if high == 0 {
            seq![low]
        } else {
            seq![low, high]
        },
    ensures
        digits_value(ds) == low + 0x1_0000_0000_0000_0000 * high,
{
    if ds.len() == 2 {
        assert(ds.skip(1) =~= seq![high]);
        assert(ds.skip(1).skip(1) =~= Seq::empty());
        assert(digits_value(ds.skip(1).skip(1)) == 0);
        assert(digits_value(ds.skip(1)) == high);
    } else if ds.len() == 1 {
        assert(ds.skip(1) =~= Seq::empty());
        assert(digits_value(ds.skip(1)) == 0);
    }
}

/// Digits whose last is not zero make at least what their count makes.
proof fn lemma_digits_low(ds: Seq<u64>)
    requires
        ds.len() > 0 ==> ds.last() != 0,
    ensures
        ds.len() > 0 ==> digits_value(ds) > 0,
        ds.len() > 1 ==> digits_value(ds) >= 0x1_0000_0000_0000_0000,
        ds.len() == 0 ==> digits_value(ds) == 0,
    decreases ds.len(),
{
    if ds.len() > 0 {
        let rest = ds.skip(1);
        if rest.len() > 0 {
            assert(rest.last() == ds.last());
        }
        lemma_digits_low(rest);
    }
}

/// Digits in their one form are what their number says.
proof fn lemma_digits_same(a: Seq<u64>, b: Seq<u64>)
    requires
        a.len() > 0 ==> a.last() != 0,
        b.len() > 0 ==> b.last() != 0,
        digits_value(a) == digits_value(b),
    ensures
        a == b,
    decreases a.len(),
{
    lemma_digits_low(a);
    lemma_digits_low(b);
    if a.len() > 0 && b.len() > 0 {
        let ra = a.skip(1);
        let rb = b.skip(1);
        if ra.len() > 0 {
            assert(ra.last() == a.last());
        }
        if rb.len() > 0 {
            assert(rb.last() == b.last());
        }
        let x = digits_value(ra);
        let y = digits_value(rb);
        assert(a[0] + 0x1_0000_0000_0000_0000 * x == b[0] + 0x1_0000_0000_0000_0000 * y);
        assert(x == y);
        lemma_digits_same(ra, rb);
        assert(a =~= seq![a[0]] + ra);
        assert(b =~= seq![b[0]] + rb);
    } else {
        assert(a =~= b);
    }
}

/// A number has one form.
pub proof fn lemma_one_form(an: bool, a: Seq<u64>, bn: bool, b: Seq<u64>)
    requires
        a.len() > 0 ==> a.last() != 0,
        b.len() > 0 ==> b.last() != 0,
        a.len() == 0 ==> !an,
        b.len() == 0 ==> !bn,
    ensures
        signed_value(an, a) == signed_value(bn, b) <==> an == bn && a == b,
{
    lemma_digits_low(a);
    lemma_digits_low(b);
    if signed_value(an, a) == signed_value(bn, b) {
        lemma_digits_same(a, b);
    }
}

/// `/`: it truncates toward zero, and dividing by zero gives zero.
pub open spec fn quotient(a: int, b: int) -> int {
    if b == 0 {
        0
    } else if (a < 0) == (b < 0) {
        magnitude(a) / magnitude(b)
    } else {
        -(magnitude(a) / magnitude(b))
    }
}

/// `%`: it takes the dividend's sign, and `x % 0` is `x`.
pub open spec fn remainder(a: int, b: int) -> int {
    if b == 0 {
        a
    } else if a < 0 {
        -(magnitude(a) % magnitude(b))
    } else {
        magnitude(a) % magnitude(b)
    }
}

pub open spec fn magnitude(a: int) -> int {
    if a < 0 {
        -a
    } else {
        a
    }
}

/// Dividing and the remainder fit together, for every divisor: the remainder is
/// smaller than the divisor and never of the other sign than the dividend, so
/// the quotient is the one that truncates toward zero. Dividing by zero gives
/// zero, and leaves everything over.
pub proof fn law_quotient_and_remainder(a: int, b: int)
    ensures
        a == b * quotient(a, b) + remainder(a, b),
        b != 0 ==> magnitude(remainder(a, b)) < magnitude(b),
        a >= 0 ==> remainder(a, b) >= 0,
        a <= 0 ==> remainder(a, b) <= 0,
        b == 0 ==> quotient(a, b) == 0,
{
    if b != 0 {
        let x = magnitude(a);
        let y = magnitude(b);
        vstd::arithmetic::div_mod::lemma_fundamental_div_mod(x, y);
        let q = x / y;
        assert(x == y * q + x % y);
        assert(b * quotient(a, b) == if a < 0 {
            -(y * q)
        } else {
            y * q
        }) by (nonlinear_arith)
            requires
                y == (if b < 0 { -b } else { b }),
                quotient(a, b) == (if (a < 0) == (b < 0) { q } else { -q }),
        ;
    }
}

/// `BigInt + BigInt`: the sum, in `num_bigint`'s one form of a number.
#[verifier::external_body]
pub(crate) fn big_add(a: &Number, b: &Number) -> (r: Number)
    requires
        a.ok(),
        b.ok(),
    ensures
        r.ok(),
        r.value() == a.value() + b.value(),
{
    let big = |n: &Number| {
        let bytes: Vec<u8> = n.digits.iter().flat_map(|d| d.to_le_bytes()).collect();
        BigInt::from_bytes_le(if n.negative { Sign::Minus } else { Sign::Plus }, &bytes)
    };
    let (sign, digits) = (big(a) + big(b)).to_u64_digits();
    Number { negative: sign == Sign::Minus, digits }
}

/// `BigInt - BigInt`: the difference, in `num_bigint`'s one form of a number.
#[verifier::external_body]
fn big_sub(a: &Number, b: &Number) -> (r: Number)
    requires
        a.ok(),
        b.ok(),
    ensures
        r.ok(),
        r.value() == a.value() - b.value(),
{
    let big = |n: &Number| {
        let bytes: Vec<u8> = n.digits.iter().flat_map(|d| d.to_le_bytes()).collect();
        BigInt::from_bytes_le(if n.negative { Sign::Minus } else { Sign::Plus }, &bytes)
    };
    let (sign, digits) = (big(a) - big(b)).to_u64_digits();
    Number { negative: sign == Sign::Minus, digits }
}

/// `BigInt * BigInt`: the product, in `num_bigint`'s one form of a number.
#[verifier::external_body]
fn big_mul(a: &Number, b: &Number) -> (r: Number)
    requires
        a.ok(),
        b.ok(),
    ensures
        r.ok(),
        r.value() == a.value() * b.value(),
{
    let big = |n: &Number| {
        let bytes: Vec<u8> = n.digits.iter().flat_map(|d| d.to_le_bytes()).collect();
        BigInt::from_bytes_le(if n.negative { Sign::Minus } else { Sign::Plus }, &bytes)
    };
    let (sign, digits) = (big(a) * big(b)).to_u64_digits();
    Number { negative: sign == Sign::Minus, digits }
}

/// `BigInt / BigInt`: the quotient, truncated toward zero. It panics on a zero
/// divisor, which is left out.
#[verifier::external_body]
fn big_div(a: &Number, b: &Number) -> (r: Number)
    requires
        a.ok(),
        b.ok(),
        b.value() != 0,
    ensures
        r.ok(),
        r.value() == quotient(a.value(), b.value()),
{
    let big = |n: &Number| {
        let bytes: Vec<u8> = n.digits.iter().flat_map(|d| d.to_le_bytes()).collect();
        BigInt::from_bytes_le(if n.negative { Sign::Minus } else { Sign::Plus }, &bytes)
    };
    let (sign, digits) = (big(a) / big(b)).to_u64_digits();
    Number { negative: sign == Sign::Minus, digits }
}

/// `BigInt % BigInt`: the remainder, with the dividend's sign. It panics on a
/// zero divisor, which is left out.
#[verifier::external_body]
pub(crate) fn big_rem(a: &Number, b: &Number) -> (r: Number)
    requires
        a.ok(),
        b.ok(),
        b.value() != 0,
    ensures
        r.ok(),
        r.value() == remainder(a.value(), b.value()),
{
    let big = |n: &Number| {
        let bytes: Vec<u8> = n.digits.iter().flat_map(|d| d.to_le_bytes()).collect();
        BigInt::from_bytes_le(if n.negative { Sign::Minus } else { Sign::Plus }, &bytes)
    };
    let (sign, digits) = (big(a) % big(b)).to_u64_digits();
    Number { negative: sign == Sign::Minus, digits }
}

/// `BigInt < BigInt`: the order of the numbers.
#[verifier::external_body]
fn big_less(a: &Number, b: &Number) -> (r: bool)
    requires
        a.ok(),
        b.ok(),
    ensures
        r == (a.value() < b.value()),
{
    let big = |n: &Number| {
        let bytes: Vec<u8> = n.digits.iter().flat_map(|d| d.to_le_bytes()).collect();
        BigInt::from_bytes_le(if n.negative { Sign::Minus } else { Sign::Plus }, &bytes)
    };
    big(a) < big(b)
}

/// `BigInt::to_string`: the number in decimal, with a minus sign before a
/// negative one and no leading zeros.
#[verifier::external_body]
fn big_text(a: &Number) -> (r: String)
    requires
        a.ok(),
    ensures
        r@ == decimal_int(a.value()),
{
    let bytes: Vec<u8> = a.digits.iter().flat_map(|d| d.to_le_bytes()).collect();
    BigInt::from_bytes_le(if a.negative { Sign::Minus } else { Sign::Plus }, &bytes).to_string()
}

/// An Int operand, read out of its value.
pub enum Int {
    Small(i64),
    Big(Number),
}

impl Int {
    pub open spec fn value(&self) -> int {
        match self {
            Int::Small(n) => *n as int,
            Int::Big(n) => n.value(),
        }
    }

    pub open spec fn ok(&self) -> bool {
        match self {
            Int::Small(_) => true,
            Int::Big(n) => n.ok(),
        }
    }

    /// The number, whatever form it has.
    pub fn big(self) -> (r: Number)
        requires
            self.ok(),
        ensures
            r.ok(),
            r.value() == self.value(),
    {
        match self {
            Int::Small(n) => Number::from_i128(n as i128),
            Int::Big(n) => n,
        }
    }

    /// The number in decimal, as `int.to_string` writes it.
    pub fn text(&self) -> (r: String)
        requires
            self.ok(),
        ensures
            r@ == decimal_int(self.value()),
    {
        match self {
            Int::Small(n) => int_text(*n),
            Int::Big(n) => big_text(n),
        }
    }
}

/// A two-operand Int operation.
#[derive(Clone, Copy, PartialEq, Eq, Structural, Debug)]
pub enum IntOp {
    Add,
    Sub,
    Mul,
    Div,
    Rem,
    Eq,
    Ne,
    Lt,
    Le,
    Gt,
    Ge,
}

/// What an operation gives.
pub enum Answer {
    Number(int),
    Truth(bool),
}

pub open spec fn answer(op: IntOp, a: int, b: int) -> Answer {
    match op {
        IntOp::Add => Answer::Number(a + b),
        IntOp::Sub => Answer::Number(a - b),
        IntOp::Mul => Answer::Number(a * b),
        IntOp::Div => Answer::Number(quotient(a, b)),
        IntOp::Rem => Answer::Number(remainder(a, b)),
        IntOp::Eq => Answer::Truth(a == b),
        IntOp::Ne => Answer::Truth(a != b),
        IntOp::Lt => Answer::Truth(a < b),
        IntOp::Le => Answer::Truth(a <= b),
        IntOp::Gt => Answer::Truth(a > b),
        IntOp::Ge => Answer::Truth(a >= b),
    }
}

/// The Int that a value is, small or big.
pub open spec fn int_of(r: Record, v: Value) -> Option<int> {
    match v.spec_view() {
        crate::vm::value::View::Int(n) => Some(n as int),
        crate::vm::value::View::Cell(c) => if r.has(c) && r.cells[c].kind is BigInt {
            Some(big_value(r.cells[c]))
        } else {
            None
        },
        _ => None,
    }
}

/// Each Int has one representation: a small one is its word, any other the same
/// digits in every cell that holds it, and a small Int never equals a big one.
pub proof fn law_one_representation(r: Record, v: Value, w: Value)
    requires
        sound(r),
        v.ok(),
        w.ok(),
        int_of(r, v) is Some,
        int_of(r, w) is Some,
    ensures
        int_of(r, v) == int_of(r, w) <==> match (v.spec_cell(), w.spec_cell()) {
            (Some(c), Some(d)) => r.cells[c].data == r.cells[d].data,
            (None, None) => v == w,
            _ => false,
        },
{
    match (v.spec_cell(), w.spec_cell()) {
        (Some(c), Some(d)) => {
            assert(valid(r, c) && valid(r, d));
            let (x, y) = (r.cells[c].data, r.cells[d].data);
            assert(x.skip(1).last() == x.last());
            assert(y.skip(1).last() == y.last());
            lemma_one_form(
                x[0] >= 0x8000_0000_0000_0000,
                x.skip(1),
                y[0] >= 0x8000_0000_0000_0000,
                y.skip(1),
            );
            if int_of(r, v) == int_of(r, w) {
                assert(x =~= seq![x[0]] + x.skip(1));
                assert(y =~= seq![y[0]] + y.skip(1));
                assert(x[0] == y[0]);
            }
        },
        (Some(c), None) => {
            assert(valid(r, c));
        },
        (None, Some(d)) => {
            assert(valid(r, d));
        },
        (None, None) => {
            if int_of(r, v) == int_of(r, w) {
                law_one_word_each(v.bits, w.bits);
            }
        },
    }
}

/// A small Int's word.
pub open spec fn small(n: int) -> bool {
    SMALL_MIN <= n <= SMALL_MAX
}

/// `v` is what an operation gave: a Bool or a small Int in its word, or a new
/// cell, which `v` has the reference to.
pub open spec fn answered(a: Record, b: Record, v: Value, ans: Answer) -> bool {
    &&& v.ok()
    &&& b.ext == a.ext.add(handle(v))
    &&& match ans {
        Answer::Truth(t) => b == a && v.spec_view() == crate::vm::value::View::Bool(t),
        Answer::Number(n) => {
            &&& int_of(b, v) == Some(n)
            &&& small(n) ==> b == a && v.spec_view() == crate::vm::value::View::Int(n as i64)
            &&& !small(n) ==> (v.spec_cell() matches Some(c) && b.has(c) && !a.has(c))
        },
    }
}

/// A number with more digits than a cell holds.
pub open spec fn huge(v: int) -> bool {
    exists|n: Number| n.ok() && #[trigger] n.value() == v && n.digits@.len() + 2 > MAX_CELL_WORDS
}

/// A number of one digit is not.
pub proof fn lemma_not_huge(v: int)
    requires
        -0x1_0000_0000_0000_0000 < v < 0x1_0000_0000_0000_0000,
    ensures
        !huge(v),
{
    if huge(v) {
        let n = choose|n: Number|
            n.ok() && #[trigger] n.value() == v && n.digits@.len() + 2 > MAX_CELL_WORDS;
        lemma_digits_low(n.digits@);
    }
}

impl Heap {
    /// A new cell of a number that no word holds.
    pub fn big_int(&mut self, n: &Number) -> (r: Result<Cell, Full>)
        requires
            old(self).wf(),
            n.ok(),
            !small(n.value()),
        ensures
            final(self).wf(),
            sound(old(self).record()) ==> sound(final(self).record()),
            part_of(old(self).record(), final(self).record()),
            match r {
                Ok(c) => {
                    &&& c.ok()
                    &&& !old(self).record().has(c)
                    &&& final(self).record().has(c)
                    &&& is_big(final(self).record().cells[c])
                    &&& big_value(final(self).record().cells[c]) == n.value()
                    &&& final(self).record().ext == old(self).record().ext.insert(c)
                },
                Err(_) => {
                    &&& final(self).record() == old(self).record()
                    &&& final(self).full() || n.digits@.len() + 2 > MAX_CELL_WORDS
                },
            },
    {
        let ghost first = self.record();
        let count: usize = n.digits.len();
        if count as u64 >= MAX_CELL_WORDS as u64 {
            return Err(Full);
        }
        let sign: u64 = if n.negative {
            0x8000_0000_0000_0000
        } else {
            0
        };
        let mut data: Vec<u64> = Vec::new();
        data.push(sign + count as u64);
        let mut i: usize = 0;
        proof {
            assert(n.digits@.take(0) =~= Seq::empty());
            assert(data@ =~= seq![(sign + count) as u64] + n.digits@.take(0));
        }
        while i < count
            invariant
                count == n.digits@.len(),
                i <= count,
                data@ == seq![(sign + count) as u64] + n.digits@.take(i as int),
            decreases count - i,
        {
            data.push(n.digits[i]);
            proof {
                assert(n.digits@.take(i + 1) =~= n.digits@.take(i as int).push(
                    n.digits@[i as int],
                ));
                assert(data@ =~= seq![(sign + count) as u64] + n.digits@.take(i + 1));
            }
            i += 1;
        }
        let ghost b = Body { kind: Kind::BigInt, data: data@ };
        proof {
            assert(n.digits@.take(count as int) =~= n.digits@);
            assert(b.data.skip(1) =~= n.digits@);
            lemma_digits_low(n.digits@);
            assert(b.held() =~= Seq::empty());
            lemma_no_refs_needed(b, first.ext);
            assert(b.data.last() == n.digits@.last());
        }
        let c = self.make(Kind::BigInt, data.as_slice())?;
        proof {
            let now = self.record();
            assert(now.cells[c] == b);
            assert(now.ext =~= first.ext.insert(c));
            if sound(first) {
                lemma_sound_part(first, now);
            }
        }
        Ok(c)
    }

    /// The number in a cell.
    pub fn read_big_int(&self, cell: Cell) -> (r: Number)
        requires
            self.wf(),
            self.record().has(cell),
            is_big(self.record().cells[cell]),
        ensures
            r.ok(),
            r.value() == big_value(self.record().cells[cell]),
    {
        let ghost d = self.record().cells[cell].data;
        let head = self.get(cell, 0);
        let n = self.len(cell);
        let mut digits: Vec<u64> = Vec::new();
        let mut i: usize = 1;
        while i < n
            invariant
                self.wf(),
                self.record().has(cell),
                d == self.record().cells[cell].data,
                n == d.len(),
                1 <= i <= n,
                digits@ == d.subrange(1, i as int),
            decreases n - i,
        {
            digits.push(self.get(cell, i));
            proof {
                assert(d.subrange(1, i + 1) =~= d.subrange(1, i as int).push(d[i as int]));
            }
            i += 1;
        }
        proof {
            assert(d.subrange(1, n as int) =~= d.skip(1));
            assert(digits@.last() == d.last());
        }
        Number { negative: head >= 0x8000_0000_0000_0000, digits }
    }
}

/// `n` in its one form: small when it fits, a heap cell when it does not.
pub fn value(heap: &mut Heap, n: Number) -> (r: Result<Value, Full>)
    requires
        old(heap).wf(),
        n.ok(),
    ensures
        final(heap).wf(),
        sound(old(heap).record()) ==> sound(final(heap).record()),
        part_of(old(heap).record(), final(heap).record()),
        match r {
            Ok(v) => answered(
                old(heap).record(),
                final(heap).record(),
                v,
                Answer::Number(n.value()),
            ),
            Err(_) => {
                &&& final(heap).record() == old(heap).record()
                &&& !small(n.value())
                &&& final(heap).full() || huge(n.value())
            },
        },
{
    let ghost first = heap.record();
    match n.to_i64() {
        Some(i) => match Value::small_int(i) {
            Some(v) => {
                proof {
                    assert(first.ext =~= first.ext.add(handle(v)));
                }
                return Ok(v);
            },
            None => {},
        },
        None => {},
    }
    let c = heap.big_int(&n)?;
    let v = Value::cell(c);
    proof {
        assert(heap.record().ext =~= first.ext.add(handle(v)));
    }
    Ok(v)
}

/// The magnitude of an `i64`.
fn unsigned(n: i64) -> (r: u64)
    ensures
        r == magnitude(n as int),
{
    if n < 0 {
        (-(n as i128)) as u64
    } else {
        n as u64
    }
}

/// The fast path, or `None` when the answer does not fit a small Int.
fn small_op(op: IntOp, a: i64, b: i64) -> (r: Option<Value>)
    ensures
        match (r, answer(op, a as int, b as int)) {
            (Some(v), Answer::Number(n)) => small(n) && v.ok() && v.spec_view() == crate::vm::value::View::Int(n as i64),
            (Some(v), Answer::Truth(t)) => v.ok() && v.spec_view() == crate::vm::value::View::Bool(t),
            (None, Answer::Number(n)) => !small(n),
            (None, Answer::Truth(_)) => false,
        },
{
    let n: i64 = match op {
        IntOp::Add => a.checked_add(b)?,
        IntOp::Sub => a.checked_sub(b)?,
        IntOp::Mul => a.checked_mul(b)?,
        IntOp::Div => {
            if b == 0 {
                0
            } else {
                let x = unsigned(a);
                let y = unsigned(b);
                let q: u64 = x / y;
                proof {
                    assert(x / y <= x) by (nonlinear_arith)
                        requires
                            y > 0,
                    ;
                }
                if (a < 0) == (b < 0) {
                    if q > 0x7FFF_FFFF_FFFF_FFFF {
                        return None;
                    }
                    q as i64
                } else {
                    (-(q as i128)) as i64
                }
            }
        },
        IntOp::Rem => {
            if b == 0 {
                a
            } else {
                let x = unsigned(a);
                let y = unsigned(b);
                let m: u64 = x % y;
                if a < 0 {
                    (-(m as i128)) as i64
                } else {
                    m as i64
                }
            }
        },
        IntOp::Eq => return Some(Value::bool(a == b)),
        IntOp::Ne => return Some(Value::bool(a != b)),
        IntOp::Lt => return Some(Value::bool(a < b)),
        IntOp::Le => return Some(Value::bool(a <= b)),
        IntOp::Gt => return Some(Value::bool(a > b)),
        IntOp::Ge => return Some(Value::bool(a >= b)),
    };
    Value::small_int(n)
}

/// `a op b`.
pub fn op(heap: &mut Heap, what: IntOp, a: Int, b: Int) -> (r: Result<Value, Full>)
    requires
        old(heap).wf(),
        a.ok(),
        b.ok(),
    ensures
        final(heap).wf(),
        sound(old(heap).record()) ==> sound(final(heap).record()),
        part_of(old(heap).record(), final(heap).record()),
        match r {
            Ok(v) => answered(
                old(heap).record(),
                final(heap).record(),
                v,
                answer(what, a.value(), b.value()),
            ),
            Err(_) => {
                &&& final(heap).record() == old(heap).record()
                &&& answer(what, a.value(), b.value()) matches Answer::Number(n) && !small(n) && (
                final(heap).full() || huge(n))
            },
        },
{
    let ghost first = heap.record();
    match (&a, &b) {
        (Int::Small(x), Int::Small(y)) => match small_op(what, *x, *y) {
            Some(v) => {
                proof {
                    assert(first.ext =~= first.ext.add(handle(v)));
                }
                return Ok(v);
            },
            None => {},
        },
        _ => {},
    }
    let (x, y) = (a.big(), b.big());
    let truth: bool = match what {
        IntOp::Add => {
            return value(heap, big_add(&x, &y));
        },
        IntOp::Sub => {
            return value(heap, big_sub(&x, &y));
        },
        IntOp::Mul => {
            return value(heap, big_mul(&x, &y));
        },
        IntOp::Div => {
            // A zero divisor has a rule of its own.
            if y.is_zero() {
                return value(heap, Number::from_i128(0));
            }
            return value(heap, big_div(&x, &y));
        },
        IntOp::Rem => {
            if y.is_zero() {
                return value(heap, x);
            }
            return value(heap, big_rem(&x, &y));
        },
        IntOp::Eq => x.same(&y),
        IntOp::Ne => !x.same(&y),
        IntOp::Lt => big_less(&x, &y),
        IntOp::Le => !big_less(&y, &x),
        IntOp::Gt => big_less(&y, &x),
        IntOp::Ge => !big_less(&x, &y),
    };
    let v = Value::bool(truth);
    proof {
        assert(first.ext =~= first.ext.add(handle(v)));
    }
    Ok(v)
}

/// `-a`.
pub fn neg(heap: &mut Heap, a: Int) -> (r: Result<Value, Full>)
    requires
        old(heap).wf(),
        a.ok(),
    ensures
        final(heap).wf(),
        sound(old(heap).record()) ==> sound(final(heap).record()),
        part_of(old(heap).record(), final(heap).record()),
        match r {
            Ok(v) => answered(
                old(heap).record(),
                final(heap).record(),
                v,
                Answer::Number(-a.value()),
            ),
            Err(_) => {
                &&& final(heap).record() == old(heap).record()
                &&& !small(-a.value())
                &&& final(heap).full() || huge(-a.value())
            },
        },
{
    let ghost first = heap.record();
    match &a {
        Int::Small(x) => {
            if *x > i64::MIN {
                match Value::small_int(-*x) {
                    Some(v) => {
                        proof {
                            assert(first.ext =~= first.ext.add(handle(v)));
                        }
                        return Ok(v);
                    },
                    None => {},
                }
            }
        },
        Int::Big(_) => {},
    }
    let n = a.big();
    value(heap, n.negated())
}

} // verus!
