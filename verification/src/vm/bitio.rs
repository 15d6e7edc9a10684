//! Numbers, code points and texts in binaries.

use crate::text::{cat, decimal, join as join_text, joined, push_decimal, texts};
use crate::vm::bigint::{Number, remainder};
use crate::vm::binary::{bit, Bits, byte, byte_bit, byte_bits, bytes, number, octet, octets, window};
use crate::vm::heap::Heap;
use num_bigint::{BigInt, Sign};
use vstd::arithmetic::power2::{lemma2_to64, lemma_pow2_adds, lemma_pow2_pos, lemma_pow2_unfold, pow2};
use vstd::prelude::*;

verus! {

/// A number from its bytes, the most significant first.
pub open spec fn be_value(bytes: Seq<u8>) -> nat
    decreases bytes.len(),
{
    if bytes.len() == 0 {
        0
    } else {
        256 * be_value(bytes.drop_last()) + bytes.last() as nat
    }
}

/// `BigInt::from_bytes_be` of a positive number: what its bytes say, the most
/// significant first.
#[verifier::external_body]
fn big_from_bytes(bytes: &[u8]) -> (r: Number)
    ensures
        r.ok(),
        r.value() == be_value(bytes@),
{
    let (sign, digits) = BigInt::from_bytes_be(Sign::Plus, bytes).to_u64_digits();
    Number { negative: sign == Sign::Minus, digits }
}

/// `BigInt << u64`: the number times a power of two. A shift that no memory
/// could hold is left out.
#[verifier::external_body]
fn big_shl(n: &Number, k: u64) -> (r: Number)
    requires
        n.ok(),
        k <= 0x4_0000_0000,
    ensures
        r.ok(),
        r.value() == n.value() * pow2(k as nat),
{
    let bytes: Vec<u8> = n.digits.iter().flat_map(|d| d.to_le_bytes()).collect();
    let big = BigInt::from_bytes_le(if n.negative { Sign::Minus } else { Sign::Plus }, &bytes);
    let (sign, digits) = (big << k).to_u64_digits();
    Number { negative: sign == Sign::Minus, digits }
}

/// `BigInt >> u64` of a number that is not negative: the number divided by a
/// power of two.
#[verifier::external_body]
fn big_shr(n: &Number, k: u64) -> (r: Number)
    requires
        n.ok(),
        n.value() >= 0,
    ensures
        r.ok(),
        r.value() == n.value() / pow2(k as nat) as int,
{
    let bytes: Vec<u8> = n.digits.iter().flat_map(|d| d.to_le_bytes()).collect();
    let big = BigInt::from_bytes_le(Sign::Plus, &bytes);
    let (sign, digits) = (big >> k).to_u64_digits();
    Number { negative: sign == Sign::Minus, digits }
}

/// `BigInt::to_bytes_be` of a number that is not negative: its bytes, the most
/// significant first and not zero, but for zero's own one byte.
#[verifier::external_body]
fn big_bytes(n: &Number) -> (r: Vec<u8>)
    requires
        n.ok(),
        n.value() >= 0,
    ensures
        be_value(r@) == n.value(),
        r@.len() >= 1,
        r@.len() > 1 ==> r@[0] != 0,
{
    let bytes: Vec<u8> = n.digits.iter().flat_map(|d| d.to_le_bytes()).collect();
    BigInt::from_bytes_le(Sign::Plus, &bytes).to_bytes_be().1
}

proof fn lemma_number_add(a: Seq<bool>, b: Seq<bool>)
    ensures
        number(a + b) == number(a) * pow2(b.len()) + number(b),
    decreases b.len(),
{
    if b.len() == 0 {
        lemma2_to64();
        assert(a + b =~= a);
        assert(number(a) * 1 == number(a));
    } else {
        lemma_number_add(a, b.drop_last());
        assert((a + b).drop_last() =~= a + b.drop_last());
        assert((a + b).last() == b.last());
        lemma_pow2_unfold(b.len());
        let x = number(a);
        let p = pow2((b.len() - 1) as nat);
        assert(2 * (x * p) == x * (2 * p)) by (nonlinear_arith);
    }
}

proof fn lemma_number_zeros(k: nat)
    ensures
        number(Seq::new(k, |i: int| false)) == 0,
    decreases k,
{
    let z = Seq::new(k, |i: int| false);
    if k > 0 {
        lemma_number_zeros((k - 1) as nat);
        assert(z.drop_last() =~= Seq::new((k - 1) as nat, |i: int| false));
    }
}

/// A window that runs past the end is what is there, then zeros.
proof fn lemma_window(bits: Seq<bool>, i: int, n: nat)
    requires
        0 <= i <= bits.len(),
        bits.len() <= i + n,
    ensures
        number(window(bits, i, n)) == number(bits.skip(i)) * pow2((i + n - bits.len()) as nat),
{
    let k = (i + n - bits.len()) as nat;
    let z = Seq::new(k, |j: int| false);
    assert(window(bits, i, n) =~= bits.skip(i) + z);
    lemma_number_add(bits.skip(i), z);
    lemma_number_zeros(k);
}

/// Bits as bytes are the number of the padded bits.
proof fn lemma_octets(bits: Seq<bool>, j: nat)
    requires
        j <= octets(bits).len(),
    ensures
        be_value(octets(bits).take(j as int)) == number(window(bits, 0, 8 * j)),
    decreases j,
{
    if j == 0 {
        assert(octets(bits).take(0) =~= Seq::empty());
        assert(window(bits, 0, 0) =~= Seq::empty());
    } else {
        let p = (j - 1) as nat;
        lemma_octets(bits, p);
        let t = octets(bits).take(j as int);
        assert(t.drop_last() =~= octets(bits).take(p as int));
        assert(t.last() == octet(bits, 8 * p as int));
        let a = window(bits, 0, 8 * p);
        let b = window(bits, 8 * p as int, 8);
        assert(window(bits, 0, 8 * j) =~= a + b);
        lemma_number_add(a, b);
        lemma2_to64();
        lemma_number_small(b);
    }
}

proof fn lemma_number_small(b: Seq<bool>)
    ensures
        number(b) < pow2(b.len()),
    decreases b.len(),
{
    lemma2_to64();
    if b.len() > 0 {
        lemma_number_small(b.drop_last());
        lemma_pow2_unfold(b.len());
    }
}

/// `width` bits of `b` from bit `at`, as an unsigned Int, most significant bit
/// first. Bits past `b`'s end read as 0.
pub fn read_uint(heap: &Heap, b: Bits, at: u64, width: u64) -> (r: Number)
    requires
        heap.wf(),
        b.is(heap.record()),
        width <= 0x4_0000_0000,
    ensures
        r.ok(),
        r.value() == number(window(b.shown(heap.record()), at as int, width as nat)),
{
    let ghost all = b.shown(heap.record());
    let from: u64 = if at < b.len {
        at
    } else {
        b.len
    };
    let len: u64 = if b.len - from < width {
        b.len - from
    } else {
        width
    };
    proof {
        crate::vm::binary::lemma_len_bound(heap, b);
    }
    let part = Bits { owner: b.owner, at: b.at + from, len };
    let ghost shown = part.shown(heap.record());
    let packed = bytes(heap, part);
    let n = big_from_bytes(packed.as_slice());
    // The window is padded to whole bytes: the padding goes, and the zeros past
    // the end come.
    let pad: u64 = (len + 7) / 8 * 8 - len;
    let trimmed = big_shr(&n, pad);
    proof {
        let count = octets(shown).len();
        assert(octets(shown).take(count as int) =~= octets(shown));
        lemma_octets(shown, count);
        lemma_window(shown, 0, 8 * count);
        assert(shown.skip(0) =~= shown);
        let p = pow2(pad as nat) as int;
        let x = number(shown) as int;
        lemma_pow2_pos(pad as nat);
        assert((x * p) / p == x) by (nonlinear_arith)
            requires
                p > 0,
        ;
        assert(trimmed.value() == x);
        let z = Seq::new((width - len) as nat, |j: int| false);
        assert(window(all, at as int, width as nat) =~= shown + z);
        lemma_number_add(shown, z);
        lemma_number_zeros((width - len) as nat);
    }
    big_shl(&trimmed, width - len)
}

/// Bytes at the front that are zero count for nothing.
proof fn lemma_be_zeros(k: nat, bytes: Seq<u8>)
    ensures
        be_value(Seq::new(k, |i: int| 0u8) + bytes) == be_value(bytes),
    decreases bytes.len(), k,
{
    let z = Seq::new(k, |i: int| 0u8);
    let all = z + bytes;
    if bytes.len() > 0 {
        lemma_be_zeros(k, bytes.drop_last());
        assert(all.drop_last() =~= z + bytes.drop_last());
        assert(all.last() == bytes.last());
    } else if k > 0 {
        lemma_be_zeros((k - 1) as nat, bytes);
        assert(all.drop_last() =~= Seq::new((k - 1) as nat, |i: int| 0u8) + bytes);
    } else {
        assert(all =~= bytes);
    }
}

/// A first byte that is not zero makes the number at least its place.
proof fn lemma_be_low(bytes: Seq<u8>)
    requires
        bytes.len() >= 1,
        bytes[0] != 0,
    ensures
        be_value(bytes) >= pow2((8 * (bytes.len() - 1)) as nat),
    decreases bytes.len(),
{
    lemma2_to64();
    if bytes.len() == 1 {
        assert(bytes.drop_last() =~= Seq::empty());
        assert(be_value(bytes.drop_last()) == 0);
    } else {
        lemma_be_low(bytes.drop_last());
        lemma_pow2_adds((8 * (bytes.len() - 2)) as nat, 8);
    }
}

/// `((a % m) + m) % m`, with the signs that `%` gives, is `a` modulo `m`.
proof fn lemma_low_bits(a: int, m: int)
    requires
        m > 0,
    ensures
        remainder(remainder(a, m) + m, m) == a % m,
        remainder(a, m) + m >= 0,
{
    let r0 = remainder(a, m);
    if a < 0 {
        let s = (-a) % m;
        vstd::arithmetic::div_mod::lemma_fundamental_div_mod(-a, m);
        let q = (-a) / m;
        assert(a == m * (-q) + (-s)) by (nonlinear_arith)
            requires
                -a == m * q + s,
        ;
        vstd::arithmetic::div_mod::lemma_mod_multiples_vanish(-q, -s, m);
        vstd::arithmetic::div_mod::lemma_mod_multiples_vanish(1, -s, m);
        assert(m * 1 == m);
    } else {
        vstd::arithmetic::div_mod::lemma_mod_multiples_vanish(1, a % m, m);
        vstd::arithmetic::div_mod::lemma_mod_twice(a, m);
        assert(m * 1 == m);
    }
}

/// The low `width` bits of `n`, most significant first, as whole bytes: `n`
/// modulo a power of two, so a negative `n` is its two's complement, moved up
/// past the bits that pad the last byte.
pub fn from_int(n: &Number, width: u64) -> (r: Vec<u8>)
    requires
        n.ok(),
        width <= 0x4_0000_0000,
        (width + 7) / 8 <= usize::MAX,
    ensures
        r@.len() == (width + 7) / 8,
        be_value(r@) == (n.value() % pow2(width as nat) as int) * pow2(
            ((width + 7) / 8 * 8 - width) as nat,
        ),
{
    let count: usize = ((width + 7) / 8) as usize;
    proof {
        lemma2_to64();
        lemma_pow2_pos(width as nat);
    }
    if count == 0 {
        proof {
            assert(width == 0);
            assert(n.value() % 1 == 0);
            assert(be_value(Seq::<u8>::empty()) == 0);
        }
        return Vec::new();
    }
    let one = Number::from_i128(1);
    let modulus = big_shl(&one, width);
    let ghost m = pow2(width as nat) as int;
    proof {
        lemma_low_bits(n.value(), m);
    }
    let low = crate::vm::bigint::big_rem(
        &crate::vm::bigint::big_add(&crate::vm::bigint::big_rem(n, &modulus), &modulus),
        &modulus,
    );
    let pad: u64 = (width + 7) / 8 * 8 - width;
    proof {
        lemma_pow2_pos(pad as nat);
        assert(low.value() * pow2(pad as nat) >= 0) by (nonlinear_arith)
            requires
                low.value() >= 0,
                pow2(pad as nat) > 0,
        ;
    }
    let shifted = big_shl(&low, pad);
    let be = big_bytes(&shifted);
    let ghost x = low.value();
    proof {
        // No more bytes than there is room for.
        let p = pow2(pad as nat) as int;
        assert(x < m);
        assert(x * p < m * p) by (nonlinear_arith)
            requires
                x < m,
                p > 0,
        ;
        lemma_pow2_adds(width as nat, pad as nat);
        if be@.len() > count {
            lemma_be_low(be@);
            if be@.len() - 1 > count {
                vstd::arithmetic::power2::lemma_pow2_strictly_increases(
                    (8 * count) as nat,
                    (8 * (be@.len() - 1)) as nat,
                );
            }
        }
        assert(be@.len() <= count);
    }
    let mut out: Vec<u8> = Vec::new();
    let zeros: usize = count - be.len();
    let mut i: usize = 0;
    while i < zeros
        invariant
            i <= zeros,
            out@ == Seq::new(i as nat, |j: int| 0u8),
        decreases zeros - i,
    {
        out.push(0);
        proof {
            assert(out@ =~= Seq::new((i + 1) as nat, |j: int| 0u8));
        }
        i += 1;
    }
    let ghost z = out@;
    let mut rest = be;
    let ghost tail = rest@;
    out.append(&mut rest);
    proof {
        assert(out@ =~= Seq::new(zeros as nat, |j: int| 0u8) + tail);
        lemma_be_zeros(zeros as nat, tail);
    }
    out
}

/// How many bytes a code point's first byte says it has, or zero.
pub open spec fn utf8_len(first: u8) -> int {
    if first < 0x80 {
        1
    } else if 0xC0 <= first < 0xE0 {
        2
    } else if 0xE0 <= first < 0xF0 {
        3
    } else if 0xF0 <= first < 0xF8 {
        4
    } else {
        0
    }
}

/// The payload of bytes: of the first, what its length leaves, and six bits of
/// each that continues it.
pub open spec fn utf8_payload(bytes: Seq<u8>) -> int
    decreases bytes.len(),
{
    if bytes.len() == 0 {
        0
    } else if bytes.len() == 1 {
        let first = bytes[0] as int;
        if first < 0x80 {
            first
        } else if first < 0xE0 {
            first - 0xC0
        } else if first < 0xF0 {
            first - 0xE0
        } else {
            first - 0xF0
        }
    } else {
        64 * utf8_payload(bytes.drop_last()) + bytes.last() % 64
    }
}

/// A code point in UTF-8: each byte but the first continues it, and it takes no
/// more bytes than it must, and is a number that a code point has.
pub open spec fn utf8(bytes: Seq<u8>) -> bool {
    let n = bytes.len();
    let c = utf8_payload(bytes);
    &&& n >= 1
    &&& utf8_len(bytes[0]) == n
    &&& forall|i: int| 1 <= i < n ==> 0x80 <= #[trigger] bytes[i] < 0xC0
    &&& n == 2 ==> c >= 0x80
    &&& n == 3 ==> c >= 0x800
    &&& n == 4 ==> c >= 0x1_0000
    &&& c <= 0x10_FFFF
    &&& !(0xD800 <= c <= 0xDFFF)
}

/// Some bytes of a binary, from bit `at` on.
pub open spec fn octets_at(bits: Seq<bool>, at: int, n: nat) -> Seq<u8> {
    Seq::new(n, |k: int| octet(bits, at + 8 * k))
}

/// The code point at bit `at`, and how many bits it takes, if there is one.
pub open spec fn utf8_at(bits: Seq<bool>, at: int) -> Option<(int, int)> {
    let n = utf8_len(octet(bits, at));
    let s = octets_at(bits, at, n as nat);
    if at + 8 <= bits.len() && n > 0 && at + 8 * n <= bits.len() && utf8(s) {
        Some((utf8_payload(s), 8 * n))
    } else {
        None
    }
}

/// The UTF-8 code point at bit `at` of `b`, and how many bits it took, or
/// `None` when no valid one starts there.
pub fn read_utf8(heap: &Heap, b: Bits, at: u64) -> (r: Option<(u32, u64)>)
    requires
        heap.wf(),
        b.is(heap.record()),
    ensures
        match (r, utf8_at(b.shown(heap.record()), at as int)) {
            (Some((c, n)), Some((d, m))) => c == d && n == m,
            (None, None) => true,
            _ => false,
        },
{
    let ghost all = b.shown(heap.record());
    proof {
        crate::vm::binary::lemma_len_bound(heap, b);
    }
    if at >= b.len || b.len - at < 8 {
        return None;
    }
    let first = byte(heap, b, at);
    let n: u64 = if first < 0x80 {
        1
    } else if first < 0xC0 {
        return None;
    } else if first < 0xE0 {
        2
    } else if first < 0xF0 {
        3
    } else if first < 0xF8 {
        4
    } else {
        return None;
    };
    if at + n * 8 > b.len {
        return None;
    }
    let mut c: u32 = if first < 0x80 {
        first as u32
    } else if first < 0xE0 {
        first as u32 - 0xC0
    } else if first < 0xF0 {
        first as u32 - 0xE0
    } else {
        first as u32 - 0xF0
    };
    let ghost s = octets_at(all, at as int, n as nat);
    let mut k: u64 = 1;
    proof {
        assert(s[0] == first);
        assert(s.take(1) =~= seq![s[0]]);
    }
    while k < n
        invariant
            1 <= k <= n <= 4,
            heap.wf(),
            b.is(heap.record()),
            all == b.shown(heap.record()),
            at + n * 8 <= b.len,
            at + 32 < u64::MAX - 8,
            n == utf8_len(octet(all, at as int)),
            s == octets_at(all, at as int, n as nat),
            c == utf8_payload(s.take(k as int)),
            k == 1 ==> c < 0x80,
            k == 2 ==> c < 0x2000,
            k == 3 ==> c < 0x8_0000,
            k == 4 ==> c < 0x200_0000,
            forall|i: int| 1 <= i < k ==> 0x80 <= #[trigger] s[i] < 0xC0,
        decreases n - k,
    {
        let x = byte(heap, b, at + k * 8);
        proof {
            assert(s[k as int] == x);
        }
        if x < 0x80 || x >= 0xC0 {
            proof {
                assert(!(0x80 <= s[k as int] < 0xC0));
                assert(!utf8(s));
            }
            return None;
        }
        proof {
            assert(s.take(k + 1).drop_last() =~= s.take(k as int));
            assert(s.take(k + 1).last() == x);
        }
        c = c * 64 + (x % 64) as u32;
        k += 1;
    }
    proof {
        assert(s.take(n as int) =~= s);
    }
    if n == 2 && c < 0x80 || n == 3 && c < 0x800 || n == 4 && c < 0x1_0000 {
        return None;
    }
    if c > 0x10_FFFF || 0xD800 <= c && c <= 0xDFFF {
        return None;
    }
    Some((c, n * 8))
}

/// How a binary shows: `<<1, 2, 3>>`, with a last byte that is not whole as
/// `5:size(3)`.
pub open spec fn binary_text(bits: Seq<bool>) -> Seq<char> {
    seq!['<', '<'] + joined(binary_parts(bits), seq![',', ' ']) + seq!['>', '>']
}

pub open spec fn binary_parts(bits: Seq<bool>) -> Seq<Seq<char>> {
    let n = (bits.len() / 8) as nat;
    let rem = (bits.len() % 8) as nat;
    let whole = Seq::new(n, |k: int| decimal(octet(bits, 8 * k) as nat));
    if rem == 0 {
        whole
    } else {
        whole.push(
            decimal(number(bits.skip(8 * n as int))) + seq![':', 's', 'i', 'z', 'e', '('] + decimal(
                rem,
            ) + seq![')'],
        )
    }
}

/// The number of the last `n` bits of `b`, fewer than eight.
fn last_bits(heap: &Heap, b: Bits, n: u64) -> (r: u64)
    requires
        heap.wf(),
        b.is(heap.record()),
        n < 8,
        n <= b.len,
    ensures
        r == number(b.shown(heap.record()).skip(b.len - n)),
{
    let ghost tail = b.shown(heap.record()).skip(b.len - n);
    let mut v: u64 = 0;
    let mut k: u64 = 0;
    proof {
        lemma2_to64();
        assert(tail.take(0) =~= Seq::empty());
    }
    while k < n
        invariant
            k <= n < 8,
            n <= b.len,
            heap.wf(),
            b.is(heap.record()),
            tail == b.shown(heap.record()).skip(b.len - n),
            v == number(tail.take(k as int)),
            v < pow2(k as nat),
            pow2(7) == 128,
        decreases n - k,
    {
        let on = bit(heap, b, b.len - n + k);
        proof {
            assert(tail.take(k + 1).drop_last() =~= tail.take(k as int));
            assert(tail.take(k + 1).last() == on);
            lemma_pow2_unfold((k + 1) as nat);
            if k + 1 < 7 {
                vstd::arithmetic::power2::lemma_pow2_strictly_increases((k + 1) as nat, 7);
            }
        }
        v = v * 2 + (if on {
            1
        } else {
            0
        });
        k += 1;
    }
    proof {
        assert(tail.take(n as int) =~= tail);
    }
    v
}

pub fn text(heap: &Heap, b: Bits) -> (r: String)
    requires
        heap.wf(),
        b.is(heap.record()),
    ensures
        r@ == binary_text(b.shown(heap.record())),
{
    let ghost all = b.shown(heap.record());
    proof {
        crate::vm::binary::lemma_len_bound(heap, b);
    }
    let n: u64 = b.len / 8;
    let mut parts: Vec<String> = Vec::new();
    let mut k: u64 = 0;
    while k < n
        invariant
            k <= n,
            n == b.len / 8,
            b.len <= 0x4_0000_0000,
            heap.wf(),
            b.is(heap.record()),
            all == b.shown(heap.record()),
            texts(parts@) == Seq::new(k as nat, |j: int| decimal(octet(all, 8 * j) as nat)),
        decreases n - k,
    {
        let x = byte(heap, b, k * 8);
        let mut s = String::new();
        push_decimal(&mut s, x as u64);
        let ghost before = texts(parts@);
        parts.push(s);
        proof {
            assert(texts(parts@) =~= before.push(decimal(x as nat)));
            assert(texts(parts@) =~= Seq::new((k + 1) as nat, |j: int| decimal(
                octet(all, 8 * j) as nat,
            )));
        }
        k += 1;
    }
    let rem: u64 = b.len % 8;
    if rem != 0 {
        let last = last_bits(heap, b, rem);
        let mut s = String::new();
        push_decimal(&mut s, last);
        let mut s = cat(s.as_str(), ":size(");
        push_decimal(&mut s, rem);
        let s = cat(s.as_str(), ")");
        let ghost before = texts(parts@);
        parts.push(s);
        proof {
            reveal_strlit(":size(");
            reveal_strlit(")");
            assert(":size("@ =~= seq![':', 's', 'i', 'z', 'e', '(']);
            assert(")"@ =~= seq![')']);
            assert(texts(parts@) =~= before.push(s@));
        }
    }
    proof {
        reveal_strlit("<<");
        reveal_strlit(">>");
        reveal_strlit(", ");
        assert("<<"@ =~= seq!['<', '<']);
        assert(">>"@ =~= seq!['>', '>']);
        assert(", "@ =~= seq![',', ' ']);
        assert(texts(parts@) =~= binary_parts(all));
    }
    let inner = join_text(&parts, ", ");
    let start = cat("<<", inner.as_str());
    cat(start.as_str(), ">>")
}

proof fn lemma_byte_number(x: u8)
    ensures
        number(byte_bits(seq![x], 8)) == x,
{
    let b = byte_bits(seq![x], 8);
    reveal_with_fuel(number, 9);
    assert(((x >> 7) & 1) * 128 + ((x >> 6) & 1) * 64 + ((x >> 5) & 1) * 32 + ((x >> 4) & 1) * 16 + ((x
        >> 3) & 1) * 8 + ((x >> 2) & 1) * 4 + ((x >> 1) & 1) * 2 + ((x >> 0) & 1) == x && ((x >> 7) & 1) <= 1
        && ((x >> 6) & 1) <= 1 && ((x >> 5) & 1) <= 1 && ((x >> 4) & 1) <= 1 && ((x >> 3) & 1) <= 1 && ((x
        >> 2) & 1) <= 1 && ((x >> 1) & 1) <= 1 && ((x >> 0) & 1) <= 1) by (bit_vector);
    assert(b.len() == 8);
    assert forall|k: int| 0 <= k < 8 implies #[trigger] b[k] == byte_bit(x, k) by {
        assert(k / 8 == 0 && k % 8 == k);
    }
}

proof fn lemma_bytes_number(bytes: Seq<u8>)
    ensures
        number(byte_bits(bytes, 8 * bytes.len())) == be_value(bytes),
    decreases bytes.len(),
{
    let n = bytes.len();
    if n == 0 {
        assert(byte_bits(bytes, 0) =~= Seq::empty());
    } else {
        let rest = bytes.drop_last();
        let a = byte_bits(rest, 8 * rest.len());
        let b = byte_bits(seq![bytes.last()], 8);
        lemma_bytes_number(rest);
        lemma_byte_number(bytes.last());
        assert(byte_bits(bytes, 8 * n) =~= a + b) by {
            assert forall|i: int| 0 <= i < 8 * n implies byte_bits(bytes, 8 * n)[i] == (a + b)[i] by {
                if i >= 8 * (n - 1) {
                    assert(i / 8 == n - 1);
                    assert((i - 8 * (n - 1)) / 8 == 0);
                    assert((i - 8 * (n - 1)) % 8 == i % 8);
                }
            }
        }
        lemma_number_add(a, b);
        lemma2_to64();
    }
}

/// A number that was written in `width` bits reads back modulo two to the width:
/// a negative one as its two's complement.
pub proof fn law_written_number_reads_back(n: int, width: nat, bytes: Seq<u8>)
    requires
        bytes.len() == (width + 7) / 8,
        be_value(bytes) == (n % pow2(width) as int) * pow2(((width + 7) / 8 * 8 - width) as nat),
    ensures
        number(window(byte_bits(bytes, width), 0, width)) == n % pow2(width) as int,
{
    let pad = (8 * bytes.len() - width) as nat;
    let all = byte_bits(bytes, 8 * bytes.len());
    let a = byte_bits(bytes, width);
    let b = all.skip(width as int);
    lemma_bytes_number(bytes);
    assert(all =~= a + b);
    lemma_number_add(a, b);
    lemma_number_small(b);
    lemma_pow2_pos(pad);
    lemma_pow2_pos(width);
    assert(window(a, 0, width) =~= a);
    let p = pow2(pad) as int;
    let v = n % pow2(width) as int;
    let x = number(a) as int;
    let y = number(b) as int;
    assert(b.len() == pad);
    assert(v == x) by (nonlinear_arith)
        requires
            v * p == x * p + y,
            0 <= y < p,
    ;
}

} // verus!
