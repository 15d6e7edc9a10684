//! Bits of byte buffers, most significant first.

use vstd::prelude::*;

verus! {

/// Bit `i` of a byte, counted from its most significant.
pub open spec fn byte_bit(b: u8, i: int) -> bool {
    (b >> ((7 - i) as u8)) & 1 == 1
}

/// Bit `i` of a buffer; past its end every bit is clear.
pub open spec fn bit_at(bytes: Seq<u8>, i: int) -> bool {
    0 <= i && i / 8 < bytes.len() && byte_bit(bytes[i / 8], i % 8)
}

/// The `len` bits from `offset` on.
pub open spec fn window(bytes: Seq<u8>, offset: int, len: int) -> Seq<bool> {
    Seq::new(
        if len > 0 {
            len as nat
        } else {
            0
        },
        |i: int| bit_at(bytes, offset + i),
    )
}

/// The byte whose bits, most significant first, are the first eight of `bits`,
/// clear past their end.
pub open spec fn byte_of(bits: Seq<bool>) -> u8 {
    byte_from(bits, 8)
}

/// The first `n` of `bits` as the top bits of a byte.
pub open spec fn byte_from(bits: Seq<bool>, n: nat) -> u8
    decreases n,
{
    if n == 0 || n > 8 {
        0
    } else {
        byte_from(bits, (n - 1) as nat) | (if n <= bits.len() && bits[n - 1] {
            1u8 << ((8 - n) as u8)
        } else {
            0u8
        })
    }
}

/// Whole bytes of a bit string, the last one padded with clear bits.
pub open spec fn packed_bytes(bits: Seq<bool>) -> Seq<u8>
    decreases bits.len(),
{
    if bits.len() == 0 {
        Seq::empty()
    } else if bits.len() <= 8 {
        seq![byte_of(bits)]
    } else {
        seq![byte_of(bits)] + packed_bytes(bits.skip(8))
    }
}

/// A window lies in its buffer, and its end can be counted in a machine word
/// with a byte to spare.
pub open spec fn view_fits(backing: Seq<u8>, bit_offset: u64, bit_len: u64) -> bool {
    bit_offset + bit_len <= 8 * backing.len() && bit_offset + bit_len + 8 <= u64::MAX
}

/// Bit `i` of `bytes`.
pub fn get_bit(bytes: &[u8], i: u64) -> (r: bool)
    ensures
        r == bit_at(bytes@, i as int),
{
    let k: u64 = i / 8;
    if k >= bytes.len() as u64 {
        return false;
    }
    let s: u8 = (7 - i % 8) as u8;
    (bytes[k as usize] >> s) & 1 == 1
}

/// The `n` bits from bit `at` on as the top bits of a byte; bits past the end of
/// the buffer are clear.
pub fn read_bits(bytes: &[u8], at: u64, n: u64) -> (r: u8)
    requires
        n <= 8,
        at + n <= u64::MAX,
    ensures
        r == byte_of(window(bytes@, at as int, n as int)),
{
    let mut r: u8 = 0;
    let mut i: u64 = 0;
    let ghost w = window(bytes@, at as int, n as int);
    while i < n
        invariant
            i <= n <= 8,
            at + n <= u64::MAX,
            w == window(bytes@, at as int, n as int),
            r == byte_from(w, i as nat),
        decreases n - i,
    {
        let b = get_bit(bytes, at + i);
        proof {
            assert(w[i as int] == b);
        }
        if b {
            r = r | (1u8 << ((7 - i) as u8));
        } else {
            proof {
                lemma_or_zero(r);
            }
        }
        i += 1;
    }
    proof {
        lemma_byte_short(w, n as nat, 8);
    }
    r
}

proof fn lemma_or_zero(r: u8)
    by (bit_vector)
    ensures
        r | 0u8 == r,
{
}

/// Past the end of the bits nothing is added.
proof fn lemma_byte_short(bits: Seq<bool>, n: nat, m: nat)
    requires
        bits.len() == n,
        n <= m <= 8,
    ensures
        byte_from(bits, m) == byte_from(bits, n),
    decreases m,
{
    if m > n {
        lemma_byte_short(bits, n, (m - 1) as nat);
        lemma_or_zero(byte_from(bits, (m - 1) as nat));
    }
}

/// The byte at bit `at`.
pub fn read_byte(bytes: &[u8], at: u64) -> (r: u8)
    requires
        at + 8 <= u64::MAX,
    ensures
        r == byte_of(window(bytes@, at as int, 8)),
{
    read_bits(bytes, at, 8)
}

/// The mask of a partial last byte, or `None` when the bits fill whole bytes.
pub fn tail_mask(bit_len: u64) -> (r: Option<u8>)
    ensures
        r is None <==> bit_len % 8 == 0,
        r matches Some(m) ==> m == tail_mask_of(bit_len as int),
{
    let k: u64 = bit_len % 8;
    if k == 0 {
        None
    } else {
        Some(0xFFu8 << ((8 - k) as u8))
    }
}

pub open spec fn tail_mask_of(bit_len: int) -> u8 {
    0xFFu8 << ((8 - bit_len % 8) as u8)
}

} // verus!
