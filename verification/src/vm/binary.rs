//! Binaries: strings of bits.
//!
//! Bits are counted from the most significant bit of the first byte, and the
//! bits past a binary's end in its last byte are zero.
//!
//! A binary is one of two cells. An owner holds the bits: a word with its
//! length in bits, then its bytes, eight to a word, the first byte in the
//! lowest bits of a word. A slice holds a reference to an owner, a bit offset
//! and a length in bits; a slice of a slice points at the owner.

use crate::vm::cells::lemma_no_refs_needed;
use crate::vm::heap::{Full, Heap, MAX_CELL_WORDS};
use crate::vm::nodes::{handle, own};
use crate::vm::record::{Body, Kind, part_of, Record};
use crate::vm::sound::{is_owner, lemma_sound_part, sound, valid};
use crate::vm::value::{Cell, Value};
use vstd::arithmetic::power2::{lemma_pow2_unfold, pow2};
use vstd::prelude::*;

verus! {

/// Bit `p` of a word, counted from the least.
pub open spec fn word_bit(w: u64, p: u64) -> bool {
    (w >> p) & 1 == 1
}

/// Where bit `i` of a binary is in its word.
pub open spec fn bit_place(i: int) -> u64 {
    (8 * ((i / 8) % 8) + 7 - i % 8) as u64
}

/// Bit `i` of an owner.
pub open spec fn owner_bit(b: Body, i: int) -> bool {
    word_bit(b.data[1 + i / 64], bit_place(i))
}

/// Some bits of an owner.
#[derive(Clone, Copy, PartialEq, Eq, Structural, Debug)]
pub struct Bits {
    pub owner: Cell,
    pub at: u64,
    pub len: u64,
}

impl Bits {
    pub open spec fn is(self, r: Record) -> bool {
        &&& r.has(self.owner)
        &&& is_owner(r.cells[self.owner])
        &&& self.at + self.len <= r.cells[self.owner].data[0]
    }

    /// The bits themselves.
    pub open spec fn shown(self, r: Record) -> Seq<bool> {
        Seq::new(self.len as nat, |i: int| owner_bit(r.cells[self.owner], self.at + i))
    }
}

/// The bits that a cell shows.
pub open spec fn bits_in(r: Record, c: Cell) -> Bits {
    let b = r.cells[c];
    if b.kind is Binary {
        Bits { owner: c, at: 0, len: b.data[0] }
    } else {
        Bits {
            owner: (Value { bits: b.data[0] }).spec_cell()->Some_0,
            at: b.data[1],
            len: b.data[2],
        }
    }
}

/// The bits a cell holds, or `None` when it is not a binary.
pub fn bits(heap: &Heap, cell: Cell) -> (r: Option<Bits>)
    requires
        heap.wf(),
        heap.record().has(cell),
        valid(heap.record(), cell),
    ensures
        r is Some <==> heap.record().cells[cell].kind is Binary
            || heap.record().cells[cell].kind is BinarySlice,
        r matches Some(b) ==> b == bits_in(heap.record(), cell) && b.is(heap.record()),
{
    match heap.kind(cell) {
        Kind::Binary => Some(Bits { owner: cell, at: 0, len: heap.get(cell, 0) }),
        Kind::BinarySlice => {
            let owner = match Value::from_bits(heap.get(cell, 0)).as_cell() {
                Some(c) => c,
                None => vstd::pervasive::unreached(),
            };
            Some(Bits { owner, at: heap.get(cell, 1), len: heap.get(cell, 2) })
        },
        _ => None,
    }
}

/// Setting a bit of a word sets that bit and no other.
proof fn lemma_set_bit(w: u64, p: u64, q: u64)
    requires
        p < 64,
        q < 64,
    ensures
        word_bit(w | (1u64 << p), q) == (p == q || word_bit(w, q)),
        !word_bit(0, q),
{
    assert(((w | (1u64 << p)) >> q) & 1 == 1 <==> (p == q || (w >> q) & 1 == 1)) by (bit_vector)
        requires
            p < 64,
            q < 64,
    ;
    assert((0u64 >> q) & 1 == 0) by (bit_vector);
}

/// Where a bit is in its word, counted from the word's first.
proof fn lemma_place(from: int, a: int)
    requires
        from % 64 == 0,
        0 <= from,
        0 <= a < 64,
    ensures
        bit_place(from + a) == 8 * (a / 8) + 7 - a % 8,
        bit_place(from + a) < 64,
{
    assert((from + a) % 8 == a % 8);
    assert((from + a) / 8 % 8 == a / 8);
}

/// What setting bit `from + k`, or not, does to a word.
proof fn lemma_packed(before: u64, w: u64, list: Seq<bool>, from: int, k: int)
    requires
        from % 64 == 0,
        0 <= from,
        0 <= k < 64,
        from + k < list.len(),
        w == if list[from + k] {
            before | (1u64 << ((8 * (k / 8) + 7 - k % 8) as u64))
        } else {
            before
        },
        forall|i: int|
            from <= i < from + 64 ==> #[trigger] word_bit(before, bit_place(i)) == (i < from + k
                && list[i]),
    ensures
        forall|i: int|
            from <= i < from + 64 ==> #[trigger] word_bit(w, bit_place(i)) == (i < from + k + 1
                && list[i]),
{
    let p = (8 * (k / 8) + 7 - k % 8) as u64;
    assert forall|i: int| from <= i < from + 64 implies #[trigger] word_bit(w, bit_place(i)) == (i
        < from + k + 1 && list[i]) by {
        assert(word_bit(before, bit_place(i)) == (i < from + k && list[i]));
        lemma_place(from, i - from);
        lemma_place(from, k);
        lemma_set_bit(before, p, bit_place(i));
        let a = i - from;
        assert(a == 8 * (a / 8) + a % 8);
        assert(k == 8 * (k / 8) + k % 8);
    }
}

/// A word of up to 64 bits, from bit `from` of `list` on.
fn pack_bits(list: &[bool], from: usize) -> (r: u64)
    requires
        from % 64 == 0,
        from <= list@.len(),
    ensures
        forall|i: int|
            from <= i < from + 64 ==> #[trigger] word_bit(r, bit_place(i)) == (i < list@.len()
                && list@[i]),
{
    let mut w: u64 = 0;
    let n: usize = if list.len() - from < 64 {
        list.len() - from
    } else {
        64
    };
    let mut k: usize = 0;
    proof {
        assert forall|i: int| from <= i < from + 64 implies !#[trigger] word_bit(w, bit_place(i)) by {
            lemma_place(from as int, i - from);
            lemma_set_bit(0, 0, bit_place(i));
        }
    }
    while k < n
        invariant
            k <= n,
            from % 64 == 0,
            n <= 64,
            from + n <= list@.len(),
            n < 64 ==> from + n == list@.len(),
            forall|i: int|
                from <= i < from + 64 ==> #[trigger] word_bit(w, bit_place(i)) == (i < from + k
                    && list@[i]),
        decreases n - k,
    {
        let p: u64 = 8 * (k as u64 / 8) + 7 - k as u64 % 8;
        let ghost before = w;
        if list[from + k] {
            w = w | (1u64 << p);
        }
        proof {
            lemma_packed(before, w, list@, from as int, k as int);
        }
        k += 1;
    }
    w
}

/// More bits than a cell holds.
pub open spec fn too_wide(bits: int) -> bool {
    (bits + 63) / 64 + 2 > MAX_CELL_WORDS
}

/// A new owner of some bits.
fn owner_of(heap: &mut Heap, list: &[bool]) -> (r: Result<Cell, Full>)
    requires
        old(heap).wf(),
    ensures
        final(heap).wf(),
        sound(old(heap).record()) ==> sound(final(heap).record()),
        part_of(old(heap).record(), final(heap).record()),
        match r {
            Ok(c) => new_binary(old(heap).record(), final(heap).record(), c, list@),
            Err(_) => {
                &&& final(heap).record() == old(heap).record()
                &&& final(heap).full() || too_wide(list@.len() as int)
            },
        },
{
    let ghost first = heap.record();
    let n: usize = list.len();
    let words: usize = n / 64 + (if n % 64 == 0 {
        0
    } else {
        1
    });
    if words as u64 >= MAX_CELL_WORDS as u64 {
        return Err(Full);
    }
    let mut data: Vec<u64> = Vec::new();
    data.push(n as u64);
    let mut j: usize = 0;
    while j < words
        invariant
            n == list@.len(),
            words == n / 64 + (if n % 64 == 0 {
                0int
            } else {
                1int
            }),
            j <= words,
            words < MAX_CELL_WORDS,
            data@.len() == 1 + j,
            data@[0] == n,
            forall|i: int|
                0 <= i < 64 * j ==> #[trigger] word_bit(data@[1 + i / 64], bit_place(i)) == (i < n
                    && list@[i]),
        decreases words - j,
    {
        let ghost before = data@;
        let w = pack_bits(list, j * 64);
        data.push(w);
        proof {
            assert forall|i: int| 0 <= i < 64 * (j + 1) implies #[trigger] word_bit(
                data@[1 + i / 64],
                bit_place(i),
            ) == (i < n && list@[i]) by {
                if i < 64 * j {
                    assert(data@[1 + i / 64] == before[1 + i / 64]);
                    assert(word_bit(before[1 + i / 64], bit_place(i)) == (i < n && list@[i]));
                } else {
                    assert(i / 64 == j);
                    assert(word_bit(w, bit_place(i)) == (i < n && list@[i]));
                }
            }
        }
        j += 1;
    }
    let ghost b = Body { kind: Kind::Binary, data: data@ };
    proof {
        assert(b.held() =~= Seq::empty());
        lemma_no_refs_needed(b, first.ext);
    }
    let c = heap.make(Kind::Binary, data.as_slice())?;
    proof {
        let now = heap.record();
        assert(now.cells[c] == b);
        assert(now.ext =~= first.ext.insert(c));
        assert(bits_in(now, c).shown(now) =~= list@);
        if sound(first) {
            lemma_sound_part(first, now);
        }
    }
    Ok(c)
}

/// A new cell that shows `shown`, with a reference to it.
pub open spec fn new_binary(a: Record, b: Record, c: Cell, shown: Seq<bool>) -> bool {
    &&& c.ok()
    &&& !a.has(c)
    &&& b.has(c)
    &&& b.cells[c].kind is Binary || b.cells[c].kind is BinarySlice
    &&& bits_in(b, c).is(b)
    &&& bits_in(b, c).shown(b) == shown
    &&& b.ext == a.ext.insert(c)
}

/// Bit `k` of a byte, counted from the most significant.
pub open spec fn byte_bit(x: u8, k: int) -> bool {
    (x >> ((7 - k) as u8)) & 1 == 1
}

/// The bits of bytes, as many as `len`, those past the last byte zero.
pub open spec fn byte_bits(bytes: Seq<u8>, len: nat) -> Seq<bool> {
    Seq::new(len, |i: int| i / 8 < bytes.len() && byte_bit(bytes[i / 8], i % 8))
}

/// A new owner of the first `len` bits of `bytes`.
pub fn make(heap: &mut Heap, bytes: &[u8], len: u64) -> (r: Result<Cell, Full>)
    requires
        old(heap).wf(),
    ensures
        final(heap).wf(),
        sound(old(heap).record()) ==> sound(final(heap).record()),
        part_of(old(heap).record(), final(heap).record()),
        match r {
            Ok(c) => new_binary(
                old(heap).record(),
                final(heap).record(),
                c,
                byte_bits(bytes@, len as nat),
            ),
            Err(_) => {
                &&& final(heap).record() == old(heap).record()
                &&& final(heap).full() || too_wide(len as int) || len > usize::MAX
            },
        },
{
    // No cell holds more.
    if len > 64 * (MAX_CELL_WORDS as u64) || len > usize::MAX as u64 {
        return Err(Full);
    }
    let mut list: Vec<bool> = Vec::new();
    let n: usize = len as usize;
    let mut i: usize = 0;
    while i < n
        invariant
            n == len,
            i <= n,
            list@ == byte_bits(bytes@, i as nat),
        decreases n - i,
    {
        let on = i / 8 < bytes.len() && {
            let s: u8 = 7 - (i % 8) as u8;
            (bytes[i / 8] >> s) & 1 == 1
        };
        list.push(on);
        proof {
            assert(byte_bits(bytes@, (i + 1) as nat) =~= byte_bits(bytes@, i as nat).push(on));
        }
        i += 1;
    }
    owner_of(heap, list.as_slice())
}

/// Bits `from .. from + len` of `b`, sharing its owner.
pub fn slice(heap: &mut Heap, b: Bits, from: u64, len: u64) -> (r: Result<Cell, Full>)
    requires
        old(heap).wf(),
        b.is(old(heap).record()),
        from + len <= b.len,
    ensures
        r is Err ==> final(heap).full(),
        final(heap).wf(),
        sound(old(heap).record()) ==> sound(final(heap).record()),
        part_of(old(heap).record(), final(heap).record()),
        r matches Ok(c) ==> new_binary(
            old(heap).record(),
            final(heap).record(),
            c,
            b.shown(old(heap).record()).subrange(from as int, from + len),
        ),
{
    let ghost first = heap.record();
    proof {
        heap.lemma_record_ok();
        assert(first.has(b.owner));
    }
    let v = Value::cell(b.owner);
    own(heap, v)?;
    let ghost mid = heap.record();
    let data: Vec<u64> = vec![v.bits(), b.at + from, len];
    let ghost body = Body { kind: Kind::BinarySlice, data: data@ };
    proof {
        assert(body.held() =~= crate::vm::cells::value_words(seq![v]));
        crate::vm::nodes::lemma_handle_one(v);
        assert(crate::vm::record::all_canonical(body.held()));
        assert(body.refs().to_multiset() == handle(v));
    }
    let c = heap.make(Kind::BinarySlice, data.as_slice())?;
    proof {
        let now = heap.record();
        assert(now.cells[c] == body);
        assert(mid.has(b.owner));
        assert(now.has(b.owner));
        assert(now.cells[b.owner] == first.cells[b.owner]);
        assert(now.ext =~= first.ext.insert(c));
        assert(bits_in(now, c).shown(now) =~= b.shown(first).subrange(from as int, from + len));
        if sound(first) {
            lemma_sound_part(mid, now);
        }
    }
    Ok(c)
}

/// Bit `i` of `b`.
pub fn bit(heap: &Heap, b: Bits, i: u64) -> (r: bool)
    requires
        heap.wf(),
        b.is(heap.record()),
        i < b.len,
    ensures
        r == b.shown(heap.record())[i as int],
{
    let p: u64 = b.at + i;
    proof {
        heap.lemma_record_ok();
        assert(heap.record().has(b.owner));
    }
    let w = heap.get(b.owner, 1 + (p / 64) as usize);
    let s: u64 = 8 * ((p / 8) % 8) + 7 - p % 8;
    (w >> s) & 1 == 1
}

/// A number from its bits, the most significant first.
pub open spec fn number(bits: Seq<bool>) -> nat
    decreases bits.len(),
{
    if bits.len() == 0 {
        0
    } else {
        2 * number(bits.drop_last()) + (if bits.last() {
            1nat
        } else {
            0
        })
    }
}

/// `n` bits from bit `i` on, those past the end zero.
pub open spec fn window(bits: Seq<bool>, i: int, n: nat) -> Seq<bool> {
    Seq::new(n, |k: int| i + k < bits.len() && bits[i + k])
}

/// The byte from bit `i` on.
pub open spec fn octet(bits: Seq<bool>, i: int) -> u8 {
    number(window(bits, i, 8)) as u8
}

/// Bits as whole bytes, the last one padded with zero bits.
pub open spec fn octets(bits: Seq<bool>) -> Seq<u8> {
    Seq::new(((bits.len() + 7) / 8) as nat, |k: int| octet(bits, 8 * k))
}

pub proof fn lemma_number_bound(bits: Seq<bool>)
    ensures
        number(bits) < pow2(bits.len()),
    decreases bits.len(),
{
    if bits.len() == 0 {
        vstd::arithmetic::power2::lemma2_to64();
    } else {
        lemma_number_bound(bits.drop_last());
        lemma_pow2_unfold(bits.len());
    }
}

/// The 8 bits of `b` from bit `i`, the ones past its end read as 0.
pub fn byte(heap: &Heap, b: Bits, i: u64) -> (r: u8)
    requires
        heap.wf(),
        b.is(heap.record()),
        i <= u64::MAX - 8,
    ensures
        r == octet(b.shown(heap.record()), i as int),
        r == number(window(b.shown(heap.record()), i as int, 8)),
{
    let ghost all = b.shown(heap.record());
    let mut v: u16 = 0;
    let mut k: u64 = 0;
    proof {
        vstd::arithmetic::power2::lemma2_to64();
        assert(window(all, i as int, 0) =~= Seq::empty());
    }
    while k < 8
        invariant
            k <= 8,
            i <= u64::MAX - 8,
            heap.wf(),
            b.is(heap.record()),
            all == b.shown(heap.record()),
            v == number(window(all, i as int, k as nat)),
            v < pow2(k as nat),
            pow2(0) == 1,
            pow2(1) == 2,
            pow2(2) == 4,
            pow2(3) == 8,
            pow2(4) == 16,
            pow2(5) == 32,
            pow2(6) == 64,
            pow2(7) == 128,
            pow2(8) == 256,
        decreases 8 - k,
    {
        let on = i + k < b.len && bit(heap, b, i + k);
        proof {
            let next = window(all, i as int, (k + 1) as nat);
            assert(next.drop_last() =~= window(all, i as int, k as nat));
            assert(next.last() == on);
            lemma_pow2_unfold((k + 1) as nat);
        }
        v = v * 2 + (if on {
            1
        } else {
            0
        });
        k += 1;
    }
    v as u8
}

/// `b` as whole bytes, the last one padded with zero bits.
pub fn bytes(heap: &Heap, b: Bits) -> (r: Vec<u8>)
    requires
        heap.wf(),
        b.is(heap.record()),
    ensures
        r@ == octets(b.shown(heap.record())),
{
    let ghost all = b.shown(heap.record());
    proof {
        lemma_len_bound(heap, b);
    }
    let n: u64 = (b.len + 7) / 8;
    byte_run(heap, b, n)
}

/// A binary is no longer than a cell is.
pub proof fn lemma_len_bound(heap: &Heap, b: Bits)
    requires
        heap.wf(),
        b.is(heap.record()),
    ensures
        b.at + b.len <= 0x4_0000_0000,
{
    heap.lemma_record_ok();
    assert(heap.record().has(b.owner));
}

/// The first `n` bytes.
fn byte_run(heap: &Heap, b: Bits, n: u64) -> (r: Vec<u8>)
    requires
        heap.wf(),
        b.is(heap.record()),
        n <= 0x1_0000_0000,
    ensures
        r@.len() == n,
        forall|k: int| 0 <= k < n ==> #[trigger] r@[k] == octet(b.shown(heap.record()), 8 * k),
{
    let mut out: Vec<u8> = Vec::new();
    let mut k: u64 = 0;
    while k < n
        invariant
            k <= n,
            n <= 0x1_0000_0000,
            heap.wf(),
            b.is(heap.record()),
            out@.len() == k,
            forall|j: int| 0 <= j < k ==> #[trigger] out@[j] == octet(b.shown(heap.record()), 8 * j),
        decreases n - k,
    {
        let x = byte(heap, b, k * 8);
        out.push(x);
        k += 1;
    }
    out
}

/// `b`'s whole bytes: a last byte that is not whole is left out.
pub fn whole_bytes(heap: &Heap, b: Bits) -> (r: Vec<u8>)
    requires
        heap.wf(),
        b.is(heap.record()),
    ensures
        r@ == octets(b.shown(heap.record())).take((b.len / 8) as int),
{
    proof {
        lemma_len_bound(heap, b);
    }
    let r = byte_run(heap, b, b.len / 8);
    proof {
        assert(r@ =~= octets(b.shown(heap.record())).take((b.len / 8) as int));
    }
    r
}

/// Whole byte `i` of `b`, or `None` past the last whole one.
pub fn whole_byte(heap: &Heap, b: Bits, i: u64) -> (r: Option<u8>)
    requires
        heap.wf(),
        b.is(heap.record()),
    ensures
        match r {
            Some(x) => i < b.len / 8 && x == octet(b.shown(heap.record()), 8 * i),
            None => i >= b.len / 8,
        },
{
    proof {
        lemma_len_bound(heap, b);
    }
    if i < b.len / 8 {
        Some(byte(heap, b, i * 8))
    } else {
        None
    }
}

/// Whether `a` and `b` hold the same bits.
pub fn equal(heap: &Heap, a: Bits, b: Bits) -> (r: bool)
    requires
        heap.wf(),
        a.is(heap.record()),
        b.is(heap.record()),
    ensures
        r == (a.shown(heap.record()) == b.shown(heap.record())),
{
    let ghost x = a.shown(heap.record());
    let ghost y = b.shown(heap.record());
    if a.len != b.len {
        proof {
            assert(x.len() != y.len());
        }
        return false;
    }
    let mut i: u64 = 0;
    while i < a.len
        invariant
            i <= a.len,
            a.len == b.len,
            heap.wf(),
            a.is(heap.record()),
            b.is(heap.record()),
            x == a.shown(heap.record()),
            y == b.shown(heap.record()),
            forall|k: int| 0 <= k < i ==> #[trigger] x[k] == y[k],
        decreases a.len - i,
    {
        if bit(heap, a, i) != bit(heap, b, i) {
            return false;
        }
        i += 1;
    }
    proof {
        assert(x =~= y);
    }
    true
}

/// Whether `b` holds `prefix` from bit `at`.
pub fn has_at(heap: &Heap, b: Bits, at: u64, prefix: Bits) -> (r: bool)
    requires
        heap.wf(),
        b.is(heap.record()),
        prefix.is(heap.record()),
    ensures
        r <==> at + prefix.len <= b.len && b.shown(heap.record()).subrange(
            at as int,
            at + prefix.len,
        ) == prefix.shown(heap.record()),
{
    match at.checked_add(prefix.len) {
        Some(end) => {
            if end > b.len {
                return false;
            }
        },
        None => {
            return false;
        },
    }
    let part = Bits { owner: b.owner, at: b.at + at, len: prefix.len };
    proof {
        assert(part.shown(heap.record()) =~= b.shown(heap.record()).subrange(
            at as int,
            at + prefix.len,
        ));
    }
    equal(heap, part, prefix)
}

/// Parts one after another.
pub open spec fn joined_bits(r: Record, parts: Seq<Bits>) -> Seq<bool>
    decreases parts.len(),
{
    if parts.len() == 0 {
        Seq::empty()
    } else {
        joined_bits(r, parts.drop_last()) + parts.last().shown(r)
    }
}

/// All of `parts`, one after another, as a new owner.
pub fn join(heap: &mut Heap, parts: &[Bits]) -> (r: Result<Cell, Full>)
    requires
        old(heap).wf(),
        forall|i: int| 0 <= i < parts@.len() ==> (#[trigger] parts@[i]).is(old(heap).record()),
    ensures
        final(heap).wf(),
        sound(old(heap).record()) ==> sound(final(heap).record()),
        part_of(old(heap).record(), final(heap).record()),
        match r {
            Ok(c) => new_binary(
                old(heap).record(),
                final(heap).record(),
                c,
                joined_bits(old(heap).record(), parts@),
            ),
            Err(_) => {
                &&& final(heap).record() == old(heap).record()
                &&& final(heap).full() || too_wide(joined_bits(old(heap).record(), parts@).len() as int)
            },
        },
{
    let ghost rec = heap.record();
    let mut list: Vec<bool> = Vec::new();
    let mut i: usize = 0;
    proof {
        assert(parts@.take(0) =~= Seq::empty());
    }
    while i < parts.len()
        invariant
            i <= parts@.len(),
            heap.wf(),
            rec == heap.record(),
            forall|i: int| 0 <= i < parts@.len() ==> (#[trigger] parts@[i]).is(rec),
            list@ == joined_bits(rec, parts@.take(i as int)),
        decreases parts@.len() - i,
    {
        let p = parts[i];
        let ghost before = list@;
        let mut k: u64 = 0;
        proof {
            assert(before =~= before + p.shown(rec).take(0));
        }
        while k < p.len
            invariant
                k <= p.len,
                heap.wf(),
                rec == heap.record(),
                p.is(rec),
                list@ == before + p.shown(rec).take(k as int),
            decreases p.len - k,
        {
            list.push(bit(heap, p, k));
            proof {
                assert(p.shown(rec).take(k + 1) =~= p.shown(rec).take(k as int).push(
                    p.shown(rec)[k as int],
                ));
                assert(list@ =~= before + p.shown(rec).take(k + 1));
            }
            k += 1;
        }
        proof {
            assert(p.shown(rec).take(k as int) =~= p.shown(rec));
            assert(parts@.take(i + 1).drop_last() =~= parts@.take(i as int));
            assert(parts@.take(i + 1).last() == p);
        }
        i += 1;
    }
    proof {
        assert(parts@.take(i as int) =~= parts@);
    }
    owner_of(heap, list.as_slice())
}

} // verus!
