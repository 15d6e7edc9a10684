//! SipHash, fed a stream of bytes.

use crate::vm::cells::{bytes_span, nth_byte, pack, pack_word, word_byte};
use vstd::prelude::*;

verus! {

/// The four lanes of the hash.
#[derive(Clone, Copy, PartialEq, Eq, Structural, Debug)]
pub struct Lanes {
    pub v0: u64,
    pub v1: u64,
    pub v2: u64,
    pub v3: u64,
}

/// A word turned left by `k` bits.
pub open spec fn turned(x: u64, k: u64) -> u64 {
    (x << k) | (x >> ((64 - k) as u64))
}

pub open spec fn plus(a: u64, b: u64) -> u64 {
    ((a + b) % 0x1_0000_0000_0000_0000) as u64
}

/// One round.
pub open spec fn mixed(l: Lanes) -> Lanes {
    let a0 = plus(l.v0, l.v1);
    let a1 = turned(l.v1, 13) ^ a0;
    let b0 = turned(a0, 32);
    let a2 = plus(l.v2, l.v3);
    let a3 = turned(l.v3, 16) ^ a2;
    let c0 = plus(b0, a3);
    let b3 = turned(a3, 21) ^ c0;
    let b2 = plus(a2, a1);
    let b1 = turned(a1, 17) ^ b2;
    Lanes { v0: c0, v1: b1, v2: turned(b2, 32), v3: b3 }
}

pub open spec fn rounds(l: Lanes, n: nat) -> Lanes
    decreases n,
{
    if n == 0 {
        l
    } else {
        mixed(rounds(l, (n - 1) as nat))
    }
}

/// A word taken in.
pub open spec fn taken(l: Lanes, m: u64, c: nat) -> Lanes {
    let r = rounds(Lanes { v3: l.v3 ^ m, ..l }, c);
    Lanes { v0: r.v0 ^ m, ..r }
}

/// The whole words of a message taken in.
pub open spec fn absorbed(l: Lanes, bytes: Seq<u8>, c: nat) -> Lanes
    decreases bytes.len(),
{
    if bytes.len() < 8 {
        l
    } else {
        let n = (bytes.len() - bytes.len() % 8) as int;
        taken(
            absorbed(l, bytes.take(n - 8), c),
            pack(bytes.subrange(n - 8, n)) as u64,
            c,
        )
    }
}

pub open spec fn start(k0: u64, k1: u64) -> Lanes {
    Lanes {
        v0: k0 ^ 0x736f_6d65_7073_6575,
        v1: k1 ^ 0x646f_7261_6e64_6f6d,
        v2: k0 ^ 0x6c79_6765_6e65_7261,
        v3: k1 ^ 0x7465_6462_7974_6573,
    }
}

/// The bytes after a message's last whole word.
pub open spec fn loose(bytes: Seq<u8>) -> Seq<u8> {
    bytes.skip((bytes.len() - bytes.len() % 8) as int)
}

/// SipHash with `c` rounds for each word and `d` at the end.
pub open spec fn sip(k0: u64, k1: u64, c: nat, d: nat, bytes: Seq<u8>) -> u64 {
    let last = (bytes.len() % 256 * 0x100_0000_0000_0000 + pack(loose(bytes))) as u64;
    let l = taken(absorbed(start(k0, k1), bytes, c), last, c);
    let r = rounds(Lanes { v2: l.v2 ^ 0xFF, ..l }, d);
    r.v0 ^ r.v1 ^ r.v2 ^ r.v3
}

/// The eight bytes of a word, the least first.
pub open spec fn word_bytes(w: u64) -> Seq<u8> {
    Seq::new(8, |i: int| nth_byte(w as nat, i as nat))
}

proof fn lemma_pack_nth(w: nat, n: nat)
    ensures
        pack(Seq::new(n, |i: int| nth_byte(w, i as nat))) == w % bytes_span(n),
        bytes_span(n) > 0,
    decreases n,
{
    let s = Seq::new(n, |i: int| nth_byte(w, i as nat));
    if n == 0 {
        assert(s =~= Seq::empty());
    } else {
        lemma_pack_nth(w / 256, (n - 1) as nat);
        let rest = s.skip(1);
        assert(rest =~= Seq::new((n - 1) as nat, |i: int| nth_byte(w / 256, i as nat))) by {
            assert forall|i: int| 0 <= i < n - 1 implies rest[i] == nth_byte(w / 256, i as nat) by {
                assert(s[i + 1] == nth_byte(w, (i + 1) as nat));
            }
        }
        let p = bytes_span((n - 1) as nat) as int;
        let x = (w / 256) as int;
        assert(s[0] == nth_byte(w, 0));
        assert(pack(s) == s[0] + 256 * pack(rest));
        vstd::arithmetic::div_mod::lemma_fundamental_div_mod(x, p);
        let q = x / p;
        let m = x % p;
        assert(w == 256 * x + w % 256);
        assert(w as int == (256 * p) * q + (256 * m + (w % 256) as int)) by (nonlinear_arith)
            requires
                w as int == 256 * x + (w % 256) as int,
                x == p * q + m,
        ;
        vstd::arithmetic::div_mod::lemma_fundamental_div_mod_converse(
            w as int,
            256 * p,
            q,
            256 * m + (w % 256) as int,
        );
    }
}

pub proof fn lemma_word_bytes(w: u64)
    ensures
        pack(word_bytes(w)) == w,
{
    lemma_pack_nth(w as nat, 8);
    reveal_with_fuel(bytes_span, 9);
    assert(bytes_span(8) == 0x1_0000_0000_0000_0000);
}

/// A hash under way: SipHash with `C` rounds for each word and `D` at the end.
pub struct Sip<const C: usize, const D: usize> {
    lanes: Lanes,
    /// Bytes that are not a whole word yet.
    tail: Vec<u8>,
    /// Bytes fed so far, counted modulo 256.
    count: u64,
    k0: Ghost<u64>,
    k1: Ghost<u64>,
    fed: Ghost<Seq<u8>>,
}

fn turn(x: u64, k: u64) -> (r: u64)
    requires
        0 < k < 64,
    ensures
        r == turned(x, k),
{
    (x << k) | (x >> (64 - k))
}

fn plus_words(a: u64, b: u64) -> (r: u64)
    ensures
        r == plus(a, b),
{
    a.wrapping_add(b)
}

/// The eight bytes of a word.
fn split(w: u64) -> (r: Vec<u8>)
    ensures
        r@ == word_bytes(w),
{
    let mut list: Vec<u8> = Vec::new();
    let mut i: usize = 0;
    while i < 8
        invariant
            i <= 8,
            list@ == word_bytes(w).take(i as int),
        decreases 8 - i,
    {
        list.push(word_byte(w, i));
        proof {
            assert(word_bytes(w).take(i + 1) =~= word_bytes(w).take(i as int).push(
                word_bytes(w)[i as int],
            ));
        }
        i += 1;
    }
    proof {
        assert(word_bytes(w).take(8) =~= word_bytes(w));
    }
    list
}

impl<const C: usize, const D: usize> Sip<C, D> {
    pub closed spec fn wf(self) -> bool {
        let bytes = self.fed@;
        &&& self.lanes == absorbed(start(self.k0@, self.k1@), bytes, C as nat)
        &&& self.tail@ == loose(bytes)
        &&& self.count == bytes.len() % 256
    }

    /// What was fed.
    pub closed spec fn message(self) -> Seq<u8> {
        self.fed@
    }

    pub closed spec fn keys(self) -> (u64, u64) {
        (self.k0@, self.k1@)
    }

    pub fn new(k0: u64, k1: u64) -> (r: Self)
        ensures
            r.wf(),
            r.message() == Seq::<u8>::empty(),
            r.keys() == (k0, k1),
    {
        proof {
            assert(loose(Seq::<u8>::empty()) =~= Seq::empty());
        }
        Sip {
            lanes: Lanes {
                v0: k0 ^ 0x736f_6d65_7073_6575,
                v1: k1 ^ 0x646f_7261_6e64_6f6d,
                v2: k0 ^ 0x6c79_6765_6e65_7261,
                v3: k1 ^ 0x7465_6462_7974_6573,
            },
            tail: Vec::new(),
            count: 0,
            k0: Ghost(k0),
            k1: Ghost(k1),
            fed: Ghost(Seq::empty()),
        }
    }

    fn round(l: Lanes) -> (r: Lanes)
        ensures
            r == mixed(l),
    {
        let a0 = plus_words(l.v0, l.v1);
        let a1: u64 = turn(l.v1, 13) ^ a0;
        let b0 = turn(a0, 32);
        let a2 = plus_words(l.v2, l.v3);
        let a3: u64 = turn(l.v3, 16) ^ a2;
        let c0 = plus_words(b0, a3);
        let b3: u64 = turn(a3, 21) ^ c0;
        let b2 = plus_words(a2, a1);
        let b1: u64 = turn(a1, 17) ^ b2;
        Lanes { v0: c0, v1: b1, v2: turn(b2, 32), v3: b3 }
    }

    fn run(l: Lanes, n: usize) -> (r: Lanes)
        ensures
            r == rounds(l, n as nat),
    {
        let mut x = l;
        let mut i: usize = 0;
        while i < n
            invariant
                i <= n,
                x == rounds(l, i as nat),
            decreases n - i,
        {
            x = Self::round(x);
            i += 1;
        }
        x
    }

    fn compress(l: Lanes, m: u64) -> (r: Lanes)
        ensures
            r == taken(l, m, C as nat),
    {
        let x = Self::run(Lanes { v3: l.v3 ^ m, ..l }, C);
        Lanes { v0: x.v0 ^ m, ..x }
    }

    /// Feed one byte.
    fn feed(&mut self, b: u8)
        requires
            old(self).wf(),
        ensures
            final(self).wf(),
            final(self).message() == old(self).message().push(b),
            final(self).keys() == old(self).keys(),
    {
        proof {
            lemma_feed(start(self.k0@, self.k1@), self.fed@, b, C as nat);
            self.fed@ = self.fed@.push(b);
        }
        self.count = (self.count + 1) % 256;
        self.tail.push(b);
        if self.tail.len() == 8 {
            let m = pack_word(self.tail.as_slice(), 0, 8);
            proof {
                assert(self.tail@.subrange(0, 8) =~= self.tail@);
            }
            self.lanes = Self::compress(self.lanes, m);
            self.tail = Vec::new();
        }
    }

    /// Feed bytes.
    pub fn bytes(&mut self, bytes: &[u8])
        requires
            old(self).wf(),
        ensures
            final(self).wf(),
            final(self).message() == old(self).message() + bytes@,
            final(self).keys() == old(self).keys(),
    {
        let ghost before = self.message();
        let ghost keys = self.keys();
        let mut i: usize = 0;
        proof {
            assert(before + bytes@.take(0) =~= before);
        }
        while i < bytes.len()
            invariant
                i <= bytes@.len(),
                self.wf(),
                self.message() == before + bytes@.take(i as int),
                self.keys() == keys,
            decreases bytes@.len() - i,
        {
            self.feed(bytes[i]);
            proof {
                assert(bytes@.take(i + 1) =~= bytes@.take(i as int).push(bytes@[i as int]));
                assert(self.message() =~= before + bytes@.take(i + 1));
            }
            i += 1;
        }
        proof {
            assert(bytes@.take(i as int) =~= bytes@);
        }
    }

    /// Feed a word: its eight bytes, the least first.
    pub fn word(&mut self, w: u64)
        requires
            old(self).wf(),
        ensures
            final(self).wf(),
            final(self).message() == old(self).message() + word_bytes(w),
            final(self).keys() == old(self).keys(),
    {
        if self.tail.len() == 0 {
            proof {
                assert(loose(self.fed@).len() == self.fed@.len() % 8);
                lemma_feed_word(start(self.k0@, self.k1@), self.fed@, w, C as nat);
                self.fed@ = self.fed@ + word_bytes(w);
                assert(self.tail@ =~= Seq::empty());
            }
            self.count = (self.count + 8) % 256;
            self.lanes = Self::compress(self.lanes, w);
        } else {
            let list = split(w);
            self.bytes(list.as_slice());
        }
    }

    /// The hash of what was fed.
    pub fn finish(self) -> (r: u64)
        requires
            self.wf(),
        ensures
            r == sip(self.keys().0, self.keys().1, C as nat, D as nat, self.message()),
    {
        let ghost bytes = self.fed@;
        let n: usize = self.tail.len();
        proof {
            assert(n == bytes.len() % 8);
            assert(self.tail@.subrange(0, n as int) =~= self.tail@);
        }
        let t = pack_word(self.tail.as_slice(), 0, n);
        proof {
            lemma_pack_small(self.tail@);
        }
        let m: u64 = self.count * 0x100_0000_0000_0000 + t;
        let l = Self::compress(self.lanes, m);
        let r = Self::run(Lanes { v2: l.v2 ^ 0xFF, ..l }, D);
        r.v0 ^ r.v1 ^ r.v2 ^ r.v3
    }
}

/// One byte more: it is loose, or it makes a word whole.
proof fn lemma_feed(l: Lanes, before: Seq<u8>, b: u8, c: nat)
    ensures
        before.len() % 8 == 7 ==> {
            &&& absorbed(l, before.push(b), c) == taken(
                absorbed(l, before, c),
                pack(loose(before).push(b)) as u64,
                c,
            )
            &&& loose(before.push(b)) == Seq::<u8>::empty()
        },
        before.len() % 8 != 7 ==> {
            &&& absorbed(l, before.push(b), c) == absorbed(l, before, c)
            &&& loose(before.push(b)) == loose(before).push(b)
        },
        loose(before).len() == before.len() % 8,
{
    let after = before.push(b);
    let n = (before.len() - before.len() % 8) as int;
    lemma_absorbed_whole(l, before, c);
    if before.len() % 8 == 7 {
        assert(after.len() == n + 8);
        assert(after.len() % 8 == 0);
        assert(after.subrange(n, n + 8) =~= loose(before).push(b));
        assert(after.take(n) =~= before.take(n));
        assert(loose(after) =~= Seq::empty());
    } else {
        assert(after.len() - after.len() % 8 == n);
        lemma_absorbed_whole(l, after, c);
        assert(after.take(n) =~= before.take(n));
        assert(loose(after) =~= loose(before).push(b));
    }
}

/// A word more, where none is loose.
proof fn lemma_feed_word(l: Lanes, before: Seq<u8>, w: u64, c: nat)
    requires
        before.len() % 8 == 0,
    ensures
        absorbed(l, before + word_bytes(w), c) == taken(absorbed(l, before, c), w, c),
        loose(before + word_bytes(w)) == Seq::<u8>::empty(),
{
    let after = before + word_bytes(w);
    let n = after.len() as int;
    assert(after.len() % 8 == 0);
    assert(after.subrange(n - 8, n) =~= word_bytes(w));
    assert(after.take(n - 8) =~= before);
    lemma_word_bytes(w);
    assert(loose(after) =~= Seq::empty());
}

/// Only the whole words are taken in.
proof fn lemma_absorbed_whole(l: Lanes, bytes: Seq<u8>, c: nat)
    ensures
        absorbed(l, bytes, c) == absorbed(l, bytes.take((bytes.len() - bytes.len() % 8) as int), c),
{
    let n = (bytes.len() - bytes.len() % 8) as int;
    let w = bytes.take(n);
    if bytes.len() >= 8 {
        assert(w.take(n - 8) =~= bytes.take(n - 8));
        assert(w.subrange(n - 8, n) =~= bytes.subrange(n - 8, n));
    }
}

/// Fewer than eight bytes leave a word's top byte free.
proof fn lemma_pack_small(bytes: Seq<u8>)
    requires
        bytes.len() < 8,
    ensures
        pack(bytes) < 0x100_0000_0000_0000,
{
    lemma_pack_span(bytes);
    reveal_with_fuel(bytes_span, 8);
    assert(bytes_span(7) == 0x100_0000_0000_0000);
    lemma_span_grows(bytes.len(), 7);
}

proof fn lemma_span_grows(a: nat, b: nat)
    requires
        a <= b,
    ensures
        bytes_span(a) <= bytes_span(b),
    decreases b,
{
    if a < b {
        lemma_span_grows(a, (b - 1) as nat);
    }
}

proof fn lemma_pack_span(bytes: Seq<u8>)
    ensures
        pack(bytes) < bytes_span(bytes.len()),
    decreases bytes.len(),
{
    if bytes.len() > 0 {
        lemma_pack_span(bytes.skip(1));
    }
}

/// A word fed whole is its eight bytes fed one at a time, wherever it falls.
pub proof fn law_a_word_is_its_bytes(k0: u64, k1: u64, c: nat, d: nat, before: Seq<u8>, w: u64)
    ensures
        sip(k0, k1, c, d, before + word_bytes(w)) == sip(
            k0,
            k1,
            c,
            d,
            word_bytes(w).fold_left(before, |s: Seq<u8>, b: u8| s.push(b)),
        ),
{
    reveal_with_fuel(Seq::fold_left, 9);
    let f = |s: Seq<u8>, b: u8| s.push(b);
    assert(word_bytes(w).fold_left(before, f) =~= before + word_bytes(w));
}

} // verus!
