//! Making values and reading them.

use crate::type_def::TypeId;
use crate::vm::bytecode::bits::{bit_at, get_bit, packed_bytes, read_bits, view_fits, window};
use crate::vm::bytecode::norm::text_of;
use crate::vm::bytecode::object::{
    all_fit, alloc_obj, Arena, BinaryBox, Body, ClosureBox, EnumBox, fits, is_object, MapBox, Object,
    SeqBox, Value,
};
use crate::vm::bytecode::release::{
    all_sound, deep_sound, gave_up_each, lemma_kids_sound, release_each, Freed,
};
use crate::vm::bytecode::seq::{array, array_elems, is_int};
use crate::vm::bytecode::tree::{refill, Shell, take_apart};
use crate::vm::bytecode::weight::{weight, weights};
use crate::vm::bytecode::word::{
    int_of, packed, PAYLOAD, socket_of, SocketValue, word_int, word_is_bool, word_is_float,
    word_is_int, word_is_pid, word_is_socket, word_is_subject, word_kind, word_socket, WordKind,
    VALUE_IMMORTAL,
};
use std::rc::Rc;
use vstd::prelude::*;
use vstd::utf8::encode_utf8;

verus! {

/// Copies of all values of a slice.
pub(crate) fn copied(vs: &[Value]) -> (r: Vec<Value>)
    ensures
        r@ == vs@,
{
    let mut out: Vec<Value> = Vec::new();
    let mut i: usize = 0;
    while i < vs.len()
        invariant
            i <= vs@.len(),
            out@ == vs@.take(i as int),
        decreases vs@.len() - i,
    {
        let v = vs[i].clone();
        out.push(v);
        proof {
            assert(vs@.take(i + 1) =~= vs@.take(i as int).push(vs@[i as int]));
        }
        i += 1;
    }
    proof {
        assert(vs@.take(i as int) =~= vs@);
    }
    out
}

/// Copies of all bytes of a slice.
fn copied_bytes(bytes: &[u8]) -> (r: Vec<u8>)
    ensures
        r@ == bytes@,
{
    let mut out: Vec<u8> = Vec::new();
    let mut i: usize = 0;
    while i < bytes.len()
        invariant
            i <= bytes@.len(),
            out@ == bytes@.take(i as int),
        decreases bytes@.len() - i,
    {
        out.push(bytes[i]);
        proof {
            assert(bytes@.take(i + 1) =~= bytes@.take(i as int).push(bytes@[i as int]));
        }
        i += 1;
    }
    proof {
        assert(bytes@.take(i as int) =~= bytes@);
    }
    out
}

/// The words of an object: its header and what its body takes.
fn words(fixed: usize, n: usize) -> (r: usize)
    ensures
        r == capped((fixed + n) as nat),
{
    fixed.saturating_add(n)
}

/// The words of a string: its header, its length, and its bytes, padded.
pub open spec fn text_size(s: Seq<char>) -> usize {
    capped(2 + (encode_utf8(s).len() + 7) / 8)
}

fn text_words(s: &str) -> (r: usize)
    ensures
        r == text_size(s@),
{
    let n: usize = s.as_bytes().len();
    let full: usize = n / 8;
    words(
        2,
        if n % 8 == 0 {
            full
        } else {
            full + 1
        },
    )
}

/// All parts, one after another.
pub open spec fn joined<T>(parts: Seq<Seq<T>>) -> Seq<T>
    decreases parts.len(),
{
    if parts.len() == 0 {
        Seq::empty()
    } else {
        joined(parts.drop_last()) + parts.last()
    }
}

pub open spec fn texts(parts: Seq<&str>) -> Seq<Seq<char>> {
    Seq::new(parts.len(), |i: int| parts[i]@)
}

pub open spec fn buffers(parts: Seq<&[u8]>) -> Seq<Seq<u8>> {
    Seq::new(parts.len(), |i: int| parts[i]@)
}

/// A cell kept for a constructor of its size, or none.
pub struct ReuseAddr {
    pub(crate) cell: Option<(Shell, usize)>,
}

impl ReuseAddr {
    /// A cell that can be filled.
    pub closed spec fn ok(self) -> bool {
        self.cell matches Some(p) ==> p.0.ok() && word_kind(p.0.bits) is Object
    }

    /// The size and word of the kept cell.
    pub closed spec fn kept(self) -> Option<(u64, usize)> {
        match self.cell {
            Some(p) => Some((p.0.bits, p.1)),
            None => None,
        }
    }

    /// No cell to reuse.
    pub fn none() -> (r: ReuseAddr)
        ensures
            r.ok(),
            r.kept() is None,
    {
        ReuseAddr { cell: None }
    }
}

/// An object in a kept cell of its size, or else a new one.
fn reuse_or_alloc<A: Arena>(a: &mut A, reuse: ReuseAddr, body: Body, size: usize) -> (r: Value)
    requires
        reuse.ok(),
        all_fit(old(a).immortal(), body.kids()),
        old(a).immortal() ==> reuse.kept() is None,
    ensures
        is_object(r, body, old(a).immortal()),
        fits(old(a).immortal(), r),
        reuse.kept() matches Some(p) ==> p.1 == size ==> r.bits == p.0,
        final(a).immortal() == old(a).immortal(),
{
    match reuse.cell {
        Some(p) => {
            let (shell, words) = p;
            if words == size {
                return refill(shell, body);
            }
            alloc_obj(a, body, size)
        },
        None => alloc_obj(a, body, size),
    }
}

/// The body of an enum value.
pub open spec fn enum_body(
    b: Body,
    type_id: TypeId,
    variant_idx: u16,
    hash: u64,
    enum_name: Value,
    variant_name: Value,
    labels: Value,
    payload: Seq<Value>,
) -> bool {
    b matches Body::Enum(e) && {
        &&& e.type_id == type_id
        &&& e.variant_idx == variant_idx
        &&& e.hash == hash
        &&& e.enum_name == enum_name
        &&& e.variant_name == variant_name
        &&& e.labels == labels
        &&& e.payload@ == payload
    }
}

/// A string value of the given text.
pub open spec fn is_text(v: Value, s: Seq<char>) -> bool {
    &&& v.sound()
    &&& word_kind(v.bits) is Object
    &&& v.body() is Some
    &&& v.body()->Some_0 is Str
    &&& text_of(v) == s
}

/// A tuple value of the given elements.
pub open spec fn is_tuple(v: Value, vs: Seq<Value>) -> bool {
    &&& v.sound()
    &&& v.obj is Some
    &&& v.body() matches Some(Body::Tuple(e)) && e@ == vs
}

/// A binary value of the given bits.
pub open spec fn is_binary(v: Value, bits: Seq<bool>) -> bool {
    &&& v.sound()
    &&& v.obj is Some
    &&& v.body() matches Some(Body::Binary(b)) && {
        &&& view_fits(b.backing@, b.bit_offset, b.bit_len)
        &&& window(b.backing@, b.bit_offset as int, b.bit_len as int) == bits
    }
}

impl Value {
    /// A string.
    pub fn str_in<A: Arena>(a: &mut A, s: &str) -> (r: Value)
        ensures
            is_text(r, s@),
            r.obj->Some_0.immortal == old(a).immortal(),
            fits(old(a).immortal(), r),
            final(a).immortal() == old(a).immortal(),
    {
        alloc_obj(a, Body::Str(s.to_string()), text_words(s))
    }

    /// The string of `parts`, one after another.
    pub fn str_from_parts_in<A: Arena>(a: &mut A, parts: &[&str]) -> (r: Value)
        ensures
            is_text(r, joined(texts(parts@))),
            r.obj->Some_0.immortal == old(a).immortal(),
            fits(old(a).immortal(), r),
            final(a).immortal() == old(a).immortal(),
    {
        let mut out = String::new();
        let mut i: usize = 0;
        proof {
            reveal_strlit("");
            assert(out@ =~= joined(texts(parts@).take(0)));
        }
        while i < parts.len()
            invariant
                i <= parts@.len(),
                out@ == joined(texts(parts@).take(i as int)),
            decreases parts@.len() - i,
        {
            let ghost before = out@;
            out.append(parts[i]);
            proof {
                let ps = texts(parts@);
                assert(ps.take(i + 1).drop_last() =~= ps.take(i as int));
                assert(ps.take(i + 1).last() == parts@[i as int]@);
            }
            i += 1;
        }
        proof {
            assert(texts(parts@).take(i as int) =~= texts(parts@));
        }
        let w = text_words(out.as_str());
        alloc_obj(a, Body::Str(out), w)
    }

    /// The range `start..end`.
    pub fn range_in<A: Arena>(a: &mut A, start: i64, end: i64) -> (r: Value)
        ensures
            is_object(r, Body::Range(start, end), old(a).immortal()),
            fits(old(a).immortal(), r),
            final(a).immortal() == old(a).immortal(),
    {
        alloc_obj(a, Body::Range(start, end), 3)
    }

    pub fn tuple_in<A: Arena>(a: &mut A, elements: &[Value]) -> (r: Value)
        requires
            all_fit(old(a).immortal(), elements@),
        ensures
            is_tuple(r, elements@),
            r.obj->Some_0.immortal == old(a).immortal(),
            fits(old(a).immortal(), r),
            final(a).immortal() == old(a).immortal(),
    {
        let vs = copied(elements);
        alloc_obj(a, Body::Tuple(vs), words(2, elements.len()))
    }

    /// The map of the host's environment.
    pub fn env_map_in<A: Arena>(a: &mut A) -> (r: Value)
        ensures
            is_object(r, Body::MapRoot(MapBox::Env), old(a).immortal()),
            fits(old(a).immortal(), r),
            final(a).immortal() == old(a).immortal(),
    {
        alloc_obj(a, Body::MapRoot(MapBox::Env), 2)
    }

    pub fn closure_in<A: Arena>(a: &mut A, func_idx: i32, captures: &[Value]) -> (r: Value)
        requires
            all_fit(old(a).immortal(), captures@),
        ensures
            r.sound(),
            r.obj is Some,
            r.obj->Some_0.immortal == old(a).immortal(),
            r.body() matches Some(Body::Closure(c)) && c.func_idx == func_idx && c.captures@
                == captures@,
            fits(old(a).immortal(), r),
            final(a).immortal() == old(a).immortal(),
    {
        let vs = copied(captures);
        alloc_obj(a, Body::Closure(ClosureBox { func_idx, captures: vs }), words(3, captures.len()))
    }

    /// The owning handle of a mailbox.
    pub fn owned_subject_in<A: Arena>(a: &mut A, id: u64) -> (r: Value)
        requires
            id <= PAYLOAD,
        ensures
            is_object(r, Body::Subject(id), old(a).immortal()),
            fits(old(a).immortal(), r),
            final(a).immortal() == old(a).immortal(),
    {
        alloc_obj(a, Body::Subject(id), 3)
    }

    /// A constructor applied to its payload, from values made before: strings
    /// for the names and a tuple of strings for the labels.
    ///
    /// `hash` is zero, for a hash to be worked out when it is asked for, or the
    /// value's hash.
    pub fn enum_in<A: Arena>(
        a: &mut A,
        type_id: TypeId,
        variant_idx: u16,
        hash: u64,
        enum_name: Value,
        variant_name: Value,
        labels: Value,
        payload: &[Value],
    ) -> (r: Value)
        requires
            all_fit(old(a).immortal(), payload@),
            fits(old(a).immortal(), enum_name),
            fits(old(a).immortal(), variant_name),
            fits(old(a).immortal(), labels),
        ensures
            r.sound(),
            r.obj is Some,
            r.obj->Some_0.immortal == old(a).immortal(),
            enum_body(
                r.body()->Some_0,
                type_id,
                variant_idx,
                hash,
                enum_name,
                variant_name,
                labels,
                payload@,
            ),
            fits(old(a).immortal(), r),
            final(a).immortal() == old(a).immortal(),
    {
        Value::enum_reuse_in(
            a,
            ReuseAddr::none(),
            type_id,
            variant_idx,
            hash,
            enum_name,
            variant_name,
            labels,
            payload,
        )
    }

    /// [`enum_in`](Self::enum_in), in the kept cell when there is one of the
    /// size.
    pub fn enum_reuse_in<A: Arena>(
        a: &mut A,
        reuse: ReuseAddr,
        type_id: TypeId,
        variant_idx: u16,
        hash: u64,
        enum_name: Value,
        variant_name: Value,
        labels: Value,
        payload: &[Value],
    ) -> (r: Value)
        requires
            reuse.ok(),
            old(a).immortal() ==> reuse.kept() is None,
            all_fit(old(a).immortal(), payload@),
            fits(old(a).immortal(), enum_name),
            fits(old(a).immortal(), variant_name),
            fits(old(a).immortal(), labels),
        ensures
            r.sound(),
            r.obj is Some,
            r.obj->Some_0.immortal == old(a).immortal(),
            enum_body(
                r.body()->Some_0,
                type_id,
                variant_idx,
                hash,
                enum_name,
                variant_name,
                labels,
                payload@,
            ),
            fits(old(a).immortal(), r),
            reuse.kept() matches Some(p) ==> p.1 == 7 + payload@.len() ==> r.bits == p.0,
            final(a).immortal() == old(a).immortal(),
    {
        let ghost imm = a.immortal();
        let vs = copied(payload);
        let size = words(7, payload.len());
        let body = Body::Enum(
            EnumBox {
                type_id,
                variant_idx,
                hash,
                enum_name,
                variant_name,
                labels,
                payload: vs,
            },
        );
        proof {
            let kids = body.kids();
            assert forall|i: int| 0 <= i < kids.len() implies fits(imm, #[trigger] kids[i]) by {
                if i >= 3 {
                    assert(fits(imm, payload@[i - 3]));
                }
            }
        }
        reuse_or_alloc(a, reuse, body, size)
    }

    /// The bits of `backing` from `bit_offset` on, without copying them.
    pub fn binary_view_in<A: Arena>(
        a: &mut A,
        backing: Rc<Vec<u8>>,
        bit_offset: u64,
        bit_len: u64,
    ) -> (r: Value)
        requires
            view_fits(backing@, bit_offset, bit_len),
        ensures
            is_object(
                r,
                Body::Binary(BinaryBox { backing, bit_offset, bit_len }),
                old(a).immortal(),
            ),
            is_binary(r, window(backing@, bit_offset as int, bit_len as int)),
            r.obj->Some_0.immortal == old(a).immortal(),
            fits(old(a).immortal(), r),
            final(a).immortal() == old(a).immortal(),
    {
        alloc_obj(a, Body::Binary(BinaryBox { backing, bit_offset, bit_len }), 5)
    }

    /// A whole buffer that is shared already.
    pub fn binary_from_arc_in<A: Arena>(a: &mut A, backing: Rc<Vec<u8>>, bit_len: u64) -> (r:
        Value)
        requires
            bit_len <= 8 * backing@.len(),
            bit_len + 8 <= u64::MAX,
        ensures
            is_binary(r, window(backing@, 0, bit_len as int)),
            r.obj->Some_0.immortal == old(a).immortal(),
            fits(old(a).immortal(), r),
            final(a).immortal() == old(a).immortal(),
    {
        Value::binary_view_in(a, backing, 0, bit_len)
    }

    /// The first `bit_len` bits of `bytes`.
    pub fn binary_bits_in<A: Arena>(a: &mut A, bytes: Vec<u8>, bit_len: u64) -> (r: Value)
        requires
            bit_len <= 8 * bytes@.len(),
            bit_len + 8 <= u64::MAX,
        ensures
            is_binary(r, window(bytes@, 0, bit_len as int)),
            r.obj->Some_0.immortal == old(a).immortal(),
            fits(old(a).immortal(), r),
            final(a).immortal() == old(a).immortal(),
    {
        Value::binary_from_arc_in(a, Rc::new(bytes), bit_len)
    }

    /// A binary of whole bytes.
    pub fn binary_in<A: Arena>(a: &mut A, bytes: Vec<u8>) -> (r: Value)
        requires
            8 * bytes@.len() + 8 <= u64::MAX,
        ensures
            is_binary(r, window(bytes@, 0, 8 * bytes@.len() as int)),
            r.obj->Some_0.immortal == old(a).immortal(),
            fits(old(a).immortal(), r),
            final(a).immortal() == old(a).immortal(),
    {
        let bit_len: u64 = bytes.len() as u64 * 8;
        Value::binary_bits_in(a, bytes, bit_len)
    }

    /// A binary of a copy of whole bytes.
    pub fn binary_from_slice_in<A: Arena>(a: &mut A, bytes: &[u8]) -> (r: Value)
        requires
            8 * bytes@.len() + 8 <= u64::MAX,
        ensures
            is_binary(r, window(bytes@, 0, 8 * bytes@.len() as int)),
            r.obj->Some_0.immortal == old(a).immortal(),
            fits(old(a).immortal(), r),
            final(a).immortal() == old(a).immortal(),
    {
        Value::binary_in(a, copied_bytes(bytes))
    }

    /// The buffers one after another, of which the first `bit_len` bits are
    /// the value. The bits after them in the last byte are cleared.
    pub fn binary_concat_parts_in<A: Arena>(a: &mut A, parts: &[&[u8]], bit_len: u64) -> (r: Value)
        requires
            bit_len <= 8 * joined(buffers(parts@)).len(),
            bit_len + 8 <= u64::MAX,
        ensures
            is_binary(r, window(joined(buffers(parts@)), 0, bit_len as int)),
            r.obj->Some_0.immortal == old(a).immortal(),
            fits(old(a).immortal(), r),
            final(a).immortal() == old(a).immortal(),
    {
        let mut out: Vec<u8> = Vec::new();
        let mut i: usize = 0;
        proof {
            assert(out@ =~= joined(buffers(parts@).take(0)));
        }
        while i < parts.len()
            invariant
                i <= parts@.len(),
                out@ == joined(buffers(parts@).take(i as int)),
            decreases parts@.len() - i,
        {
            let mut more = copied_bytes(parts[i]);
            out.append(&mut more);
            proof {
                let ps = buffers(parts@);
                assert(ps.take(i + 1).drop_last() =~= ps.take(i as int));
                assert(ps.take(i + 1).last() == parts@[i as int]@);
            }
            i += 1;
        }
        proof {
            assert(buffers(parts@).take(i as int) =~= buffers(parts@));
        }
        let ghost whole = out@;
        let k: u64 = bit_len % 8;
        if k != 0 {
            proof {
                assert(out@.len() == out.len());
            }
            let last: usize = (bit_len / 8) as usize;
            let cut: u8 = read_bits(out.as_slice(), bit_len - k, k);
            proof {
                lemma_tail_kept(whole, bit_len, cut);
            }
            out.set(last, cut);
        }
        Value::binary_bits_in(a, out, bit_len)
    }

    /// Whether nothing else refers to the value's object, so that it may be
    /// overwritten. Other values and frozen objects never are.
    ///
    /// That nothing else does is what `Rc::strong_count` says at the time.
    pub fn is_unique(&self) -> (r: bool)
        ensures
            r ==> self.obj is Some && word_kind(self.bits) is Object && self.bits & VALUE_IMMORTAL
                == 0,
    {
        match &self.obj {
            Some(o) => self.unique_at(references(o)),
            None => false,
        }
    }

    /// Whether the value's object may be overwritten when there are `count`
    /// references to it: it is an object, not frozen, and this is the only one.
    pub fn unique_at(&self, count: usize) -> (r: bool)
        ensures
            r == (word_kind(self.bits) is Object && self.obj is Some && self.bits & VALUE_IMMORTAL
                == 0 && count == 1),
    {
        self.is_heap() && self.obj.is_some() && !self.is_immortal() && count == 1
    }

    /// Keep the cell of an object that nothing else refers to for a constructor
    /// of its size. What it still held is given up.
    ///
    /// That nothing else does is what `Rc::try_unwrap` says; what is then kept
    /// is what [`kept_cell`] keeps.
    pub fn into_reuse_addr(self) -> (r: ReuseAddr)
        requires
            self.sound(),
        ensures
            r.ok(),
            r.kept() matches Some(p) ==> p.0 == self.bits && p.1 == size_of_body(
                self.body()->Some_0,
            ),
            r.kept() is Some ==> self.obj is Some && !self.obj->Some_0.immortal,
    {
        match &self.obj {
            Some(_) => {},
            None => {
                return ReuseAddr::none();
            },
        }
        match take_apart(self) {
            Ok(p) => {
                let (shell, body) = p;
                kept_cell(shell, body)
            },
            Err(_) => ReuseAddr::none(),
        }
    }

    /// Release the mortal children of an object that nothing else refers to,
    /// leaving zeros in their place. Any other value stays as it is.
    ///
    /// That nothing else does is what `Rc::try_unwrap` says; what is then done is
    /// what [`hollow_body`] does.
    pub fn hollow_for_reuse(&mut self, f: &mut Freed)
        requires
            deep_sound(*old(self)),
            old(f).pending + weight(*old(self)) <= u64::MAX,
        ensures
            final(self).sound(),
            final(self).bits == old(self).bits,
            *final(self) == *old(self) && final(f)@ == old(f)@ || {
                &&& old(self).obj is Some && final(self).obj is Some
                &&& !old(self).obj->Some_0.immortal
                &&& !final(self).obj->Some_0.immortal
                &&& hollow_of(old(self).body()->Some_0, final(self).body()->Some_0)
                &&& gave_up_each(old(f)@, old(self).body()->Some_0.kids(), final(f)@)
            },
    {
        match &self.obj {
            Some(_) => {},
            None => {
                return;
            },
        }
        proof {
            lemma_kids_sound(*self);
        }
        let mut taken = Value::nil();
        std::mem::swap(self, &mut taken);
        match take_apart(taken) {
            Ok(p) => {
                let (shell, body) = p;
                *self = refill(shell, hollow_body(body, f));
            },
            Err(same) => {
                *self = same;
            },
        }
    }
}

impl ReuseAddr {
    /// Free a kept cell that no constructor took.
    pub fn release(self, f: &mut Freed)
        requires
            old(f).pending < u64::MAX,
        ensures
            final(f).pending == old(f).pending + if self.kept() is Some {
                1int
            } else {
                0
            },
            final(f).total == old(f).total,
            final(f).closed@ == old(f).closed@,
    {
        if self.cell.is_some() {
            f.pending = f.pending + 1;
        }
    }
}

proof fn lemma_tail_kept(bytes: Seq<u8>, bit_len: u64, cut: u8)
    requires
        bit_len <= 8 * bytes.len(),
        bit_len % 8 != 0,
        cut == crate::vm::bytecode::bits::byte_of(
            window(bytes, bit_len - bit_len % 8, (bit_len % 8) as int),
        ),
    ensures
        window(bytes.update((bit_len / 8) as int, cut), 0, bit_len as int) == window(
            bytes,
            0,
            bit_len as int,
        ),
{
    let k = (bit_len % 8) as int;
    let last = (bit_len / 8) as int;
    let now = bytes.update(last, cut);
    let w = window(bytes, bit_len - k, k);
    assert forall|i: int| 0 <= i < bit_len implies bit_at(now, i) == bit_at(bytes, i) by {
        if i / 8 == last {
            lemma_byte_bits(w, i % 8);
            assert(w[i % 8] == bit_at(bytes, bit_len - k + i % 8));
        }
    }
    assert(window(now, 0, bit_len as int) =~= window(bytes, 0, bit_len as int));
}

/// The bits of the byte of a bit string are its first eight.
pub proof fn lemma_byte_bits(bits: Seq<bool>, i: int)
    requires
        0 <= i < 8,
        i < bits.len(),
    ensures
        crate::vm::bytecode::bits::byte_bit(crate::vm::bytecode::bits::byte_of(bits), i) == bits[i],
{
    lemma_byte_from(bits, 8, i);
}

proof fn lemma_byte_from(bits: Seq<bool>, n: nat, i: int)
    requires
        n <= 8,
        0 <= i < 8,
    ensures
        crate::vm::bytecode::bits::byte_bit(crate::vm::bytecode::bits::byte_from(bits, n), i) == (i
            < n && i < bits.len() && bits[i]),
    decreases n,
{
    let s = (7 - i) as u8;
    if n == 0 {
        assert((0u8 >> s) & 1 == 0) by (bit_vector);
    } else {
        lemma_byte_from(bits, (n - 1) as nat, i);
        let low = crate::vm::bytecode::bits::byte_from(bits, (n - 1) as nat);
        let t = (8 - n) as u8;
        let set = n <= bits.len() && bits[n - 1];
        lemma_or_bit(low, s, t);
    }
}

proof fn lemma_or_bit(low: u8, s: u8, t: u8)
    by (bit_vector)
    requires
        s < 8,
        t < 8,
    ensures
        (((low | (1u8 << t)) >> s) & 1 == 1) == ((low >> s) & 1 == 1 || s == t),
        ((low | 0u8) >> s) & 1 == (low >> s) & 1,
{
}

/// `Rc::strong_count`: how many references there are to the object now. What
/// it is depends on the program so far, so nothing is said of it.
#[verifier::external_body]
fn references(o: &Rc<Object>) -> (r: usize) {
    Rc::strong_count(o)
}

/// The cell of an object that was taken apart, kept for a constructor of its
/// size. What the object held is given up.
pub fn kept_cell(shell: Shell, body: Body) -> (r: ReuseAddr)
    requires
        shell.ok(),
        word_kind(shell.bits) is Object,
    ensures
        r.ok(),
        r.kept() == Some((shell.bits, size_of_body(body))),
{
    let size = body_size(&body);
    ReuseAddr { cell: Some((shell, size)) }
}

/// The words of an object.
pub open spec fn size_of_body(b: Body) -> usize {
    match b {
        Body::BigInt(_) => 2,
        Body::Range(_, _) => 3,
        Body::Str(s) => text_size(s@),
        Body::Binary(_) => 5,
        Body::Tuple(vs) => capped(2 + vs@.len()),
        Body::Enum(e) => capped(7 + e.payload@.len()),
        Body::Closure(c) => capped(3 + c.captures@.len()),
        Body::SeqRoot(_) => 6,
        Body::SeqLeaf(vs) => capped(2 + vs@.len()),
        Body::SeqBranch(b) => capped(3 + 2 * b.children@.len()),
        Body::MapRoot(MapBox::Env) => 2,
        Body::MapRoot(_) => 4,
        Body::HamtBranch(_, vs) => capped(2 + vs@.len()),
        Body::HamtEntry(_, _) => 3,
        Body::HamtCollision(_, vs) => capped(3 + vs@.len()),
        Body::Subject(_) => 3,
    }
}

pub open spec fn capped(n: nat) -> usize {
    if n > usize::MAX {
        usize::MAX
    } else {
        n as usize
    }
}

/// The words of an object.
fn body_size(b: &Body) -> (r: usize)
    ensures
        r == size_of_body(*b),
{
    match b {
        Body::BigInt(_) => 2,
        Body::Range(_, _) => 3,
        Body::Str(s) => text_words(s.as_str()),
        Body::Binary(_) => 5,
        Body::Tuple(vs) => vs.len().saturating_add(2),
        Body::Enum(e) => e.payload.len().saturating_add(7),
        Body::Closure(c) => c.captures.len().saturating_add(3),
        Body::SeqRoot(_) => 6,
        Body::SeqLeaf(vs) => vs.len().saturating_add(2),
        Body::SeqBranch(b) => b.children.len().saturating_add(b.children.len()).saturating_add(3),
        Body::MapRoot(MapBox::Env) => 2,
        Body::MapRoot(MapBox::Hamt { size, root }) => 4,
        Body::HamtBranch(_, vs) => vs.len().saturating_add(2),
        Body::HamtEntry(_, _) => 3,
        Body::HamtCollision(_, vs) => vs.len().saturating_add(3),
        Body::Subject(_) => 3,
    }
}

/// The children after a hollowing: what was a mortal object is zero, the rest
/// is as it was.
pub open spec fn hollowed(before: Seq<Value>, after: Seq<Value>) -> bool {
    &&& after.len() == before.len()
    &&& forall|i: int| 0 <= i < after.len() ==> is_hollow(before[i], #[trigger] after[i])
}

pub open spec fn is_hollow(before: Value, after: Value) -> bool {
    if word_kind(before.bits) is Object && !before.frozen() {
        is_int(after, 0)
    } else {
        after == before
    }
}

fn hollow(v: Value) -> (r: Value)
    ensures
        is_hollow(v, r),
{
    if v.is_heap() && !v.is_immortal() {
        Value::small_int(0)
    } else {
        v
    }
}

fn hollow_all(vs: Vec<Value>) -> (r: Vec<Value>)
    ensures
        hollowed(vs@, r@),
{
    let mut out: Vec<Value> = Vec::new();
    let mut i: usize = 0;
    while i < vs.len()
        invariant
            i <= vs@.len(),
            out@.len() == i,
            forall|k: int| 0 <= k < i ==> is_hollow(vs@[k], #[trigger] out@[k]),
        decreases vs@.len() - i,
    {
        out.push(hollow(vs[i].clone()));
        i += 1;
    }
    out
}

/// The same object over hollowed children: all else in it stays.
pub open spec fn hollow_of(b: Body, r: Body) -> bool {
    &&& hollowed(b.kids(), r.kids())
    &&& match (b, r) {
        (Body::BigInt(_), _) | (Body::Range(_, _), _) | (Body::Str(_), _) | (Body::Binary(_), _)
        | (Body::Subject(_), _) => r == b,
        (Body::Tuple(_), Body::Tuple(_)) => true,
        (Body::Enum(x), Body::Enum(y)) => x.type_id == y.type_id && x.variant_idx == y.variant_idx
            && x.hash == y.hash,
        (Body::Closure(x), Body::Closure(y)) => x.func_idx == y.func_idx,
        (Body::SeqRoot(x), Body::SeqRoot(y)) => x.len == y.len && x.shift == y.shift,
        (Body::SeqLeaf(_), Body::SeqLeaf(_)) => true,
        (Body::SeqBranch(x), Body::SeqBranch(y)) => x.shift == y.shift && x.sizes == y.sizes,
        (Body::MapRoot(MapBox::Env), _) => r == b,
        (
            Body::MapRoot(MapBox::Hamt { size, root }),
            Body::MapRoot(MapBox::Hamt { size: n, root: o }),
        ) => size == n,
        (Body::HamtBranch(x, _), Body::HamtBranch(y, _)) => x == y,
        (Body::HamtEntry(_, _), Body::HamtEntry(_, _)) => true,
        (Body::HamtCollision(x, _), Body::HamtCollision(y, _)) => x == y,
        _ => false,
    }
}

/// Release the mortal children of an object that was taken apart, in order, and
/// leave zeros in their place.
pub fn hollow_body(b: Body, f: &mut Freed) -> (r: Body)
    requires
        all_sound(b.kids()),
        old(f).pending + weights(b.kids()) <= u64::MAX,
    ensures
        hollow_of(b, r),
        gave_up_each(old(f)@, b.kids(), final(f)@),
        final(f).total == old(f).total,
        old(f).pending <= final(f).pending <= old(f).pending + weights(b.kids()),
{
    // The object lets go of its children first, so that these references are
    // the ones that count.
    let kids = children_of(&b);
    let r = emptied(b);
    release_each(kids, f);
    r
}

fn emptied(b: Body) -> (r: Body)
    ensures
        hollow_of(b, r),
{
    match b {
        Body::BigInt(i) => Body::BigInt(i),
        Body::Range(s, e) => Body::Range(s, e),
        Body::Str(s) => Body::Str(s),
        Body::Binary(x) => Body::Binary(x),
        Body::Subject(id) => Body::Subject(id),
        Body::Tuple(vs) => Body::Tuple(hollow_all(vs)),
        Body::Enum(e) => {
            let EnumBox { type_id, variant_idx, hash, enum_name, variant_name, labels, payload } =
                e;
            Body::Enum(
                EnumBox {
                    type_id,
                    variant_idx,
                    hash,
                    enum_name: hollow(enum_name),
                    variant_name: hollow(variant_name),
                    labels: hollow(labels),
                    payload: hollow_all(payload),
                },
            )
        },
        Body::Closure(c) => {
            let ClosureBox { func_idx, captures } = c;
            Body::Closure(ClosureBox { func_idx, captures: hollow_all(captures) })
        },
        Body::SeqRoot(s) => {
            let SeqBox { len, shift, head, tree, tail } = s;
            Body::SeqRoot(
                SeqBox { len, shift, head: hollow(head), tree: hollow(tree), tail: hollow(tail) },
            )
        },
        Body::SeqLeaf(vs) => Body::SeqLeaf(hollow_all(vs)),
        Body::SeqBranch(x) => {
            let crate::vm::bytecode::object::BranchBox { shift, sizes, children } = x;
            Body::SeqBranch(
                crate::vm::bytecode::object::BranchBox {
                    shift,
                    sizes,
                    children: hollow_all(children),
                },
            )
        },
        Body::MapRoot(MapBox::Env) => Body::MapRoot(MapBox::Env),
        Body::MapRoot(MapBox::Hamt { size, root }) => Body::MapRoot(
            MapBox::Hamt { size, root: hollow(root) },
        ),
        Body::HamtBranch(bitmap, vs) => Body::HamtBranch(bitmap, hollow_all(vs)),
        Body::HamtEntry(k, v) => Body::HamtEntry(hollow(k), hollow(v)),
        Body::HamtCollision(h, vs) => Body::HamtCollision(h, hollow_all(vs)),
    }
}

/// A view of a binary.
pub struct BinaryRef<'a> {
    pub b: &'a BinaryBox,
}

/// A view of a closure.
pub struct ClosureRef<'a> {
    pub c: &'a ClosureBox,
}

/// A view of an enum value.
pub struct EnumRef<'a> {
    pub e: &'a EnumBox,
}

/// A view of a map.
pub struct MapRef<'a> {
    pub m: &'a MapBox,
}

/// A view of an array.
pub struct SeqRef<'a> {
    pub root: &'a Value,
}

/// How a map sources its entries.
#[derive(Clone, Copy, PartialEq, Eq, Structural, Debug)]
pub enum MapBacking {
    Env,
    Hamt,
}

/// What a value is. A boxed int is an int, and either form of a mailbox handle
/// is one.
pub enum ValueView<'a> {
    Int(i64),
    /// A float's bits.
    Float(u64),
    Bool(bool),
    Nil,
    Socket(SocketValue),
    Subject(u64),
    Pid(u64),
    Str(&'a str),
    Range(i64, i64),
    Binary(BinaryRef<'a>),
    Tuple(&'a [Value]),
    Enum(EnumRef<'a>),
    Closure(ClosureRef<'a>),
    Array(SeqRef<'a>),
    MapView(MapRef<'a>),
}

/// A vector's or a trie's node, which no program holds.
pub open spec fn internal(b: Body) -> bool {
    b is SeqLeaf || b is SeqBranch || b is HamtBranch || b is HamtEntry || b is HamtCollision
}

/// What [`Value::kind`] says of a value.
pub open spec fn viewed(v: Value, r: ValueView) -> bool {
    match word_kind(v.bits) {
        WordKind::Int => r matches ValueView::Int(i) && i == int_of(v.bits),
        WordKind::Float => r matches ValueView::Float(x) && x == v.bits,
        WordKind::Bool => r matches ValueView::Bool(x) && (x <==> v.bits & 1 == 1),
        WordKind::Socket => r matches ValueView::Socket(s) && s == socket_of(v.bits),
        WordKind::Subject => r matches ValueView::Subject(id) && id == v.bits & PAYLOAD,
        WordKind::Pid => r matches ValueView::Pid(id) && id == v.bits & PAYLOAD,
        WordKind::Nil => r is Nil,
        WordKind::Object => match v.body()->Some_0 {
            Body::BigInt(i) => r matches ValueView::Int(j) && i == j,
            Body::Range(s, e) => r matches ValueView::Range(x, y) && x == s && y == e,
            Body::Str(s) => r matches ValueView::Str(t) && t@ == s@,
            Body::Binary(b) => r matches ValueView::Binary(x) && *x.b == b,
            Body::Tuple(vs) => r matches ValueView::Tuple(x) && x@ == vs@,
            Body::Enum(e) => r matches ValueView::Enum(x) && *x.e == e,
            Body::Closure(c) => r matches ValueView::Closure(x) && *x.c == c,
            Body::SeqRoot(_) => r matches ValueView::Array(x) && *x.root == v,
            Body::MapRoot(m) => r matches ValueView::MapView(x) && *x.m == m,
            Body::Subject(id) => r matches ValueView::Subject(x) && x == id,
            _ => true,
        },
    }
}

impl Value {
    /// What the value is.
    pub fn kind(&self) -> (r: ValueView<'_>)
        requires
            self.sound(),
            self.body() is Some ==> !internal(self.body()->Some_0),
        ensures
            viewed(*self, r),
    {
        if word_is_int(self.bits) {
            return ValueView::Int(word_int(self.bits));
        }
        if word_is_float(self.bits) {
            return ValueView::Float(self.bits);
        }
        if word_is_bool(self.bits) {
            return ValueView::Bool(self.bits & 1 == 1);
        }
        if word_is_socket(self.bits) {
            return ValueView::Socket(word_socket(self.bits));
        }
        if word_is_subject(self.bits) {
            return ValueView::Subject(self.bits & PAYLOAD);
        }
        if word_is_pid(self.bits) {
            return ValueView::Pid(self.bits & PAYLOAD);
        }
        match &self.obj {
            Some(o) => match &o.body {
                Body::BigInt(i) => ValueView::Int(*i),
                Body::Range(s, e) => ValueView::Range(*s, *e),
                Body::Str(s) => ValueView::Str(s.as_str()),
                Body::Binary(b) => ValueView::Binary(BinaryRef { b }),
                Body::Tuple(vs) => ValueView::Tuple(vs.as_slice()),
                Body::Enum(e) => ValueView::Enum(EnumRef { e }),
                Body::Closure(c) => ValueView::Closure(ClosureRef { c }),
                Body::SeqRoot(_) => ValueView::Array(SeqRef { root: self }),
                Body::MapRoot(m) => ValueView::MapView(MapRef { m }),
                Body::Subject(id) => ValueView::Subject(*id),
                _ => vstd::pervasive::unreached(),
            },
            None => ValueView::Nil,
        }
    }

    /// The int of an int value.
    pub fn as_int(&self) -> (r: Option<i64>)
        requires
            self.sound(),
        ensures
            r is Some <==> word_kind(self.bits) is Int || self.body() is Some
                && self.body()->Some_0 is BigInt,
            r matches Some(i) ==> i == if word_kind(self.bits) is Int {
                int_of(self.bits)
            } else {
                self.body()->Some_0->BigInt_0 as int
            },
    {
        if word_is_int(self.bits) {
            return Some(word_int(self.bits));
        }
        match &self.obj {
            Some(o) => match &o.body {
                Body::BigInt(i) => Some(*i),
                _ => None,
            },
            None => None,
        }
    }

    /// The int of a value known to be one.
    pub fn as_int_typed(&self) -> (r: i64)
        requires
            self.sound(),
            word_kind(self.bits) is Int || self.body() is Some && self.body()->Some_0 is BigInt,
        ensures
            r == if word_kind(self.bits) is Int {
                int_of(self.bits)
            } else {
                self.body()->Some_0->BigInt_0 as int
            },
    {
        match self.as_int() {
            Some(i) => i,
            None => vstd::pervasive::unreached(),
        }
    }

    /// A float value's bits.
    pub fn as_float(&self) -> (r: Option<u64>)
        ensures
            r == if word_kind(self.bits) is Float {
                Some(self.bits)
            } else {
                None
            },
    {
        if word_is_float(self.bits) {
            Some(self.bits)
        } else {
            None
        }
    }

    pub fn as_bool(&self) -> (r: Option<bool>)
        ensures
            r == if word_kind(self.bits) is Bool {
                Some(self.bits & 1 == 1)
            } else {
                None
            },
    {
        if word_is_bool(self.bits) {
            Some(self.bits & 1 == 1)
        } else {
            None
        }
    }

    pub fn as_socket(&self) -> (r: Option<SocketValue>)
        ensures
            r == if word_kind(self.bits) is Socket {
                Some(socket_of(self.bits))
            } else {
                None
            },
    {
        if word_is_socket(self.bits) {
            Some(word_socket(self.bits))
        } else {
            None
        }
    }

    /// The mailbox id of either form of handle.
    pub fn as_subject(&self) -> (r: Option<u64>)
        requires
            self.sound(),
        ensures
            r == if word_kind(self.bits) is Subject {
                Some(self.bits & PAYLOAD)
            } else {
                match self.body() {
                    Some(Body::Subject(id)) => Some(id),
                    _ => None,
                }
            },
    {
        if word_is_subject(self.bits) {
            return Some(self.bits & PAYLOAD);
        }
        match &self.obj {
            Some(o) => match &o.body {
                Body::Subject(id) => Some(*id),
                _ => None,
            },
            None => None,
        }
    }

    pub fn as_pid(&self) -> (r: Option<u64>)
        ensures
            r == if word_kind(self.bits) is Pid {
                Some(self.bits & PAYLOAD)
            } else {
                None
            },
    {
        if word_is_pid(self.bits) {
            Some(self.bits & PAYLOAD)
        } else {
            None
        }
    }

    /// The text of a string value.
    pub fn as_str(&self) -> (r: Option<&str>)
        ensures
            r is Some <==> self.body() is Some && self.body()->Some_0 is Str,
            r matches Some(s) ==> s@ == text_of(*self),
    {
        match &self.obj {
            Some(o) => match &o.body {
                Body::Str(s) => Some(s.as_str()),
                _ => None,
            },
            None => None,
        }
    }

    pub fn as_range(&self) -> (r: Option<(i64, i64)>)
        ensures
            r == match self.body() {
                Some(Body::Range(s, e)) => Some((s, e)),
                _ => None,
            },
    {
        match &self.obj {
            Some(o) => match &o.body {
                Body::Range(s, e) => Some((*s, *e)),
                _ => None,
            },
            None => None,
        }
    }

    pub fn as_tuple(&self) -> (r: Option<&[Value]>)
        ensures
            r is Some <==> self.body() is Some && self.body()->Some_0 is Tuple,
            r matches Some(s) ==> s@ == self.body()->Some_0->Tuple_0@,
    {
        match &self.obj {
            Some(o) => match &o.body {
                Body::Tuple(vs) => Some(vs.as_slice()),
                _ => None,
            },
            None => None,
        }
    }

    pub fn as_array(&self) -> (r: Option<SeqRef<'_>>)
        ensures
            r is Some <==> self.body() is Some && self.body()->Some_0 is SeqRoot,
            r matches Some(s) ==> *s.root == *self,
    {
        match &self.obj {
            Some(o) => match &o.body {
                Body::SeqRoot(_) => Some(SeqRef { root: self }),
                _ => None,
            },
            None => None,
        }
    }

    pub fn as_binary(&self) -> (r: Option<BinaryRef<'_>>)
        ensures
            r is Some <==> self.body() is Some && self.body()->Some_0 is Binary,
            r matches Some(x) ==> *x.b == self.body()->Some_0->Binary_0,
    {
        match &self.obj {
            Some(o) => match &o.body {
                Body::Binary(b) => Some(BinaryRef { b }),
                _ => None,
            },
            None => None,
        }
    }

    pub fn as_closure(&self) -> (r: Option<ClosureRef<'_>>)
        ensures
            r is Some <==> self.body() is Some && self.body()->Some_0 is Closure,
            r matches Some(x) ==> *x.c == self.body()->Some_0->Closure_0,
    {
        match &self.obj {
            Some(o) => match &o.body {
                Body::Closure(c) => Some(ClosureRef { c }),
                _ => None,
            },
            None => None,
        }
    }

    pub fn as_enum(&self) -> (r: Option<EnumRef<'_>>)
        ensures
            r is Some <==> self.body() is Some && self.body()->Some_0 is Enum,
            r matches Some(x) ==> *x.e == self.body()->Some_0->Enum_0,
    {
        match &self.obj {
            Some(o) => match &o.body {
                Body::Enum(e) => Some(EnumRef { e }),
                _ => None,
            },
            None => None,
        }
    }

    /// Field `idx` of a value known to be an enum with that many fields.
    pub fn enum_field_typed(&self, idx: usize) -> (r: Value)
        requires
            self.body() matches Some(Body::Enum(e)) && idx < e.payload@.len(),
        ensures
            r == self.body()->Some_0->Enum_0.payload@[idx as int],
    {
        match self.as_enum() {
            Some(x) => x.e.payload[idx].clone(),
            None => vstd::pervasive::unreached(),
        }
    }

    /// The value slots of the value's object, in layout order; none when it is
    /// no object.
    pub fn children(&self) -> (r: Vec<Value>)
        ensures
            r@ == match self.body() {
                Some(b) => b.kids(),
                None => Seq::empty(),
            },
    {
        match &self.obj {
            Some(o) => children_of(&o.body),
            None => Vec::new(),
        }
    }
}

/// The value slots of an object, in layout order.
pub(crate) fn children_of(b: &Body) -> (r: Vec<Value>)
    ensures
        r@ == b.kids(),
{
    let mut out: Vec<Value> = Vec::new();
    match b {
        Body::BigInt(_) | Body::Range(_, _) | Body::Str(_) | Body::Binary(_) | Body::Subject(_) => {},
        Body::Tuple(vs) => {
            out = copied(vs.as_slice());
        },
        Body::Enum(e) => {
            out.push(e.enum_name.clone());
            out.push(e.variant_name.clone());
            out.push(e.labels.clone());
            let mut more = copied(e.payload.as_slice());
            out.append(&mut more);
        },
        Body::Closure(c) => {
            out = copied(c.captures.as_slice());
        },
        Body::SeqRoot(s) => {
            out.push(s.head.clone());
            out.push(s.tree.clone());
            out.push(s.tail.clone());
        },
        Body::SeqLeaf(vs) => {
            out = copied(vs.as_slice());
        },
        Body::SeqBranch(x) => {
            out = copied(x.children.as_slice());
        },
        Body::MapRoot(MapBox::Env) => {},
        Body::MapRoot(MapBox::Hamt { size, root }) => {
            out.push(root.clone());
        },
        Body::HamtBranch(_, vs) => {
            out = copied(vs.as_slice());
        },
        Body::HamtEntry(k, v) => {
            out.push(k.clone());
            out.push(v.clone());
        },
        Body::HamtCollision(_, vs) => {
            out = copied(vs.as_slice());
        },
    }
    proof {
        assert(out@ =~= b.kids());
    }
    out
}

impl<'a> ClosureRef<'a> {
    pub fn func_idx(&self) -> (r: i32)
        ensures
            r == self.c.func_idx,
    {
        self.c.func_idx
    }

    pub fn captures(&self) -> (r: &'a [Value])
        ensures
            r@ == self.c.captures@,
    {
        self.c.captures.as_slice()
    }
}

impl<'a> MapRef<'a> {
    pub fn backing(&self) -> (r: MapBacking)
        ensures
            r == match *self.m {
                MapBox::Env => MapBacking::Env,
                MapBox::Hamt { size, root } => MapBacking::Hamt,
            },
    {
        match self.m {
            MapBox::Env => MapBacking::Env,
            MapBox::Hamt { size, root } => MapBacking::Hamt,
        }
    }
}

impl<'a> EnumRef<'a> {
    pub fn type_id(&self) -> (r: TypeId)
        ensures
            r == self.e.type_id,
    {
        self.e.type_id
    }

    /// The constructor's place in its type's declaration.
    pub fn variant_idx(&self) -> (r: u16)
        ensures
            r == self.e.variant_idx,
    {
        self.e.variant_idx
    }

    /// The packed identity of the constructor, which matches compare.
    pub fn variant_tag(&self) -> (r: i64)
        ensures
            r == packed(self.e.type_id, self.e.variant_idx),
    {
        crate::vm::bytecode::word::pack_variant(self.e.type_id, self.e.variant_idx)
    }

    /// The stored hash; zero means "not computed yet".
    pub fn stored_hash(&self) -> (r: u64)
        ensures
            r == self.e.hash,
    {
        self.e.hash
    }

    /// The type's name. The name must be a string value.
    pub fn enum_name(&self) -> (r: &'a str)
        requires
            self.e.enum_name.body() is Some,
            self.e.enum_name.body()->Some_0 is Str,
        ensures
            r@ == text_of(self.e.enum_name),
    {
        match self.e.enum_name.as_str() {
            Some(s) => s,
            None => vstd::pervasive::unreached(),
        }
    }

    /// The constructor's name. The name must be a string value.
    pub fn variant_name(&self) -> (r: &'a str)
        requires
            self.e.variant_name.body() is Some,
            self.e.variant_name.body()->Some_0 is Str,
        ensures
            r@ == text_of(self.e.variant_name),
    {
        match self.e.variant_name.as_str() {
            Some(s) => s,
            None => vstd::pervasive::unreached(),
        }
    }

    /// The fields' labels, which must be a tuple value; none for a constructor
    /// without labels.
    pub fn field_labels(&self) -> (r: &'a [Value])
        requires
            self.e.labels.body() is Some,
            self.e.labels.body()->Some_0 is Tuple,
        ensures
            r@ == self.e.labels.body()->Some_0->Tuple_0@,
    {
        match self.e.labels.as_tuple() {
            Some(s) => s,
            None => vstd::pervasive::unreached(),
        }
    }

    pub fn payload(&self) -> (r: &'a [Value])
        ensures
            r@ == self.e.payload@,
    {
        self.e.payload.as_slice()
    }
}

impl<'a> SeqRef<'a> {
    pub fn len(&self) -> (r: usize)
        requires
            array(*self.root),
        ensures
            r == array_elems(*self.root).len(),
    {
        crate::vm::bytecode::seq::len(self.root)
    }

    pub fn is_empty(&self) -> (r: bool)
        requires
            array(*self.root),
        ensures
            r == (array_elems(*self.root).len() == 0),
    {
        self.len() == 0
    }

    /// The element at a position, or none past the end.
    pub fn get(&self, i: usize) -> (r: Option<Value>)
        requires
            array(*self.root),
        ensures
            r == if i < array_elems(*self.root).len() {
                Some(array_elems(*self.root)[i as int])
            } else {
                None
            },
    {
        crate::vm::bytecode::seq::get(self.root, i)
    }
}

impl<'a> BinaryRef<'a> {
    /// The bits that the view shows.
    pub open spec fn bits(&self) -> Seq<bool> {
        window(self.b.backing@, self.b.bit_offset as int, self.b.bit_len as int)
    }

    /// The bits shown are bits of the buffer.
    pub open spec fn ok(&self) -> bool {
        view_fits(self.b.backing@, self.b.bit_offset, self.b.bit_len)
    }

    pub fn bit_offset(&self) -> (r: u64)
        ensures
            r == self.b.bit_offset,
    {
        self.b.bit_offset
    }

    pub fn bit_len(&self) -> (r: u64)
        ensures
            r == self.b.bit_len,
    {
        self.b.bit_len
    }

    /// The whole shared buffer, not just what the view shows of it.
    pub fn backing(&self) -> (r: &'a [u8])
        ensures
            r@ == self.b.backing@,
    {
        self.b.backing.as_slice()
    }

    /// A share of the buffer.
    pub fn backing_arc(&self) -> (r: Rc<Vec<u8>>)
        ensures
            r@ == self.b.backing@,
    {
        self.b.backing.clone()
    }

    /// The shown bits as bytes, the last one padded with clear bits.
    pub fn to_aligned_vec(&self) -> (r: Vec<u8>)
        requires
            self.ok(),
        ensures
            r@ == packed_bytes(self.bits()),
    {
        let bytes = self.backing();
        let len: u64 = self.bit_len();
        let at: u64 = self.bit_offset();
        let ghost all = self.bits();
        let mut out: Vec<u8> = Vec::new();
        let mut done: u64 = 0;
        proof {
            assert(all.skip(0) =~= all);
        }
        while done < len
            invariant
                done <= len,
                bytes@ == self.b.backing@,
                len == self.b.bit_len,
                at == self.b.bit_offset,
                all == self.bits(),
                view_fits(bytes@, at, len),
                out@ + packed_bytes(all.skip(done as int)) == packed_bytes(all),
            decreases len - done,
        {
            let k: u64 = if len - done > 8 {
                8
            } else {
                len - done
            };
            let b: u8 = read_bits(bytes, at + done, k);
            let ghost rest = all.skip(done as int);
            proof {
                let w = window(bytes@, at + done, k as int);
                assert(w =~= rest.take(k as int));
                lemma_byte_prefix(rest, k as int);
                if rest.len() > 8 {
                    assert(rest.skip(8) =~= all.skip(done + k));
                } else {
                    assert(all.skip(done + k) =~= Seq::empty());
                }
                assert(packed_bytes(rest) =~= seq![b] + packed_bytes(all.skip(done + k)));
            }
            let ghost before = out@;
            out.push(b);
            proof {
                assert(out@ + packed_bytes(all.skip(done + k)) =~= before + packed_bytes(rest));
            }
            done = done + k;
        }
        proof {
            assert(all.skip(done as int) =~= Seq::empty());
            assert(out@ + packed_bytes(all.skip(done as int)) =~= out@);
        }
        out
    }

    /// The whole bytes shown, without a partial last one.
    pub fn full_bytes(&self) -> (r: Vec<u8>)
        requires
            self.ok(),
        ensures
            r@ == crate::vm::bytecode::norm::full_bytes(self.bits()),
    {
        let bytes = self.backing();
        let full: u64 = self.bit_len() / 8;
        let at: u64 = self.bit_offset();
        let ghost all = self.bits();
        let mut out: Vec<u8> = Vec::new();
        let mut i: u64 = 0;
        while i < full
            invariant
                i <= full,
                bytes@ == self.b.backing@,
                full == self.b.bit_len / 8,
                at == self.b.bit_offset,
                all == self.bits(),
                self.ok(),
                    out@ == crate::vm::bytecode::norm::full_bytes(all).take(i as int),
            decreases full - i,
        {
            let b: u8 = read_bits(bytes, at + 8 * i, 8);
            proof {
                assert(window(bytes@, at + 8 * i, 8) =~= all.subrange(8 * i, 8 * i + 8));
            }
            out.push(b);
            proof {
                assert(crate::vm::bytecode::norm::full_bytes(all).take(i + 1) =~= out@);
            }
            i = i + 1;
        }
        proof {
            assert(crate::vm::bytecode::norm::full_bytes(all).take(i as int)
                =~= crate::vm::bytecode::norm::full_bytes(all));
        }
        out
    }

    /// Whether the bits from `at` on begin with all of `prefix`'s. Out of range
    /// they do not.
    pub fn starts_with_at(&self, at: u64, prefix: &BinaryRef<'_>) -> (r: bool)
        requires
            self.ok(),
            prefix.ok(),
        ensures
            r == (at + prefix.bits().len() <= self.bits().len() && self.bits().subrange(
                at as int,
                at + prefix.bits().len(),
            ) == prefix.bits()),
    {
        let n: u64 = prefix.bit_len();
        if n > self.bit_len() || at > self.bit_len() - n {
            return false;
        }
        let abs: u64 = self.bit_offset() + at;
        let from: u64 = prefix.bit_offset();
        let sb = self.backing();
        let pb = prefix.backing();
        let ghost part = self.bits().subrange(at as int, at + n);
        let mut i: u64 = 0;
        while i < n
            invariant
                i <= n,
                n == prefix.b.bit_len,
                abs == self.b.bit_offset + at,
                from == prefix.b.bit_offset,
                abs + n <= u64::MAX,
                from + n <= u64::MAX,
                at + n <= self.b.bit_len,
                sb@ == self.b.backing@,
                pb@ == prefix.b.backing@,
                part == self.bits().subrange(at as int, at + n),
                forall|k: int| 0 <= k < i ==> #[trigger] part[k] == prefix.bits()[k],
            decreases n - i,
        {
            let x = get_bit(sb, abs + i);
            let y = get_bit(pb, from + i);
            proof {
                assert(part[i as int] == x);
                assert(prefix.bits()[i as int] == y);
            }
            if x != y {
                return false;
            }
            i = i + 1;
        }
        proof {
            assert(part =~= prefix.bits());
        }
        true
    }

    /// Whether two views show the same bits, wherever they are kept.
    pub fn bits_eq(&self, other: &BinaryRef<'_>) -> (r: bool)
        requires
            self.ok(),
            other.ok(),
        ensures
            r == (self.bits() == other.bits()),
    {
        if self.bit_len() != other.bit_len() {
            proof {
                assert(self.bits().len() != other.bits().len());
            }
            return false;
        }
        let r = self.starts_with_at(0, other);
        proof {
            assert(self.bits().subrange(0, self.bits().len() as int) =~= self.bits());
        }
        r
    }
}

/// A byte is made of no more than eight bits.
proof fn lemma_byte_prefix(bits: Seq<bool>, k: int)
    requires
        0 <= k <= bits.len(),
        k == 8 || k == bits.len(),
    ensures
        crate::vm::bytecode::bits::byte_of(bits.take(k)) == crate::vm::bytecode::bits::byte_of(bits),
{
    if k == bits.len() {
        assert(bits.take(k) =~= bits);
    } else {
        lemma_byte_from_prefix(bits, 8);
    }
}

proof fn lemma_byte_from_prefix(bits: Seq<bool>, n: nat)
    requires
        n <= 8 <= bits.len(),
    ensures
        crate::vm::bytecode::bits::byte_from(bits.take(8), n)
            == crate::vm::bytecode::bits::byte_from(bits, n),
    decreases n,
{
    if n > 0 {
        lemma_byte_from_prefix(bits, (n - 1) as nat);
    }
}

} // verus!
