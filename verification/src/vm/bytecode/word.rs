//! The value word.
//!
//! A value is one 64-bit word. A bit pattern that is no quiet NaN is a plain
//! float; no NaN ever enters a word as a float, so the whole quiet-NaN space is
//! free for tagging. A tagged word sets the quiet-NaN bits, tells kinds apart
//! by its top 16 bits, and carries a sign-extended small int, a bool, a handle
//! or an object address in the low 48.

use crate::type_def::TypeId;
use vstd::prelude::*;

verus! {

/// Quiet-NaN signature. A word carrying it is a tagged value, never a float.
pub const QNAN: u64 = 0x7FF8_0000_0000_0000;

pub const SIGN: u64 = 0x8000_0000_0000_0000;

/// Low 48 bits: small-int value, bool, handle, or object address.
pub const PAYLOAD: u64 = 0x0000_FFFF_FFFF_FFFF;

/// Top-16-bit headers for non-float values, all with the quiet-NaN bits.
pub const HDR_MASK: u64 = 0xFFFF_0000_0000_0000;

pub const HDR_INT: u64 = 0x7FF9_0000_0000_0000;

pub const HDR_BOOL: u64 = 0x7FFA_0000_0000_0000;

pub const HDR_NIL: u64 = 0x7FFB_0000_0000_0000;

pub const HDR_SOCKET: u64 = 0x7FFC_0000_0000_0000;

pub const HDR_SUBJECT: u64 = 0x7FFD_0000_0000_0000;

pub const HDR_PID: u64 = 0x7FFE_0000_0000_0000;

/// The sign bit makes the test for objects disjoint from the immediate headers
/// above, which leave it clear.
pub const HDR_PTR: u64 = 0xFFF8_0000_0000_0000;

/// Immortality marker in the word itself: the lowest payload bit, free because
/// object addresses are multiples of eight.
pub const VALUE_IMMORTAL: u64 = 1;

/// Payload of an object word without the marker: the object's address.
pub const PTR_PAYLOAD: u64 = 0x0000_FFFF_FFFF_FFFE;

/// Inclusive bounds of the 48-bit signed small-int range.
pub const SMALL_INT_MIN: i64 = -0x8000_0000_0000;

pub const SMALL_INT_MAX: i64 = 0x7FFF_FFFF_FFFF;

/// The exponent bits of a float; all set in infinities and NaNs only.
pub const EXPONENT: u64 = 0x7FF0_0000_0000_0000;

/// What a [`SocketValue`] denotes. A connection and a port are both stream
/// endpoints in the connection table and travel with their controlling
/// process; a listener is one program-wide socket that every scheduler reaches
/// by id.
#[derive(Debug, Clone, Copy, PartialEq, Eq, Structural)]
pub enum SocketKind {
    Connection,
    Listener,
    Port,
    /// A connection whose stream is encrypted. Separate from `Connection` so a
    /// handle cannot be replayed against an entry of the other sort.
    Tls,
}

impl SocketKind {
    pub open spec fn spec_discriminant(self) -> u64 {
        match self {
            SocketKind::Connection => 0,
            SocketKind::Listener => 1,
            SocketKind::Port => 2,
            SocketKind::Tls => 3,
        }
    }

    /// The value the two-bit kind field holds.
    pub fn discriminant(self) -> (r: u64)
        ensures
            r == self.spec_discriminant(),
            r <= 3,
    {
        match self {
            SocketKind::Connection => 0,
            SocketKind::Listener => 1,
            SocketKind::Port => 2,
            SocketKind::Tls => 3,
        }
    }
}

/// The handle inside a server, a socket, or a port: an id into the owning
/// scheduler's tables, plus which table and which operations apply.
#[derive(Debug, Clone, Copy, PartialEq, Eq, Structural)]
pub struct SocketValue {
    pub id: i32,
    pub kind: SocketKind,
}

impl SocketValue {
    /// Whether this handle lives in a scheduler's connection table (and so
    /// moves with its process), as opposed to naming the shared listener.
    pub fn is_stream(self) -> (r: bool)
        ensures
            r == !(self.kind is Listener),
    {
        match self.kind {
            SocketKind::Connection | SocketKind::Port | SocketKind::Tls => true,
            SocketKind::Listener => false,
        }
    }
}

/// What a word is, by its bits.
pub enum WordKind {
    Int,
    Float,
    Bool,
    Socket,
    Subject,
    Pid,
    Object,
    Nil,
}

pub open spec fn word_kind(w: u64) -> WordKind {
    if w & HDR_MASK == HDR_INT {
        WordKind::Int
    } else if w & QNAN != QNAN {
        WordKind::Float
    } else if w & HDR_MASK == HDR_BOOL {
        WordKind::Bool
    } else if w & HDR_MASK == HDR_SOCKET {
        WordKind::Socket
    } else if w & HDR_MASK == HDR_SUBJECT {
        WordKind::Subject
    } else if w & HDR_MASK == HDR_PID {
        WordKind::Pid
    } else if w & HDR_PTR == HDR_PTR {
        WordKind::Object
    } else {
        WordKind::Nil
    }
}

/// The number in a small-int word: its payload, sign-extended.
pub open spec fn int_of(w: u64) -> int {
    let p = w & PAYLOAD;
    if p < 0x8000_0000_0000 {
        p as int
    } else {
        p - 0x1_0000_0000_0000
    }
}

/// A 32-bit field read as two's complement.
pub open spec fn signed32(x: u64) -> i32 {
    if x < 0x8000_0000 {
        x as i32
    } else {
        (x - 0x1_0000_0000) as i32
    }
}

pub open spec fn socket_of(w: u64) -> SocketValue {
    let k = (w & 0x3_0000_0000) >> 32;
    SocketValue {
        id: signed32(w & 0xFFFF_FFFF),
        kind: if k == 0 {
            SocketKind::Connection
        } else if k == 1 {
            SocketKind::Listener
        } else if k == 2 {
            SocketKind::Port
        } else {
            SocketKind::Tls
        },
    }
}

/// A float word that is no infinity and no NaN.
pub open spec fn finite(bits: u64) -> bool {
    bits & EXPONENT != EXPONENT
}

proof fn lemma_apart(w: u64)
    by (bit_vector)
    ensures
        w & 0xFFFF_0000_0000_0000 == 0x7FF9_0000_0000_0000 ==> w & 0x7FF8_0000_0000_0000
            == 0x7FF8_0000_0000_0000 && w & 0xFFF8_0000_0000_0000 != 0xFFF8_0000_0000_0000,
        w & 0xFFFF_0000_0000_0000 == 0x7FFA_0000_0000_0000 ==> w & 0x7FF8_0000_0000_0000
            == 0x7FF8_0000_0000_0000 && w & 0xFFF8_0000_0000_0000 != 0xFFF8_0000_0000_0000,
        w & 0xFFFF_0000_0000_0000 == 0x7FFB_0000_0000_0000 ==> w & 0x7FF8_0000_0000_0000
            == 0x7FF8_0000_0000_0000 && w & 0xFFF8_0000_0000_0000 != 0xFFF8_0000_0000_0000,
        w & 0xFFFF_0000_0000_0000 == 0x7FFC_0000_0000_0000 ==> w & 0x7FF8_0000_0000_0000
            == 0x7FF8_0000_0000_0000 && w & 0xFFF8_0000_0000_0000 != 0xFFF8_0000_0000_0000,
        w & 0xFFFF_0000_0000_0000 == 0x7FFD_0000_0000_0000 ==> w & 0x7FF8_0000_0000_0000
            == 0x7FF8_0000_0000_0000 && w & 0xFFF8_0000_0000_0000 != 0xFFF8_0000_0000_0000,
        w & 0xFFFF_0000_0000_0000 == 0x7FFE_0000_0000_0000 ==> w & 0x7FF8_0000_0000_0000
            == 0x7FF8_0000_0000_0000 && w & 0xFFF8_0000_0000_0000 != 0xFFF8_0000_0000_0000,
        w & 0xFFF8_0000_0000_0000 == 0xFFF8_0000_0000_0000 ==> w & 0x7FF8_0000_0000_0000
            == 0x7FF8_0000_0000_0000,
        w & 0x7FF0_0000_0000_0000 != 0x7FF0_0000_0000_0000 ==> w & 0x7FF8_0000_0000_0000
            != 0x7FF8_0000_0000_0000,
{
}

proof fn lemma_headed(h: u64, p: u64)
    by (bit_vector)
    requires
        h & 0x0000_FFFF_FFFF_FFFF == 0,
        p <= 0x0000_FFFF_FFFF_FFFF,
    ensures
        (h | p) & 0xFFFF_0000_0000_0000 == h,
        (h | p) & 0x0000_FFFF_FFFF_FFFF == p,
        (h | p) & 0x0000_FFFF_FFFF_FFFE == p & 0xFFFF_FFFF_FFFF_FFFE,
        (h | p) & 1 == p & 1,
        (h | p) & 0xFFFF_FFFF == p & 0xFFFF_FFFF,
        (h | p) & 0x3_0000_0000 == p & 0x3_0000_0000,
        (h | p) & 0xFFF8_0000_0000_0000 == h & 0xFFF8_0000_0000_0000,
{
}

proof fn lemma_constants()
    by (bit_vector)
    ensures
        0x7FF9_0000_0000_0000u64 & 0x0000_FFFF_FFFF_FFFF == 0,
        0x7FFA_0000_0000_0000u64 & 0x0000_FFFF_FFFF_FFFF == 0,
        0x7FFB_0000_0000_0000u64 & 0x0000_FFFF_FFFF_FFFF == 0,
        0x7FFC_0000_0000_0000u64 & 0x0000_FFFF_FFFF_FFFF == 0,
        0x7FFD_0000_0000_0000u64 & 0x0000_FFFF_FFFF_FFFF == 0,
        0x7FFE_0000_0000_0000u64 & 0x0000_FFFF_FFFF_FFFF == 0,
        0xFFF8_0000_0000_0000u64 & 0x0000_FFFF_FFFF_FFFF == 0,
        0xFFF8_0000_0000_0000u64 & 0xFFF8_0000_0000_0000 == 0xFFF8_0000_0000_0000,
        0x7FFB_0000_0000_0000u64 & 0xFFFF_0000_0000_0000 == 0x7FFB_0000_0000_0000,
        1u64 & 1 == 1,
        0u64 & 1 == 0,
{
}

proof fn lemma_truncated(i: i64)
    by (bit_vector)
    requires
        -0x8000_0000_0000 <= i <= 0x7FFF_FFFF_FFFF,
    ensures
        (i as u64) & 0x0000_FFFF_FFFF_FFFF <= 0x0000_FFFF_FFFF_FFFF,
        i >= 0 ==> (i as u64) & 0x0000_FFFF_FFFF_FFFF == i && (i as u64) & 0x0000_FFFF_FFFF_FFFF
            < 0x8000_0000_0000,
        i < 0 ==> (i as u64) & 0x0000_FFFF_FFFF_FFFF == i + 0x1_0000_0000_0000 && (i as u64)
            & 0x0000_FFFF_FFFF_FFFF >= 0x8000_0000_0000,
{
}

/// Whether `i` fits the 48-bit immediate integer range.
pub fn fits_small_int(i: i64) -> (r: bool)
    ensures
        r == (SMALL_INT_MIN <= i <= SMALL_INT_MAX),
{
    SMALL_INT_MIN <= i && i <= SMALL_INT_MAX
}

/// The word of an int in the immediate range.
pub fn int_word(i: i64) -> (w: u64)
    requires
        SMALL_INT_MIN <= i <= SMALL_INT_MAX,
    ensures
        word_kind(w) is Int,
        int_of(w) == i,
{
    proof {
        lemma_constants();
        lemma_truncated(i);
        lemma_headed(HDR_INT, (i as u64) & PAYLOAD);
    }
    HDR_INT | ((i as u64) & PAYLOAD)
}

/// The number in a small-int word.
pub fn word_int(w: u64) -> (r: i64)
    requires
        word_kind(w) is Int,
    ensures
        r == int_of(w),
        SMALL_INT_MIN <= r <= SMALL_INT_MAX,
{
    let p: u64 = w & PAYLOAD;
    proof {
        lemma_payload(w);
    }
    if p < 0x8000_0000_0000 {
        p as i64
    } else {
        p as i64 - 0x1_0000_0000_0000
    }
}

proof fn lemma_payload(w: u64)
    by (bit_vector)
    ensures
        w & 0x0000_FFFF_FFFF_FFFF <= 0x0000_FFFF_FFFF_FFFF,
        w & 0x0000_FFFF_FFFF_FFFE <= 0x0000_FFFF_FFFF_FFFE,
        w & 0xFFFF_FFFF <= 0xFFFF_FFFF,
        (w & 0x3_0000_0000) >> 32 <= 3,
        w & 1 <= 1,
{
}

/// The word of a float: infinities and NaNs become zero, as no word holds one.
pub fn float_word(bits: u64) -> (w: u64)
    ensures
        word_kind(w) is Float,
        finite(w),
        finite(bits) ==> w == bits,
        !finite(bits) ==> w == 0,
{
    let w: u64 = if bits & EXPONENT != EXPONENT {
        bits
    } else {
        0
    };
    proof {
        lemma_apart(w);
        lemma_zero_is_finite();
    }
    w
}

proof fn lemma_zero_is_finite()
    by (bit_vector)
    ensures
        0u64 & 0x7FF0_0000_0000_0000 != 0x7FF0_0000_0000_0000,
{
}

pub fn bool_word(b: bool) -> (w: u64)
    ensures
        word_kind(w) is Bool,
        b <==> w & 1 == 1,
{
    proof {
        lemma_constants();
        lemma_headed(HDR_BOOL, 0);
        lemma_headed(HDR_BOOL, 1);
        lemma_apart(HDR_BOOL | 0);
        lemma_apart(HDR_BOOL | 1);
    }
    if b {
        HDR_BOOL | 1
    } else {
        HDR_BOOL | 0
    }
}

pub fn nil_word() -> (w: u64)
    ensures
        word_kind(w) is Nil,
        w == HDR_NIL,
{
    proof {
        lemma_constants();
        lemma_apart(HDR_NIL);
    }
    HDR_NIL
}

/// The nil word is no object's.
pub proof fn lemma_nil_kind()
    ensures
        word_kind(HDR_NIL) is Nil,
{
    lemma_constants();
    lemma_apart(HDR_NIL);
}

proof fn lemma_socket_fields(id: i32, k: u64)
    by (bit_vector)
    requires
        k <= 3,
    ensures
        ((k << 32) | (id as u32 as u64)) <= 0x0000_FFFF_FFFF_FFFF,
        ((k << 32) | (id as u32 as u64)) & 0xFFFF_FFFF == (id as u32 as u64),
        (((k << 32) | (id as u32 as u64)) & 0x3_0000_0000) >> 32 == k,
        id >= 0 ==> (id as u32 as u64) == id && (id as u32 as u64) < 0x8000_0000,
        id < 0 ==> (id as u32 as u64) == id + 0x1_0000_0000 && (id as u32 as u64) >= 0x8000_0000,
{
}

pub fn socket_word(s: SocketValue) -> (w: u64)
    ensures
        word_kind(w) is Socket,
        socket_of(w) == s,
{
    let k = s.kind.discriminant();
    let p: u64 = (k << 32) | (s.id as u32 as u64);
    proof {
        lemma_constants();
        lemma_socket_fields(s.id, k);
        lemma_headed(HDR_SOCKET, p);
        lemma_apart(HDR_SOCKET | p);
    }
    HDR_SOCKET | p
}

/// The handle in a socket word.
pub fn word_socket(w: u64) -> (r: SocketValue)
    requires
        word_kind(w) is Socket,
    ensures
        r == socket_of(w),
{
    let k: u64 = (w & 0x3_0000_0000) >> 32;
    let kind = if k == 0 {
        SocketKind::Connection
    } else if k == 1 {
        SocketKind::Listener
    } else if k == 2 {
        SocketKind::Port
    } else {
        SocketKind::Tls
    };
    let low: u64 = w & 0xFFFF_FFFF;
    proof {
        lemma_payload(w);
    }
    let id: i32 = if low < 0x8000_0000 {
        low as i32
    } else {
        (low as i64 - 0x1_0000_0000) as i32
    };
    SocketValue { id, kind }
}

pub fn subject_word(id: u64) -> (w: u64)
    requires
        id <= PAYLOAD,
    ensures
        word_kind(w) is Subject,
        w & PAYLOAD == id,
{
    proof {
        lemma_constants();
        lemma_headed(HDR_SUBJECT, id);
        lemma_apart(HDR_SUBJECT | id);
    }
    HDR_SUBJECT | id
}

pub fn pid_word(id: u64) -> (w: u64)
    requires
        id <= PAYLOAD,
    ensures
        word_kind(w) is Pid,
        w & PAYLOAD == id,
{
    proof {
        lemma_constants();
        lemma_headed(HDR_PID, id);
        lemma_apart(HDR_PID | id);
    }
    HDR_PID | id
}

proof fn lemma_marked(addr: u64)
    by (bit_vector)
    requires
        addr & !0x0000_FFFF_FFFF_FFFE == 0,
    ensures
        addr | 1 <= 0x0000_FFFF_FFFF_FFFF,
        addr <= 0x0000_FFFF_FFFF_FFFF,
        (addr | 1) & 1 == 1,
        addr & 1 == 0,
        (addr | 1) & 0xFFFF_FFFF_FFFF_FFFE == addr,
        addr & 0xFFFF_FFFF_FFFF_FFFE == addr,
{
}

/// The word of an object at `addr`.
pub fn object_word(addr: u64, immortal: bool) -> (w: u64)
    requires
        addr & !PTR_PAYLOAD == 0,
    ensures
        word_kind(w) is Object,
        w & PTR_PAYLOAD == addr,
        immortal <==> w & VALUE_IMMORTAL != 0,
{
    let p: u64 = if immortal {
        addr | VALUE_IMMORTAL
    } else {
        addr
    };
    proof {
        lemma_constants();
        lemma_marked(addr);
        lemma_headed(HDR_PTR, p);
        lemma_apart(HDR_PTR | p);
    }
    HDR_PTR | p
}

/// The tests each look at the bits once; every word passes exactly the one of
/// its kind.
pub fn word_is_int(w: u64) -> (r: bool)
    ensures
        r == word_kind(w) is Int,
{
    w & HDR_MASK == HDR_INT
}

pub fn word_is_float(w: u64) -> (r: bool)
    ensures
        r == word_kind(w) is Float,
{
    proof {
        lemma_apart(w);
    }
    w & QNAN != QNAN
}

pub fn word_is_bool(w: u64) -> (r: bool)
    ensures
        r == word_kind(w) is Bool,
{
    proof {
        lemma_apart(w);
    }
    w & HDR_MASK == HDR_BOOL
}

pub fn word_is_socket(w: u64) -> (r: bool)
    ensures
        r == word_kind(w) is Socket,
{
    proof {
        lemma_apart(w);
    }
    w & HDR_MASK == HDR_SOCKET
}

pub fn word_is_subject(w: u64) -> (r: bool)
    ensures
        r == word_kind(w) is Subject,
{
    proof {
        lemma_apart(w);
    }
    w & HDR_MASK == HDR_SUBJECT
}

pub fn word_is_pid(w: u64) -> (r: bool)
    ensures
        r == word_kind(w) is Pid,
{
    proof {
        lemma_apart(w);
    }
    w & HDR_MASK == HDR_PID
}

pub fn word_is_object(w: u64) -> (r: bool)
    ensures
        r == word_kind(w) is Object,
{
    proof {
        lemma_apart(w);
    }
    w & HDR_PTR == HDR_PTR
}

/// Pack a variant identity into one word: `type_id | variant_idx << 32`.
pub open spec fn packed(type_id: TypeId, variant_idx: u16) -> i64 {
    ((type_id.0 as u32 as i64) | ((variant_idx as i64) << 32)) as i64
}

/// Pack a variant identity into the one word enum cells, bytecode constants
/// and compiled code all carry: `type_id | variant_idx << 32`. The encode and
/// decode live side by side, so no site hand-writes the shifts.
pub fn pack_variant(type_id: TypeId, variant_idx: u16) -> (r: i64)
    ensures
        r == packed(type_id, variant_idx),
        0 <= r < 0x1_0000_0000_0000,
{
    let t: i32 = type_id.0;
    proof {
        lemma_packed(t, variant_idx);
    }
    (t as u32 as i64) | ((variant_idx as i64) << 32)
}

proof fn lemma_packed(t: i32, v: u16)
    by (bit_vector)
    ensures
        0 <= ((t as u32 as i64) | ((v as i64) << 32)) < 0x1_0000_0000_0000,
        ((t as u32 as i64) | ((v as i64) << 32)) as i32 == t,
        (((t as u32 as i64) | ((v as i64) << 32)) >> 32) as u16 == v,
{
}

/// The inverse of [`pack_variant`].
pub fn unpack_variant(packed: i64) -> (r: (TypeId, u16))
    ensures
        r == (TypeId(packed as i32), (packed >> 32) as u16),
{
    (TypeId(packed as i32), (packed >> 32) as u16)
}

/// A packed variant unpacks to what was packed.
pub proof fn law_variant_roundtrip(type_id: TypeId, variant_idx: u16)
    ensures
        packed(type_id, variant_idx) as i32 == type_id.0,
        (packed(type_id, variant_idx) >> 32) as u16 == variant_idx,
{
    lemma_packed(type_id.0, variant_idx);
}

} // verus!
