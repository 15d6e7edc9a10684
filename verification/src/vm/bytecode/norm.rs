//! What values mean to `==` and to hashing.

use crate::type_def::TypeId;
use crate::vm::bytecode::bits::{byte_of, window};
use crate::vm::bytecode::object::{Body, MapBox, Object, Value};
use crate::vm::bytecode::word::{int_of, PAYLOAD, socket_of, SocketValue, word_kind, WordKind};
use vstd::multiset::Multiset;
use vstd::prelude::*;

verus! {

/// The host environment's variables, each once.
pub type Env = Seq<(Seq<char>, Seq<char>)>;

/// A value as `==` sees it. A range is the array of its ints, the two zeros
/// are one, a binary is its bits, and a map is its entries in one fixed order,
/// wherever they come from.
pub enum Norm {
    Int(int),
    Float(u64),
    Bool(bool),
    Nil,
    Socket(SocketValue),
    Subject(u64),
    Pid(u64),
    Text(Seq<char>),
    Items(Seq<Norm>),
    Binary(Seq<bool>),
    Tuple(Seq<Norm>),
    Closure(i32, Seq<Norm>),
    Enum { type_id: TypeId, name: Seq<char>, variant: Seq<char>, payload: Seq<Norm> },
    Entries(Seq<(Norm, Norm)>),
}

/// The ints of `start..end`.
pub open spec fn range_items(start: int, end: int) -> Seq<Norm> {
    Seq::new(
        if end > start {
            (end - start) as nat
        } else {
            0
        },
        |i: int| Norm::Int(start + i),
    )
}

/// One fixed order for each bag of entries.
pub open spec fn order_of(bag: Multiset<(Norm, Norm)>) -> Seq<(Norm, Norm)> {
    choose|fs: Seq<(Norm, Norm)>| #[trigger] fs.to_multiset() == bag
}

pub open spec fn ordered(es: Seq<(Norm, Norm)>) -> Seq<(Norm, Norm)> {
    order_of(es.to_multiset())
}

pub proof fn lemma_ordered(es: Seq<(Norm, Norm)>)
    ensures
        ordered(es).to_multiset() == es.to_multiset(),
{
    assert(es.to_multiset() == es.to_multiset());
}

/// The text of a string value.
pub open spec fn text_of(v: Value) -> Seq<char> {
    match v.body() {
        Some(Body::Str(s)) => s@,
        _ => Seq::empty(),
    }
}

pub open spec fn env_entries(env: Env) -> Seq<(Norm, Norm)> {
    Seq::new(env.len(), |i: int| (Norm::Text(env[i].0), Norm::Text(env[i].1)))
}

pub open spec fn norm(v: Value, env: Env) -> Norm
    decreases v, 3nat,
{
    match word_kind(v.bits) {
        WordKind::Int => Norm::Int(int_of(v.bits)),
        WordKind::Float => Norm::Float(
            if v.bits == 0x8000_0000_0000_0000 {
                0
            } else {
                v.bits
            },
        ),
        WordKind::Bool => Norm::Bool(v.bits & 1 == 1),
        WordKind::Socket => Norm::Socket(socket_of(v.bits)),
        WordKind::Subject => Norm::Subject(v.bits & PAYLOAD),
        WordKind::Pid => Norm::Pid(v.bits & PAYLOAD),
        WordKind::Nil => Norm::Nil,
        WordKind::Object => match v.obj {
            Some(o) => norm_body(o.body, env),
            None => Norm::Nil,
        },
    }
}

pub open spec fn norm_body(b: Body, env: Env) -> Norm
    decreases b, 2nat,
{
    match b {
        Body::BigInt(i) => Norm::Int(i as int),
        Body::Range(s, e) => Norm::Items(range_items(s as int, e as int)),
        Body::Str(s) => Norm::Text(s@),
        Body::Binary(b) => Norm::Binary(
            window(b.backing@, b.bit_offset as int, b.bit_len as int),
        ),
        Body::Tuple(vs) => Norm::Tuple(norms(vs@, env)),
        Body::Enum(e) => Norm::Enum {
            type_id: e.type_id,
            name: text_of(e.enum_name),
            variant: text_of(e.variant_name),
            payload: norms(e.payload@, env),
        },
        Body::Closure(c) => Norm::Closure(c.func_idx, norms(c.captures@, env)),
        Body::SeqRoot(s) => Norm::Items(
            items(s.head, env) + items(s.tree, env) + items(s.tail, env),
        ),
        Body::MapRoot(MapBox::Env) => Norm::Entries(ordered(env_entries(env))),
        Body::MapRoot(MapBox::Hamt { size, root }) => Norm::Entries(ordered(pairs(root, env))),
        Body::Subject(id) => Norm::Subject(id),
        Body::SeqLeaf(_) | Body::SeqBranch(_) | Body::HamtBranch(_, _) | Body::HamtEntry(_, _)
        | Body::HamtCollision(_, _) => Norm::Nil,
    }
}

pub open spec fn norms(vs: Seq<Value>, env: Env) -> Seq<Norm>
    decreases vs, 0nat,
{
    Seq::new(
        vs.len(),
        |i: int|
            if 0 <= i < vs.len() {
                norm(vs[i], env)
            } else {
                Norm::Nil
            },
    )
}

/// The elements under a vector node.
pub open spec fn items(v: Value, env: Env) -> Seq<Norm>
    decreases v, 3nat,
{
    match v.obj {
        Some(o) => match o.body {
            Body::SeqLeaf(vs) => norms(vs@, env),
            Body::SeqBranch(b) => items_all(b.children@, env),
            _ => Seq::empty(),
        },
        None => Seq::empty(),
    }
}

pub open spec fn items_all(vs: Seq<Value>, env: Env) -> Seq<Norm>
    decreases vs, 0nat,
{
    if vs.len() == 0 {
        Seq::empty()
    } else {
        items_all(vs.drop_last(), env) + items(vs.last(), env)
    }
}

/// The entries under a trie node.
pub open spec fn pairs(v: Value, env: Env) -> Seq<(Norm, Norm)>
    decreases v, 3nat,
{
    match v.obj {
        Some(o) => match o.body {
            Body::HamtEntry(k, x) => seq![(norm(k, env), norm(x, env))],
            Body::HamtCollision(_, vs) => paired(norms(vs@, env)),
            Body::HamtBranch(_, vs) => pairs_all(vs@, env),
            _ => Seq::empty(),
        },
        None => Seq::empty(),
    }
}

pub open spec fn pairs_all(vs: Seq<Value>, env: Env) -> Seq<(Norm, Norm)>
    decreases vs, 0nat,
{
    if vs.len() == 0 {
        Seq::empty()
    } else {
        pairs_all(vs.drop_last(), env) + pairs(vs.last(), env)
    }
}

/// Alternating keys and values as entries.
pub open spec fn paired(ns: Seq<Norm>) -> Seq<(Norm, Norm)> {
    Seq::new(ns.len() / 2, |i: int| (ns[2 * i], ns[2 * i + 1]))
}

pub const HASH_BASIS: u64 = 0xcbf29ce484222325;

/// One step of the FNV-1a hash.
pub open spec fn mix(h: u64, x: u64) -> u64 {
    (h ^ x).wrapping_mul(0x100000001b3)
}

pub open spec fn mix_all(h: u64, xs: Seq<u64>) -> u64
    decreases xs.len(),
{
    if xs.len() == 0 {
        h
    } else {
        mix(mix_all(h, xs.drop_last()), xs.last())
    }
}

pub open spec fn byte_words(bytes: Seq<u8>) -> Seq<u64> {
    Seq::new(bytes.len(), |i: int| bytes[i] as u64)
}

/// Leading elements folded into a sequence hash. The hash is only an equality
/// fast-reject, so a bounded prefix plus the length keeps hashing a huge range
/// cheap.
pub const SEQ_HASH_SAMPLE: usize = 32;

/// Leading and trailing bytes folded into a string's or binary's hash, for the
/// same reason. Payloads up to twice the sample hash in full.
pub const BYTES_HASH_SAMPLE: usize = 64;

/// The bytes that a long payload is hashed by.
pub open spec fn sampled(bytes: Seq<u8>) -> Seq<u8> {
    if bytes.len() <= 128 {
        bytes
    } else {
        bytes.take(64) + bytes.skip(bytes.len() - 64)
    }
}

pub open spec fn text_hash(s: Seq<char>) -> u64 {
    let bytes = vstd::utf8::encode_utf8(s);
    mix_all(mix(HASH_BASIS, bytes.len() as u64), byte_words(sampled(bytes)))
}

/// The whole bytes of a bit string, most significant bit first.
pub open spec fn full_bytes(bits: Seq<bool>) -> Seq<u8> {
    Seq::new(bits.len() / 8, |i: int| byte_of(bits.subrange(8 * i, 8 * i + 8)))
}

pub open spec fn binary_hash(bits: Seq<bool>) -> u64 {
    let full = full_bytes(bits);
    let h = mix_all(mix(HASH_BASIS, bits.len() as u64), byte_words(sampled(full)));
    if bits.len() % 8 == 0 {
        h
    } else {
        mix(h, byte_of(bits.skip(8 * full.len() as int)) as u64)
    }
}

/// Combined so that a map hashes the same in any order of its entries.
pub open spec fn entry_hash(key: u64, value: u64) -> u64 {
    key.wrapping_mul(0x9e37_79b9_7f4a_7c15) ^ value
}

pub open spec fn prefix_hash(enum_name: Seq<char>, variant: Seq<char>) -> u64 {
    mix_all(
        mix_all(HASH_BASIS, byte_words(vstd::utf8::encode_utf8(enum_name))),
        byte_words(vstd::utf8::encode_utf8(variant)),
    )
}

/// The hash of a value. Values that are equal have one hash, as it is worked
/// out from what they mean.
pub open spec fn hashed(n: Norm) -> u64
    decreases n, 1nat,
{
    match n {
        Norm::Int(i) => mix(HASH_BASIS, i as i64 as u64),
        Norm::Float(bits) => mix(HASH_BASIS, bits),
        Norm::Bool(b) => mix(
            HASH_BASIS,
            if b {
                1
            } else {
                0
            },
        ),
        Norm::Nil => mix(HASH_BASIS, 0),
        Norm::Socket(s) => mix(mix(HASH_BASIS, s.id as u64), s.kind.spec_discriminant()),
        Norm::Subject(id) => mix(HASH_BASIS, id),
        Norm::Pid(id) => mix(HASH_BASIS, id),
        Norm::Text(s) => text_hash(s),
        Norm::Items(ns) => sequence_hash(ns),
        Norm::Tuple(ns) => sequence_hash(ns),
        Norm::Binary(bits) => binary_hash(bits),
        Norm::Closure(f, ns) => mix_all(mix(HASH_BASIS, f as u64), all_hashed(ns)),
        Norm::Enum { type_id, name, variant, payload } => mix_all(
            prefix_hash(name, variant),
            all_hashed(payload),
        ),
        Norm::Entries(es) => HASH_BASIS.wrapping_add(entries_hash(es)),
    }
}

pub open spec fn all_hashed(ns: Seq<Norm>) -> Seq<u64>
    decreases ns, 0nat,
{
    Seq::new(
        ns.len(),
        |i: int|
            if 0 <= i < ns.len() {
                hashed(ns[i])
            } else {
                0
            },
    )
}

pub open spec fn sequence_hash(ns: Seq<Norm>) -> u64
    decreases ns, 1nat,
{
    mix_all(mix(HASH_BASIS, length_word(ns.len() as int)), first_hashes(all_hashed(ns)))
}

/// A length as it is hashed: what does not fit stops at the largest int.
pub open spec fn length_word(n: int) -> u64 {
    if n > i64::MAX {
        i64::MAX as u64
    } else {
        n as u64
    }
}

pub open spec fn first_hashes(hs: Seq<u64>) -> Seq<u64> {
    if hs.len() <= 32 {
        hs
    } else {
        hs.take(32)
    }
}

pub open spec fn entries_hash(es: Seq<(Norm, Norm)>) -> u64
    decreases es, 0nat,
{
    if es.len() == 0 {
        0
    } else {
        entries_hash(es.drop_last()).wrapping_add(
            entry_hash(hashed(es.last().0), hashed(es.last().1)),
        )
    }
}

} // verus!
