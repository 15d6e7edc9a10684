//! Hashing values. The hash is an equality fast-reject: equal values have one
//! hash, unequal ones may share it.

use crate::type_def::TypeId;
use crate::vm::bytecode::bits::{read_bits, window};
use crate::vm::bytecode::norm::{
    all_hashed, binary_hash, byte_words, entries_hash, entry_hash, Env, env_entries, first_hashes,
    full_bytes, HASH_BASIS, hashed, length_word, lemma_ordered, mix, mix_all, norm, Norm, norm_body,
    norms, ordered, paired, pairs, pairs_all, prefix_hash, range_items, sampled, sequence_hash, text_hash,
    text_of,
};
use crate::vm::bytecode::object::{all_fit, Arena, Body, fits, MapBox, Value};
use crate::vm::bytecode::seq::{array, array_elems, lemma_array_user, range_len, range_length};
use crate::vm::bytecode::sound::{
    lemma_nil_is_no_object, Scene, trie, tries, taken, user, user_body, users,
};
use crate::vm::bytecode::trie::keyed;
use crate::vm::bytecode::value::{BinaryRef, EnumRef, is_text, SeqRef, ValueView};
use crate::vm::bytecode::weight::{
    lemma_array_weight, lemma_weight_kids, lemma_weights_add, lemma_weights_at, weight, weights,
};
use vstd::prelude::*;

verus! {

/// What values are read against: the host's environment, each variable once,
/// and the names of the nominal types.
pub struct Surroundings {
    pub vars: Vec<(String, String)>,
    pub types: Vec<(TypeId, String)>,
}

/// The name of a type.
pub open spec fn name_in(types: Seq<(TypeId, String)>, t: TypeId) -> Seq<char>
    decreases types.len(),
{
    if types.len() == 0 {
        Seq::empty()
    } else if types.last().0 == t {
        types.last().1@
    } else {
        name_in(types.drop_last(), t)
    }
}

impl Surroundings {
    pub open spec fn scene(self) -> Scene {
        Scene {
            env: Seq::new(self.vars@.len(), |i: int| (self.vars@[i].0@, self.vars@[i].1@)),
            names: |t: TypeId| name_in(self.types@, t),
        }
    }

    /// No variable is there twice.
    pub open spec fn ok(self) -> bool {
        keyed(env_entries(self.scene().env))
    }

    /// No environment, and no named types.
    pub fn none() -> (r: Surroundings)
        ensures
            r.ok(),
            r.scene().env == Seq::<(Seq<char>, Seq<char>)>::empty(),
    {
        let r = Surroundings { vars: Vec::new(), types: Vec::new() };
        proof {
            assert(r.scene().env =~= Seq::empty());
        }
        r
    }
}

fn mixed(h: u64, x: u64) -> (r: u64)
    ensures
        r == mix(h, x),
{
    (h ^ x).wrapping_mul(0x100000001b3)
}

pub proof fn lemma_mix_add(h: u64, a: Seq<u64>, b: Seq<u64>)
    ensures
        mix_all(h, a + b) == mix_all(mix_all(h, a), b),
    decreases b.len(),
{
    if b.len() == 0 {
        assert(a + b =~= a);
    } else {
        lemma_mix_add(h, a, b.drop_last());
        assert((a + b).drop_last() =~= a + b.drop_last());
        assert((a + b).last() == b.last());
    }
}

/// Fold a run of bytes into a hash.
fn fold_bytes(h: u64, bytes: &[u8], from: usize, to: usize) -> (r: u64)
    requires
        from <= to <= bytes@.len(),
    ensures
        r == mix_all(h, byte_words(bytes@.subrange(from as int, to as int))),
{
    let mut acc: u64 = h;
    let mut i: usize = from;
    proof {
        assert(byte_words(bytes@.subrange(from as int, from as int)) =~= Seq::empty());
    }
    while i < to
        invariant
            from <= i <= to <= bytes@.len(),
            acc == mix_all(h, byte_words(bytes@.subrange(from as int, i as int))),
        decreases to - i,
    {
        proof {
            let ws = byte_words(bytes@.subrange(from as int, i + 1));
            assert(ws.drop_last() =~= byte_words(bytes@.subrange(from as int, i as int)));
            assert(ws.last() == bytes@[i as int] as u64);
        }
        acc = mixed(acc, bytes[i] as u64);
        i += 1;
    }
    acc
}

/// Fold the bytes that a payload is hashed by.
fn fold_sampled(h: u64, bytes: &[u8]) -> (r: u64)
    ensures
        r == mix_all(h, byte_words(sampled(bytes@))),
{
    let n: usize = bytes.len();
    if n <= 128 {
        proof {
            assert(bytes@.subrange(0, n as int) =~= bytes@);
        }
        fold_bytes(h, bytes, 0, n)
    } else {
        let front = fold_bytes(h, bytes, 0, 64);
        proof {
            let a = bytes@.subrange(0, 64);
            let b = bytes@.subrange(n - 64, n as int);
            assert(sampled(bytes@) =~= a + b);
            assert(byte_words(a + b) =~= byte_words(a) + byte_words(b));
            lemma_mix_add(h, byte_words(a), byte_words(b));
        }
        fold_bytes(front, bytes, n - 64, n)
    }
}

/// The hash of a string value holding `s`.
pub fn hash_str(s: &str) -> (r: u64)
    ensures
        r == text_hash(s@),
{
    let bytes = s.as_bytes();
    let h = mixed(HASH_BASIS, bytes.len() as u64);
    fold_sampled(h, bytes)
}

/// Hash of the names alone, which are known when a constructor is compiled.
pub fn enum_name_prefix_hash(enum_name: &str, variant_name: &str) -> (r: u64)
    ensures
        r == prefix_hash(enum_name@, variant_name@),
{
    let a = enum_name.as_bytes();
    let b = variant_name.as_bytes();
    proof {
        assert(a@.subrange(0, a@.len() as int) =~= a@);
        assert(b@.subrange(0, b@.len() as int) =~= b@);
    }
    let h = fold_bytes(HASH_BASIS, a, 0, a.len());
    fold_bytes(h, b, 0, b.len())
}

/// A map hashes the same in any order of its entries.
pub fn map_entry_hash(key_hash: u64, value_hash: u64) -> (r: u64)
    ensures
        r == entry_hash(key_hash, value_hash),
{
    key_hash.wrapping_mul(0x9e37_79b9_7f4a_7c15) ^ value_hash
}

/// The hash of what one entry adds.
spec fn one_entry(e: (Norm, Norm)) -> u64 {
    entry_hash(hashed(e.0), hashed(e.1))
}

proof fn lemma_entries_remove(es: Seq<(Norm, Norm)>, i: int)
    requires
        0 <= i < es.len(),
    ensures
        entries_hash(es) == entries_hash(es.remove(i)).wrapping_add(one_entry(es[i])),
    decreases es.len(),
{
    if i == es.len() - 1 {
        assert(es.remove(i) =~= es.drop_last());
    } else {
        lemma_entries_remove(es.drop_last(), i);
        assert(es.remove(i).drop_last() =~= es.drop_last().remove(i));
        assert(es.remove(i).last() == es.last());
    }
}

/// The order of entries makes no difference.
pub proof fn lemma_entries_order(a: Seq<(Norm, Norm)>, b: Seq<(Norm, Norm)>)
    requires
        a.to_multiset() == b.to_multiset(),
    ensures
        entries_hash(a) == entries_hash(b),
    decreases a.len(),
{
    a.to_multiset_ensures();
    b.to_multiset_ensures();
    if a.len() > 0 {
        let e = a.last();
        assert(a[a.len() - 1] == e);
        assert(a.contains(e));
        assert(a.to_multiset().count(e) > 0);
        assert(b.contains(e) <==> b.to_multiset().count(e) > 0);
        let i = choose|i: int| 0 <= i < b.len() && b[i] == e;
        lemma_entries_remove(a, a.len() - 1);
        lemma_entries_remove(b, i);
        assert(a.remove(a.len() - 1).to_multiset() =~= a.to_multiset().remove(e));
        assert(b.remove(i).to_multiset() =~= b.to_multiset().remove(e));
        lemma_entries_order(a.remove(a.len() - 1), b.remove(i));
    }
}

/// The environment as entries.
fn env_map_hash(s: &Surroundings) -> (r: u64)
    ensures
        r == entries_hash(env_entries(s.scene().env)),
{
    let ghost es = env_entries(s.scene().env);
    let mut acc: u64 = 0;
    let mut i: usize = 0;
    proof {
        assert(es.take(0) =~= Seq::empty());
    }
    while i < s.vars.len()
        invariant
            i <= s.vars@.len(),
            es == env_entries(s.scene().env),
            acc == entries_hash(es.take(i as int)),
        decreases s.vars@.len() - i,
    {
        let k = hash_str(s.vars[i].0.as_str());
        let v = hash_str(s.vars[i].1.as_str());
        proof {
            assert(es.take(i + 1).drop_last() =~= es.take(i as int));
            assert(es.take(i + 1).last() == es[i as int]);
            assert(es[i as int] == (Norm::Text(s.vars@[i as int].0@), Norm::Text(
                s.vars@[i as int].1@,
            )));
            assert(hashed(es[i as int].0) == text_hash(s.vars@[i as int].0@));
            assert(hashed(es[i as int].1) == text_hash(s.vars@[i as int].1@));
        }
        acc = acc.wrapping_add(map_entry_hash(k, v));
        i += 1;
    }
    proof {
        assert(es.take(i as int) =~= es);
    }
    acc
}

/// The bits of a binary.
fn hash_binary(b: &BinaryRef<'_>) -> (r: u64)
    requires
        b.ok(),
    ensures
        r == binary_hash(b.bits()),
{
    let ghost bits = b.bits();
    let len: u64 = b.bit_len();
    let at: u64 = b.bit_offset();
    let bytes = b.backing();
    let full: u64 = len / 8;
    let mut h: u64 = mixed(HASH_BASIS, len);
    let ghost h0 = h;
    let ghost fb = full_bytes(bits);
    if full <= 128 {
        h = fold_logical(h, b, 0, full);
        proof {
            assert(fb.subrange(0, full as int) =~= fb);
        }
    } else {
        h = fold_logical(h, b, 0, 64);
        h = fold_logical(h, b, full - 64, full);
        proof {
            let x = fb.subrange(0, 64);
            let y = fb.subrange(full - 64, full as int);
            assert(sampled(fb) =~= x + y);
            assert(byte_words(x + y) =~= byte_words(x) + byte_words(y));
            lemma_mix_add(h0, byte_words(x), byte_words(y));
        }
    }
    let k: u64 = len % 8;
    if k != 0 {
        let last = read_bits(bytes, at + 8 * full, k);
        proof {
            assert(bits.skip(8 * full) =~= window(bytes@, at + 8 * full, k as int));
        }
        h = mixed(h, last as u64);
    }
    h
}

/// Fold a run of the whole bytes that a binary shows.
fn fold_logical(h: u64, b: &BinaryRef<'_>, from: u64, to: u64) -> (r: u64)
    requires
        b.ok(),
        from <= to <= b.b.bit_len / 8,
    ensures
        r == mix_all(h, byte_words(full_bytes(b.bits()).subrange(from as int, to as int))),
{
    let ghost fb = full_bytes(b.bits());
    let bytes = b.backing();
    let at: u64 = b.bit_offset();
    let mut acc: u64 = h;
    let mut i: u64 = from;
    proof {
        assert(byte_words(fb.subrange(from as int, from as int)) =~= Seq::empty());
    }
    while i < to
        invariant
            from <= i <= to <= b.b.bit_len / 8,
            b.ok(),
            fb == full_bytes(b.bits()),
            bytes@ == b.b.backing@,
            at == b.b.bit_offset,
            acc == mix_all(h, byte_words(fb.subrange(from as int, i as int))),
        decreases to - i,
    {
        let x = read_bits(bytes, at + 8 * i, 8);
        proof {
            assert(window(bytes@, at + 8 * i, 8) =~= b.bits().subrange(8 * i, 8 * i + 8));
            assert(fb[i as int] == x);
            let ws = byte_words(fb.subrange(from as int, i + 1));
            assert(ws.drop_last() =~= byte_words(fb.subrange(from as int, i as int)));
            assert(ws.last() == x as u64);
        }
        acc = mixed(acc, x as u64);
        i = i + 1;
    }
    acc
}

/// A length as it is hashed.
fn length_of(n: usize) -> (r: u64)
    ensures
        r == length_word(n as int),
{
    let n: u64 = n as u64;
    if n > i64::MAX as u64 {
        i64::MAX as u64
    } else {
        n
    }
}

/// A range hashes like the array of its ints, without being walked.
fn hash_range(start: i64, end: i64) -> (r: u64)
    ensures
        r == hashed(Norm::Items(range_items(start as int, end as int))),
{
    let ghost ns = range_items(start as int, end as int);
    let n = range_len(start, end);
    let mut h: u64 = mixed(HASH_BASIS, n as u64);
    let ghost hs = first_hashes(all_hashed(ns));
    let ghost h0 = h;
    let count: i64 = if n < 32 {
        n
    } else {
        32
    };
    let mut i: i64 = 0;
    proof {
        assert(hs.take(0) =~= Seq::empty());
        assert(h0 == mix(HASH_BASIS, length_word(ns.len() as int)));
    }
    while i < count
        invariant
            0 <= i <= count <= 32,
            count <= range_length(start as int, end as int),
            ns == range_items(start as int, end as int),
            hs == first_hashes(all_hashed(ns)),
            hs.len() == count,
            h == mix_all(h0, hs.take(i as int)),
        decreases count - i,
    {
        proof {
            assert(hs.take(i + 1).drop_last() =~= hs.take(i as int));
            assert(hs.take(i + 1).last() == hs[i as int]);
            assert(hs[i as int] == hashed(ns[i as int]));
            assert(ns[i as int] == Norm::Int(start + i));
        }
        h = mixed(h, mixed(HASH_BASIS, (start + i) as u64));
        i = i + 1;
    }
    proof {
        assert(hs.take(i as int) =~= hs);
    }
    h
}

/// Fold the hashes of the first `n` values.
fn hash_first(h: u64, vs: &[Value], n: usize, s: &Surroundings) -> (r: u64)
    requires
        s.ok(),
        users(vs@, s.scene()),
        n <= vs@.len(),
    ensures
        r == mix_all(h, all_hashed(norms(vs@, s.scene().env)).take(n as int)),
    decreases weights(vs@), 2nat,
{
    let ghost hs = all_hashed(norms(vs@, s.scene().env));
    let mut acc: u64 = h;
    let mut i: usize = 0;
    proof {
        assert(hs.take(0) =~= Seq::empty());
    }
    while i < n
        invariant
            i <= n <= vs@.len(),
            s.ok(),
            users(vs@, s.scene()),
            hs == all_hashed(norms(vs@, s.scene().env)),
            acc == mix_all(h, hs.take(i as int)),
        decreases n - i,
    {
        proof {
            assert(user(vs@[i as int], s.scene()));
            lemma_weights_at(vs@, i as int);
            assert(hs.take(i + 1).drop_last() =~= hs.take(i as int));
            assert(hs.take(i + 1).last() == hs[i as int]);
        }
        let x = hash_value(&vs[i], s);
        acc = mixed(acc, x);
        i += 1;
    }
    acc
}

/// The hash of an enum value, the stored one if there is one.
fn hash_enum(e: &EnumRef<'_>, s: &Surroundings) -> (r: u64)
    requires
        s.ok(),
        user_body(Body::Enum(*e.e), s.scene()),
    ensures
        r == hashed(norm_body(Body::Enum(*e.e), s.scene().env)),
    decreases weights(e.e.payload@), 3nat,
{
    let stored = e.stored_hash();
    if stored != 0 {
        return stored;
    }
    let prefix = enum_name_prefix_hash(e.enum_name(), e.variant_name());
    let payload = e.payload();
    proof {
        let hs = all_hashed(norms(payload@, s.scene().env));
        assert(hs.take(payload@.len() as int) =~= hs);
    }
    hash_first(prefix, payload, payload.len(), s)
}

/// The hash of a value.
pub fn hash_value(v: &Value, s: &Surroundings) -> (r: u64)
    requires
        s.ok(),
        user(*v, s.scene()),
    ensures
        r == hashed(norm(*v, s.scene().env)),
    decreases weight(*v), 1nat,
{
    let ghost env = s.scene().env;
    proof {
        lemma_nil_is_no_object(*v);
        if v.obj is Some {
            lemma_weight_kids(*v);
        }
    }
    match v.kind() {
        ValueView::Int(i) => mixed(HASH_BASIS, i as u64),
        ValueView::Float(bits) => {
            let bits: u64 = if bits == 0x8000_0000_0000_0000 {
                0
            } else {
                bits
            };
            mixed(HASH_BASIS, bits)
        },
        ValueView::Bool(b) => mixed(
            HASH_BASIS,
            if b {
                1
            } else {
                0
            },
        ),
        ValueView::Nil => mixed(HASH_BASIS, 0),
        ValueView::Socket(x) => mixed(mixed(HASH_BASIS, x.id as u64), x.kind.discriminant()),
        ValueView::Subject(id) => mixed(HASH_BASIS, id),
        ValueView::Pid(id) => mixed(HASH_BASIS, id),
        ValueView::Str(t) => hash_str(t),
        ValueView::Range(a, b) => hash_range(a, b),
        ValueView::Binary(b) => hash_binary(&b),
        ValueView::Enum(e) => {
            proof {
                lemma_weights_add(
                    seq![e.e.enum_name, e.e.variant_name, e.e.labels],
                    e.e.payload@,
                );
            }
            hash_enum(&e, s)
        },
        ValueView::Tuple(vs) => {
            let n: usize = if vs.len() < 32 {
                vs.len()
            } else {
                32
            };
            let h = mixed(HASH_BASIS, length_of(vs.len()));
            proof {
                let hs = all_hashed(norms(vs@, env));
                assert(first_hashes(hs) =~= hs.take(n as int));
            }
            hash_first(h, vs, n, s)
        },
        ValueView::Closure(c) => {
            let captures = c.captures();
            let h = mixed(HASH_BASIS, c.func_idx() as u64);
            proof {
                let hs = all_hashed(norms(captures@, env));
                assert(hs.take(captures@.len() as int) =~= hs);
            }
            hash_first(h, captures, captures.len(), s)
        },
        ValueView::Array(x) => {
            proof {
                lemma_array_user(*v, s.scene());
                lemma_array_weight(*v);
            }
            hash_array(&x, s)
        },
        ValueView::MapView(m) => {
            proof {
                match m.m {
                    MapBox::Env => {
                        lemma_ordered(env_entries(env));
                        lemma_entries_order(ordered(env_entries(env)), env_entries(env));
                    },
                    MapBox::Hamt { size, root } => {
                        lemma_ordered(pairs(*root, env));
                        lemma_entries_order(ordered(pairs(*root, env)), pairs(*root, env));
                        crate::vm::bytecode::weight::lemma_weights_one(*root);
                    },
                }
            }
            let acc: u64 = match m.m {
                MapBox::Env => env_map_hash(s),
                MapBox::Hamt { size, root } => if root.is_nil() {
                    proof {
                        lemma_nil_is_no_object(*root);
                        assert(pairs(*root, env) =~= Seq::empty());
                    }
                    0
                } else {
                    hash_node(root, s, Ghost(Seq::empty()))
                },
            };
            HASH_BASIS.wrapping_add(acc)
        },
    }
}

/// The hash of an array: its length and its first elements.
fn hash_array(x: &SeqRef<'_>, s: &Surroundings) -> (r: u64)
    requires
        s.ok(),
        array(*x.root),
        users(array_elems(*x.root), s.scene()),
    ensures
        r == sequence_hash(norms(array_elems(*x.root), s.scene().env)),
    decreases weights(array_elems(*x.root)), 3nat,
{
    let ghost es = array_elems(*x.root);
    let ghost hs = first_hashes(all_hashed(norms(es, s.scene().env)));
    let n: usize = x.len();
    let mut h: u64 = mixed(HASH_BASIS, length_of(n));
    let ghost h0 = h;
    let mut it = x.iter();
    let count: usize = if n < 32 {
        n
    } else {
        32
    };
    let mut i: usize = 0;
    proof {
        assert(hs.take(0) =~= Seq::empty());
        assert(es.skip(0) =~= es);
    }
    while i < count
        invariant
            i <= count,
            count <= es.len(),
            count <= 32,
            s.ok(),
            users(es, s.scene()),
            es == array_elems(*x.root),
            hs == first_hashes(all_hashed(norms(es, s.scene().env))),
            hs.len() == count,
            it.ok(),
            it.rest() == es.skip(i as int),
            h == mix_all(h0, hs.take(i as int)),
        decreases count - i,
    {
        match it.next() {
            Some(v) => {
                proof {
                    assert(v == es[i as int]);
                    assert(user(es[i as int], s.scene()));
                    lemma_weights_at(es, i as int);
                    assert(es.skip(i as int).skip(1) =~= es.skip(i + 1));
                    assert(hs.take(i + 1).drop_last() =~= hs.take(i as int));
                    assert(hs.take(i + 1).last() == hs[i as int]);
                }
                let e = hash_value(&v, s);
                h = mixed(h, e);
            },
            None => {
                vstd::pervasive::unreached::<()>();
            },
        }
        i += 1;
    }
    proof {
        assert(hs.take(i as int) =~= hs);
    }
    h
}

/// What the entries under a trie node add to a map's hash.
fn hash_node(n: &Value, s: &Surroundings, Ghost(path): Ghost<Seq<u64>>) -> (r: u64)
    requires
        s.ok(),
        trie(*n, path, s.scene()),
    ensures
        r == entries_hash(pairs(*n, s.scene().env)),
    decreases weight(*n), 0nat,
{
    let ghost env = s.scene().env;
    let ghost sc = s.scene();
    proof {
        lemma_weight_kids(*n);
    }
    match &n.obj {
        Some(o) => match &o.body {
            Body::HamtEntry(k, x) => {
                proof {
                    lemma_weights_add(seq![*k], seq![*x]);
                    assert(seq![*k] + seq![*x] =~= seq![*k, *x]);
                    crate::vm::bytecode::weight::lemma_weights_one(*k);
                    crate::vm::bytecode::weight::lemma_weights_one(*x);
                    let es = pairs(*n, env);
                    assert(es.drop_last() =~= Seq::empty());
                    assert(entries_hash(Seq::<(Norm, Norm)>::empty()) == 0);
                }
                let a = hash_value(k, s);
                let b = hash_value(x, s);
                map_entry_hash(a, b)
            },
            Body::HamtCollision(h, vs) => hash_bucket(vs, s),
            Body::HamtBranch(bitmap, vs) => {
                let mut acc: u64 = 0;
                let mut i: usize = 0;
                proof {
                    assert(vs@.take(0) =~= Seq::empty());
                    assert(pairs_all(vs@.take(0), env) =~= Seq::empty());
                }
                while i < vs.len()
                    invariant
                        i <= vs@.len(),
                        s.ok(),
                        sc == s.scene(),
                        env == sc.env,
                        tries(vs@, path, taken(*bitmap, 32), sc),
                        weights(vs@) < weight(*n),
                        acc == entries_hash(pairs_all(vs@.take(i as int), env)),
                    decreases vs@.len() - i,
                {
                    proof {
                        assert(trie(vs@[i as int], path.push(taken(*bitmap, 32)[i as int]), sc));
                        lemma_weights_at(vs@, i as int);
                        assert(vs@.take(i + 1).drop_last() =~= vs@.take(i as int));
                        assert(vs@.take(i + 1).last() == vs@[i as int]);
                        lemma_entries_add(
                            pairs_all(vs@.take(i as int), env),
                            pairs(vs@[i as int], env),
                        );
                    }
                    let x = hash_node(
                        &vs[i],
                        s,
                        Ghost(path.push(taken(*bitmap, 32)[i as int])),
                    );
                    acc = acc.wrapping_add(x);
                    i += 1;
                }
                proof {
                    assert(vs@.take(i as int) =~= vs@);
                }
                acc
            },
            _ => vstd::pervasive::unreached(),
        },
        None => vstd::pervasive::unreached(),
    }
}

proof fn lemma_entries_add(a: Seq<(Norm, Norm)>, b: Seq<(Norm, Norm)>)
    ensures
        entries_hash(a + b) == entries_hash(a).wrapping_add(entries_hash(b)),
    decreases b.len(),
{
    if b.len() == 0 {
        assert(a + b =~= a);
    } else {
        lemma_entries_add(a, b.drop_last());
        assert((a + b).drop_last() =~= a + b.drop_last());
        assert((a + b).last() == b.last());
    }
}

/// What alternating keys and values add to a map's hash.
fn hash_bucket(vs: &Vec<Value>, s: &Surroundings) -> (r: u64)
    requires
        s.ok(),
        users(vs@, s.scene()),
        vs@.len() % 2 == 0,
    ensures
        r == entries_hash(paired(norms(vs@, s.scene().env))),
    decreases weights(vs@), 2nat,
{
    let ghost env = s.scene().env;
    let ghost es = paired(norms(vs@, env));
    let mut acc: u64 = 0;
    let mut i: usize = 0;
    proof {
        assert(es.take(0) =~= Seq::empty());
        assert(vs@.len() == vs.len());
    }
    while i < vs.len()
        invariant
            i <= vs@.len(),
            i % 2 == 0,
            vs@.len() % 2 == 0,
            vs@.len() <= usize::MAX,
            s.ok(),
            users(vs@, s.scene()),
            env == s.scene().env,
            es == paired(norms(vs@, env)),
            acc == entries_hash(es.take(i as int / 2)),
        decreases vs@.len() - i,
    {
        proof {
            assert(user(vs@[i as int], s.scene()));
            assert(user(vs@[i + 1], s.scene()));
            lemma_weights_at(vs@, i as int);
            lemma_weights_at(vs@, i + 1);
            let h = i as int / 2;
            assert((i + 2) / 2 == h + 1);
            assert(es.take(h + 1).drop_last() =~= es.take(h));
            assert(es.take(h + 1).last() == es[h]);
        }
        let a = hash_value(&vs[i], s);
        let b = hash_value(&vs[i + 1], s);
        acc = acc.wrapping_add(map_entry_hash(a, b));
        i = i + 2;
    }
    proof {
        assert(es.take(i as int / 2) =~= es);
    }
    acc
}

/// Fold the payload's hashes into the names' hash.
pub fn enum_hash_with_payload(name_prefix_hash: u64, payload: &[Value], s: &Surroundings) -> (r:
    u64)
    requires
        s.ok(),
        users(payload@, s.scene()),
    ensures
        r == mix_all(name_prefix_hash, all_hashed(norms(payload@, s.scene().env))),
{
    proof {
        let hs = all_hashed(norms(payload@, s.scene().env));
        assert(hs.take(payload@.len() as int) =~= hs);
    }
    hash_first(name_prefix_hash, payload, payload.len(), s)
}

impl<'a> EnumRef<'a> {
    /// The value's hash, the stored one when there is one.
    pub fn hash(&self, s: &Surroundings) -> (r: u64)
        requires
            s.ok(),
            user_body(Body::Enum(*self.e), s.scene()),
        ensures
            r == hashed(norm_body(Body::Enum(*self.e), s.scene().env)),
    {
        hash_enum(self, s)
    }
}

impl Value {
    /// A constructor applied to its payload, with its names, labels and hash
    /// made here.
    pub fn enum_with_names_in<A: Arena>(
        a: &mut A,
        type_id: TypeId,
        variant_idx: u16,
        enum_name: &str,
        variant_name: &str,
        labels: &[&str],
        payload: &[Value],
        s: &Surroundings,
    ) -> (r: Value)
        requires
            s.ok(),
            users(payload@, s.scene()),
            all_fit(old(a).immortal(), payload@),
        ensures
            name_in(s.types@, type_id) == enum_name@ ==> user(r, s.scene()),
            norm(r, s.scene().env) == (Norm::Enum {
                type_id,
                name: enum_name@,
                variant: variant_name@,
                payload: norms(payload@, s.scene().env),
            }),
            r.body() matches Some(Body::Enum(e)) && {
                &&& e.variant_idx == variant_idx
                &&& e.payload@ == payload@
                &&& e.hash == hashed(norm(r, s.scene().env))
                &&& e.labels.body() matches Some(Body::Tuple(ls)) && spells(ls@, labels@)
            },
            r.obj->Some_0.immortal == old(a).immortal(),
            fits(old(a).immortal(), r),
            final(a).immortal() == old(a).immortal(),
    {
        let ghost imm = a.immortal();
        let ghost sc = s.scene();
        let en = Value::str_in(a, enum_name);
        let vn = Value::str_in(a, variant_name);
        let mut ls: Vec<Value> = Vec::new();
        let mut i: usize = 0;
        while i < labels.len()
            invariant
                i <= labels@.len(),
                a.immortal() == imm,
                ls@.len() == i,
                all_fit(imm, ls@),
                forall|k: int| 0 <= k < i ==> is_text(#[trigger] ls@[k], labels@[k]@),
            decreases labels@.len() - i,
        {
            let l = Value::str_in(a, labels[i]);
            let ghost before = ls@;
            ls.push(l);
            proof {
                assert forall|k: int| 0 <= k < ls@.len() implies fits(imm, #[trigger] ls@[k])
                    && is_text(ls@[k], labels@[k]@) by {
                    if k < before.len() {
                        assert(fits(imm, before[k]) && is_text(before[k], labels@[k]@));
                    }
                }
            }
            i += 1;
        }
        let lt = Value::tuple_in(a, ls.as_slice());
        let prefix = enum_name_prefix_hash(enum_name, variant_name);
        let hash = enum_hash_with_payload(prefix, payload, s);
        proof {
            lemma_text_user(en, sc);
            lemma_text_user(vn, sc);
            assert forall|k: int| 0 <= k < ls@.len() implies user(#[trigger] ls@[k], sc) by {
                assert(is_text(ls@[k], labels@[k]@));
                lemma_text_user(ls@[k], sc);
            }
        }
        proof {
            let lb = lt.body()->Some_0;
            assert(lb.kids() =~= ls@);
            assert(users(ls@, sc));
            assert(user_body(lb, sc));
            assert(user(lt, sc));
        }
        let r = Value::enum_in(a, type_id, variant_idx, hash, en, vn, lt, payload);
        proof {
            lemma_nil_is_no_object(r);
            let e = r.body()->Some_0->Enum_0;
            if imm {
                let kids = r.body()->Some_0.kids();
                assert forall|k: int| 0 <= k < kids.len() implies fits(true, #[trigger] kids[k]) by {
                    if k >= 3 {
                        assert(fits(true, payload@[k - 3]));
                    }
                }
            }
            assert(norm_body(Body::Enum(e), sc.env) == norm(r, sc.env));
            assert(hashed(norm(r, sc.env)) == hash);
            if name_in(s.types@, type_id) == enum_name@ {
                assert(user_body(Body::Enum(e), sc));
            }
        }
        r
    }
}

/// Strings of the given texts.
pub open spec fn spells(vs: Seq<Value>, labels: Seq<&str>) -> bool {
    &&& vs.len() == labels.len()
    &&& forall|k: int| 0 <= k < vs.len() ==> is_text(#[trigger] vs[k], labels[k]@)
}

/// Programs can hold any string.
proof fn lemma_text_user(v: Value, sc: Scene)
    requires
        is_text(v, text_of(v)),
    ensures
        user(v, sc),
{
    lemma_nil_is_no_object(v);
}

/// Values that mean the same hash the same.
pub proof fn law_equal_values_hash_alike(a: Value, b: Value, env: Env)
    requires
        norm(a, env) == norm(b, env),
    ensures
        hashed(norm(a, env)) == hashed(norm(b, env)),
{
}

} // verus!
