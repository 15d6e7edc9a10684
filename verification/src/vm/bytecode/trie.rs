//! Facts about hash tries: which slots a bitmap takes, where a key can be, and
//! that no key is there twice.

use crate::vm::bytecode::norm::{Env, hashed, Norm, norms, paired, pairs, pairs_all};
use crate::vm::bytecode::object::{Body, Value};
use crate::vm::bytecode::sound::{lemma_nil_is_no_object, Scene, slot_at, taken, trie, tries, under};
use crate::vm::bytecode::word::HDR_NIL;
use vstd::prelude::*;

verus! {

/// Whether a bitmap takes a slot.
pub open spec fn takes(bitmap: u32, s: u64) -> bool {
    (bitmap >> (s as u32)) & 1 == 1
}

/// How many taken slots are below `s`.
pub open spec fn rank(bitmap: u32, s: u64) -> nat {
    taken(bitmap, s as nat).len()
}

proof fn lemma_bit_ops(b: u32, s: u32, n: u32)
    by (bit_vector)
    requires
        s < 32,
        n < 32,
    ensures
        ((b | (1u32 << s)) >> n) & 1 == (if n == s {
            1u32
        } else {
            (b >> n) & 1
        }),
        ((b & !(1u32 << s)) >> n) & 1 == (if n == s {
            0u32
        } else {
            (b >> n) & 1
        }),
        (0u32 >> n) & 1 == 0,
        (b & (1u32 << s) == 0) == ((b >> s) & 1 != 1),
        ((1u32 << s) >> n) & 1 == (if n == s {
            1u32
        } else {
            0u32
        }),
        (b & !(1u32 << s) == 0) && n != s ==> (b >> n) & 1 == 0,
{
}

/// The taken slots below `n` ascend, and are those whose bit is set.
pub proof fn lemma_taken(b: u32, n: nat)
    requires
        n <= 32,
    ensures
        taken(b, n).len() <= n,
        forall|i: int| 0 <= i < taken(b, n).len() ==> #[trigger] taken(b, n)[i] < n,
        forall|i: int| 0 <= i < taken(b, n).len() ==> takes(b, #[trigger] taken(b, n)[i]),
        forall|i: int, j: int|
            0 <= i < j < taken(b, n).len() ==> #[trigger] taken(b, n)[i] < #[trigger] taken(b, n)[j],
    decreases n,
{
    if n > 0 {
        lemma_taken(b, (n - 1) as nat);
    }
}

/// A taken slot is at its rank.
pub proof fn lemma_rank(b: u32, s: u64, n: nat)
    requires
        s < n <= 32,
    ensures
        rank(b, s) <= taken(b, n).len(),
        taken(b, n).take(rank(b, s) as int) == taken(b, s as nat),
        takes(b, s) ==> rank(b, s) < taken(b, n).len() && taken(b, n)[rank(b, s) as int] == s,
    decreases n,
{
    let low = taken(b, (n - 1) as nat);
    if n - 1 == s {
        assert(taken(b, n).take(rank(b, s) as int) =~= low);
    } else {
        lemma_rank(b, s, (n - 1) as nat);
        assert(taken(b, n).take(rank(b, s) as int) =~= low.take(rank(b, s) as int));
    }
}

pub proof fn lemma_taken_insert(b: u32, s: u64, n: nat)
    requires
        s < 32,
        n <= 32,
        !takes(b, s),
    ensures
        n <= s ==> taken(b | (1u32 << (s as u32)), n) == taken(b, n),
        n > s ==> taken(b | (1u32 << (s as u32)), n) == taken(b, n).insert(rank(b, s) as int, s),
    decreases n,
{
    if n > 0 {
        lemma_taken_insert(b, s, (n - 1) as nat);
        lemma_bit_ops(b, s as u32, (n - 1) as u32);
        if n > s {
            lemma_rank(b, s, n);
        }
        if n - 1 > s {
            lemma_rank(b, s, (n - 1) as nat);
            assert(taken(b | (1u32 << (s as u32)), n) =~= taken(b, n).insert(rank(b, s) as int, s));
        } else if n - 1 == s {
            assert(taken(b | (1u32 << (s as u32)), n) =~= taken(b, n).insert(rank(b, s) as int, s));
        }
    }
}

pub proof fn lemma_taken_remove(b: u32, s: u64, n: nat)
    requires
        s < 32,
        n <= 32,
        takes(b, s),
    ensures
        n <= s ==> taken(b & !(1u32 << (s as u32)), n) == taken(b, n),
        n > s ==> taken(b & !(1u32 << (s as u32)), n) == taken(b, n).remove(rank(b, s) as int),
    decreases n,
{
    if n > 0 {
        lemma_taken_remove(b, s, (n - 1) as nat);
        lemma_bit_ops(b, s as u32, (n - 1) as u32);
        if n > s {
            lemma_rank(b, s, n);
        }
        if n - 1 > s {
            lemma_rank(b, s, (n - 1) as nat);
            assert(taken(b & !(1u32 << (s as u32)), n) =~= taken(b, n).remove(rank(b, s) as int));
        } else if n - 1 == s {
            assert(taken(b & !(1u32 << (s as u32)), n) =~= taken(b, n).remove(rank(b, s) as int));
        }
    }
}

/// The bitmap of one slot.
pub proof fn lemma_taken_one(s: u64)
    requires
        s < 32,
    ensures
        taken(1u32 << (s as u32), 32) == seq![s],
{
    lemma_taken_none(32);
    lemma_bit_ops(0, s as u32, s as u32);
    lemma_taken_insert(0, s, 32);
    lemma_taken_none(s as nat);
    assert(0u32 | (1u32 << (s as u32)) == 1u32 << (s as u32)) by (bit_vector)
        requires
            s < 32,
    ;
    assert(Seq::<u64>::empty().insert(0, s) =~= seq![s]);
}

proof fn lemma_taken_none(n: nat)
    requires
        n <= 32,
    ensures
        taken(0, n) == Seq::<u64>::empty(),
    decreases n,
{
    if n > 0 {
        lemma_taken_none((n - 1) as nat);
        lemma_bit_ops(0, 0, (n - 1) as u32);
    }
}

/// The bitmap of two slots.
pub proof fn lemma_taken_two(s: u64, t: u64)
    requires
        s < t < 32,
    ensures
        taken((1u32 << (s as u32)) | (1u32 << (t as u32)), 32) == seq![s, t],
        (1u32 << (t as u32)) | (1u32 << (s as u32)) == (1u32 << (s as u32)) | (1u32 << (t as u32)),
{
    let b = 1u32 << (s as u32);
    lemma_taken_one(s);
    lemma_bit_ops(0, s as u32, t as u32);
    lemma_taken_insert(b, t, 32);
    lemma_rank(b, s, t as nat);
    lemma_bit_ops(0, s as u32, s as u32);
    lemma_rank(b, t, 32);
    lemma_taken(b, t as nat);
    assert(rank(b, t) == 1);
    assert(seq![s].insert(1, t) =~= seq![s, t]);
    assert((1u32 << (t as u32)) | (1u32 << (s as u32)) == (1u32 << (s as u32)) | (1u32 << (
    t as u32))) by (bit_vector)
        requires
            s < t,
            t < 32,
    ;
}

/// A slot is one of 32.
pub proof fn lemma_slot(hash: u64, depth: nat)
    ensures
        slot_at(hash, depth) < 32,
{
    let x = hash >> ((5 * depth) as u64);
    assert(x & 31 < 32) by (bit_vector);
}

pub proof fn lemma_under_push(hash: u64, path: Seq<u64>, s: u64)
    ensures
        under(hash, path.push(s)) <==> under(hash, path) && s == slot_at(hash, path.len()),
{
    let p = path.push(s);
    if under(hash, p) {
        assert(p[path.len() as int] == s);
        assert forall|j: int| 0 <= j < path.len() implies #[trigger] path[j] == slot_at(
            hash,
            j as nat,
        ) by {
            assert(p[j] == path[j]);
        }
    }
    if under(hash, path) && s == slot_at(hash, path.len()) {
        assert forall|j: int| 0 <= j < p.len() implies #[trigger] p[j] == slot_at(
            hash,
            j as nat,
        ) by {
            if j < path.len() {
                assert(p[j] == path[j]);
            }
        }
    }
}

proof fn lemma_all_slots(a: u64, b: u64)
    by (bit_vector)
    requires
        (a >> 0u64) & 31 == (b >> 0u64) & 31,
        (a >> 5u64) & 31 == (b >> 5u64) & 31,
        (a >> 10u64) & 31 == (b >> 10u64) & 31,
        (a >> 15u64) & 31 == (b >> 15u64) & 31,
        (a >> 20u64) & 31 == (b >> 20u64) & 31,
        (a >> 25u64) & 31 == (b >> 25u64) & 31,
        (a >> 30u64) & 31 == (b >> 30u64) & 31,
        (a >> 35u64) & 31 == (b >> 35u64) & 31,
        (a >> 40u64) & 31 == (b >> 40u64) & 31,
        (a >> 45u64) & 31 == (b >> 45u64) & 31,
        (a >> 50u64) & 31 == (b >> 50u64) & 31,
        (a >> 55u64) & 31 == (b >> 55u64) & 31,
        (a >> 60u64) & 31 == (b >> 60u64) & 31,
    ensures
        a == b,
{
}

/// Thirteen slots are all of a hash.
pub proof fn lemma_full_path(a: u64, b: u64, path: Seq<u64>)
    requires
        path.len() == 13,
        under(a, path),
        under(b, path),
    ensures
        a == b,
{
    assert(path[0] == slot_at(a, 0) && path[0] == slot_at(b, 0));
    assert(path[1] == slot_at(a, 1) && path[1] == slot_at(b, 1));
    assert(path[2] == slot_at(a, 2) && path[2] == slot_at(b, 2));
    assert(path[3] == slot_at(a, 3) && path[3] == slot_at(b, 3));
    assert(path[4] == slot_at(a, 4) && path[4] == slot_at(b, 4));
    assert(path[5] == slot_at(a, 5) && path[5] == slot_at(b, 5));
    assert(path[6] == slot_at(a, 6) && path[6] == slot_at(b, 6));
    assert(path[7] == slot_at(a, 7) && path[7] == slot_at(b, 7));
    assert(path[8] == slot_at(a, 8) && path[8] == slot_at(b, 8));
    assert(path[9] == slot_at(a, 9) && path[9] == slot_at(b, 9));
    assert(path[10] == slot_at(a, 10) && path[10] == slot_at(b, 10));
    assert(path[11] == slot_at(a, 11) && path[11] == slot_at(b, 11));
    assert(path[12] == slot_at(a, 12) && path[12] == slot_at(b, 12));
    lemma_all_slots(a, b);
}

pub proof fn lemma_pairs_add(a: Seq<Value>, b: Seq<Value>, env: Env)
    ensures
        pairs_all(a + b, env) == pairs_all(a, env) + pairs_all(b, env),
    decreases b.len(),
{
    if b.len() == 0 {
        assert(a + b =~= a);
        assert(pairs_all(b, env) =~= Seq::empty());
        assert(pairs_all(a, env) + pairs_all(b, env) =~= pairs_all(a, env));
    } else {
        lemma_pairs_add(a, b.drop_last(), env);
        assert((a + b).drop_last() =~= a + b.drop_last());
        assert((a + b).last() == b.last());
        assert(pairs_all(a + b, env) =~= pairs_all(a, env) + pairs_all(b, env));
    }
}

pub proof fn lemma_pairs_one(v: Value, env: Env)
    ensures
        pairs_all(seq![v], env) == pairs(v, env),
{
    assert(seq![v].drop_last() =~= Seq::empty());
    assert(seq![v].last() == v);
    assert(pairs_all(Seq::<Value>::empty(), env) =~= Seq::empty());
    assert(pairs_all(seq![v], env) =~= pairs(v, env));
}

/// The entries under a run of nodes, around one of them.
pub proof fn lemma_pairs_split(vs: Seq<Value>, i: int, env: Env)
    requires
        0 <= i < vs.len(),
    ensures
        pairs_all(vs, env) == pairs_all(vs.take(i), env) + pairs(vs[i], env) + pairs_all(
            vs.skip(i + 1),
            env,
        ),
{
    assert(vs =~= vs.take(i) + seq![vs[i]] + vs.skip(i + 1));
    lemma_pairs_add(vs.take(i) + seq![vs[i]], vs.skip(i + 1), env);
    lemma_pairs_add(vs.take(i), seq![vs[i]], env);
    lemma_pairs_one(vs[i], env);
}

/// An entry under a run of nodes is under one of them.
pub proof fn lemma_pairs_in(vs: Seq<Value>, env: Env, e: (Norm, Norm))
    ensures
        pairs_all(vs, env).contains(e) <==> exists|i: int|
            0 <= i < vs.len() && pairs(#[trigger] vs[i], env).contains(e),
    decreases vs.len(),
{
    let all = pairs_all(vs, env);
    if vs.len() == 0 {
        assert(all =~= Seq::empty());
    } else {
        let init = vs.drop_last();
        lemma_pairs_in(init, env, e);
        let a = pairs_all(init, env);
        let b = pairs(vs.last(), env);
        lemma_in_add(a, b, e);
        if a.contains(e) {
            let i = choose|i: int| 0 <= i < init.len() && pairs(#[trigger] init[i], env).contains(e);
            assert(pairs(vs[i], env).contains(e));
        }
        if b.contains(e) {
            assert(pairs(vs[vs.len() - 1], env).contains(e));
        }
        if exists|i: int| 0 <= i < vs.len() && pairs(#[trigger] vs[i], env).contains(e) {
            let i = choose|i: int| 0 <= i < vs.len() && pairs(#[trigger] vs[i], env).contains(e);
            if i < init.len() {
                assert(pairs(init[i], env).contains(e));
            }
        }
    }
}

pub proof fn lemma_in_add<T>(a: Seq<T>, b: Seq<T>, e: T)
    ensures
        (a + b).contains(e) <==> a.contains(e) || b.contains(e),
{
    let s = a + b;
    if s.contains(e) {
        let i = choose|i: int| 0 <= i < s.len() && s[i] == e;
        if i < a.len() {
            assert(a[i] == e);
        } else {
            assert(b[i - a.len()] == e);
        }
    }
    if a.contains(e) {
        let i = choose|i: int| 0 <= i < a.len() && a[i] == e;
        assert(s[i] == e);
    }
    if b.contains(e) {
        let i = choose|i: int| 0 <= i < b.len() && b[i] == e;
        assert(s[a.len() + i] == e);
    }
}

/// No key twice.
pub open spec fn keyed(es: Seq<(Norm, Norm)>) -> bool {
    forall|i: int, j: int|
        0 <= i < j < es.len() ==> (#[trigger] es[i]).0 != (#[trigger] es[j]).0
}

/// Every entry under a node has a hash that leads there.
pub proof fn lemma_trie_under(v: Value, path: Seq<u64>, sc: Scene, e: (Norm, Norm))
    requires
        trie(v, path, sc),
        pairs(v, sc.env).contains(e),
    ensures
        under(hashed(e.0), path),
    decreases v, 3nat,
{
    let o = v.obj->Some_0;
    match o.body {
        Body::HamtEntry(k, x) => {},
        Body::HamtCollision(h, vs) => {
            let ns = norms(vs@, sc.env);
            let i = choose|i: int| 0 <= i < paired(ns).len() && paired(ns)[i] == e;
            assert(hashed(ns[2 * i]) == h);
        },
        Body::HamtBranch(bitmap, vs) => {
            lemma_pairs_in(vs@, sc.env, e);
            let i = choose|i: int|
                0 <= i < vs@.len() && pairs(#[trigger] vs@[i], sc.env).contains(e);
            lemma_tries_under(vs@, path, taken(bitmap, 32), sc, i, e);
            lemma_under_push(hashed(e.0), path, taken(bitmap, 32)[i]);
        },
        _ => {},
    }
}

pub proof fn lemma_tries_under(
    vs: Seq<Value>,
    path: Seq<u64>,
    slots: Seq<u64>,
    sc: Scene,
    i: int,
    e: (Norm, Norm),
)
    requires
        tries(vs, path, slots, sc),
        0 <= i < vs.len(),
        pairs(vs[i], sc.env).contains(e),
    ensures
        under(hashed(e.0), path.push(slots[i])),
    decreases vs, 0nat,
{
    assert(trie(vs[i], path.push(slots[i]), sc));
    lemma_trie_under(vs[i], path.push(slots[i]), sc, e);
}

/// No key is twice under a node, and there is an entry.
pub proof fn lemma_trie_keyed(v: Value, path: Seq<u64>, sc: Scene)
    requires
        trie(v, path, sc),
    ensures
        keyed(pairs(v, sc.env)),
        pairs(v, sc.env).len() >= 1,
        v.bits != HDR_NIL,
    decreases v, 3nat,
{
    lemma_nil_is_no_object(v);
    let o = v.obj->Some_0;
    match o.body {
        Body::HamtEntry(k, x) => {},
        Body::HamtCollision(h, vs) => {
            let ns = norms(vs@, sc.env);
            let es = paired(ns);
            assert forall|i: int, j: int| 0 <= i < j < es.len() implies (#[trigger] es[i]).0 != (
            #[trigger] es[j]).0 by {
                assert(ns[2 * i] != ns[2 * j]);
            }
        },
        Body::HamtBranch(bitmap, vs) => {
            lemma_taken(bitmap, 32);
            lemma_tries_keyed(vs@, path, taken(bitmap, 32), sc);
        },
        _ => {},
    }
}

pub proof fn lemma_tries_keyed(vs: Seq<Value>, path: Seq<u64>, slots: Seq<u64>, sc: Scene)
    requires
        tries(vs, path, slots, sc),
        vs.len() <= slots.len(),
        forall|i: int, j: int|
            0 <= i < j < slots.len() ==> #[trigger] slots[i] < #[trigger] slots[j],
    ensures
        keyed(pairs_all(vs, sc.env)),
        pairs_all(vs, sc.env).len() >= vs.len(),
    decreases vs, 0nat,
{
    if vs.len() > 0 {
        let init = vs.drop_last();
        let last = vs.len() - 1;
        assert forall|i: int| 0 <= i < init.len() implies trie(
            #[trigger] init[i],
            path.push(slots[i]),
            sc,
        ) by {
            assert(trie(vs[i], path.push(slots[i]), sc));
        }
        lemma_tries_keyed(init, path, slots, sc);
        assert(trie(vs[last], path.push(slots[last]), sc));
        lemma_trie_keyed(vs.last(), path.push(slots[last]), sc);
        let a = pairs_all(init, sc.env);
        let b = pairs(vs.last(), sc.env);
        let es = a + b;
        assert forall|i: int, j: int| 0 <= i < j < es.len() implies (#[trigger] es[i]).0 != (
        #[trigger] es[j]).0 by {
            if j < a.len() {
                assert(a[i].0 != a[j].0);
            } else if i >= a.len() {
                assert(b[i - a.len()].0 != b[j - a.len()].0);
            } else {
                let x = a[i];
                let y = b[j - a.len()];
                assert(a.contains(x));
                assert(b.contains(y));
                lemma_pairs_in(init, sc.env, x);
                let c = choose|c: int|
                    0 <= c < init.len() && pairs(#[trigger] init[c], sc.env).contains(x);
                lemma_tries_under(init, path, slots, sc, c, x);
                lemma_tries_under(vs, path, slots, sc, last, y);
                lemma_under_push(hashed(x.0), path, slots[c]);
                lemma_under_push(hashed(y.0), path, slots[last]);
                assert(slots[c] < slots[last]);
            }
        }
    }
}

/// Where a key can be: only in the child whose slot its hash selects.
pub proof fn lemma_find(
    bitmap: u32,
    vs: Seq<Value>,
    path: Seq<u64>,
    sc: Scene,
    e: (Norm, Norm),
)
    requires
        tries(vs, path, taken(bitmap, 32), sc),
        vs.len() == taken(bitmap, 32).len(),
    ensures
        ({
            let s = slot_at(hashed(e.0), path.len());
            &&& s < 32
            &&& !takes(bitmap, s) ==> !pairs_all(vs, sc.env).contains(e)
            &&& takes(bitmap, s) ==> rank(bitmap, s) < vs.len() && (pairs_all(
                vs,
                sc.env,
            ).contains(e) <==> pairs(vs[rank(bitmap, s) as int], sc.env).contains(e)) && {
                let r = rank(bitmap, s) as int;
                &&& !pairs_all(vs.take(r), sc.env).contains(e)
                &&& !pairs_all(vs.skip(r + 1), sc.env).contains(e)
            }
        }),
{
    let h = hashed(e.0);
    let s = slot_at(h, path.len());
    let slots = taken(bitmap, 32);
    lemma_slot(h, path.len());
    lemma_taken(bitmap, 32);
    lemma_pairs_in(vs, sc.env, e);
    if pairs_all(vs, sc.env).contains(e) {
        let i = choose|i: int| 0 <= i < vs.len() && pairs(#[trigger] vs[i], sc.env).contains(e);
        lemma_tries_under(vs, path, slots, sc, i, e);
        lemma_under_push(h, path, slots[i]);
        assert(slots[i] == s);
        assert(takes(bitmap, s));
    }
    if takes(bitmap, s) {
        let r = rank(bitmap, s) as int;
        lemma_rank(bitmap, s, 32);
        assert forall|i: int| 0 <= i < vs.len() && i != r implies !pairs(
            #[trigger] vs[i],
            sc.env,
        ).contains(e) by {
            if pairs(vs[i], sc.env).contains(e) {
                lemma_tries_under(vs, path, slots, sc, i, e);
                lemma_under_push(h, path, slots[i]);
                assert(slots[i] == slots[r]);
                if i < r {
                    assert(slots[i] < slots[r]);
                } else {
                    assert(slots[r] < slots[i]);
                }
            }
        }
        lemma_pairs_in(vs.take(r), sc.env, e);
        lemma_pairs_in(vs.skip(r + 1), sc.env, e);
        if pairs_all(vs.take(r), sc.env).contains(e) {
            let i = choose|i: int|
                0 <= i < r && pairs(#[trigger] vs.take(r)[i], sc.env).contains(e);
            assert(pairs(vs[i], sc.env).contains(e));
        }
        if pairs_all(vs.skip(r + 1), sc.env).contains(e) {
            let i = choose|i: int|
                0 <= i < vs.skip(r + 1).len() && pairs(
                    #[trigger] vs.skip(r + 1)[i],
                    sc.env,
                ).contains(e);
            assert(pairs(vs[r + 1 + i], sc.env).contains(e));
        }
    }
}

/// One entry put in place of any with its key.
pub open spec fn put(
    before: Seq<(Norm, Norm)>,
    after: Seq<(Norm, Norm)>,
    k: Norm,
    x: Norm,
) -> bool {
    forall|e: (Norm, Norm)| #[trigger]
        after.contains(e) <==> if e.0 == k {
            e.1 == x
        } else {
            before.contains(e)
        }
}

/// Any entry with a key taken out.
pub open spec fn cut(before: Seq<(Norm, Norm)>, after: Seq<(Norm, Norm)>, k: Norm) -> bool {
    forall|e: (Norm, Norm)| #[trigger] after.contains(e) <==> e.0 != k && before.contains(e)
}

/// Whether a key has an entry.
pub open spec fn has_key(es: Seq<(Norm, Norm)>, k: Norm) -> bool {
    exists|x: Norm| #[trigger] es.contains((k, x))
}

/// Entries with no key twice, the same ones, are the same bag.
pub proof fn lemma_same_bag(a: Seq<(Norm, Norm)>, b: Seq<(Norm, Norm)>)
    requires
        keyed(a),
        keyed(b),
        forall|e: (Norm, Norm)| #[trigger] a.contains(e) <==> b.contains(e),
    ensures
        a.to_multiset() == b.to_multiset(),
{
    broadcast use vstd::seq_lib::group_to_multiset_ensures;

    lemma_keyed_counts(a);
    lemma_keyed_counts(b);
    assert forall|e: (Norm, Norm)| #[trigger] a.to_multiset().count(e) == b.to_multiset().count(
        e,
    ) by {
        assert(a.contains(e) <==> b.contains(e));
    }
    assert(a.to_multiset() =~= b.to_multiset());
}

proof fn lemma_keyed_counts(a: Seq<(Norm, Norm)>)
    requires
        keyed(a),
    ensures
        forall|e: (Norm, Norm)| #[trigger]
            a.to_multiset().count(e) == if a.contains(e) {
                1nat
            } else {
                0nat
            },
{
    broadcast use vstd::seq_lib::group_to_multiset_ensures;

    assert(a.no_duplicates()) by {
        assert forall|i: int, j: int| 0 <= i < a.len() && 0 <= j < a.len() && i != j implies a[i]
            != a[j] by {
            if i < j {
                assert(a[i].0 != a[j].0);
            } else {
                assert(a[j].0 != a[i].0);
            }
        }
    }
    a.lemma_multiset_has_no_duplicates();
    assert forall|e: (Norm, Norm)| #[trigger]
        a.to_multiset().count(e) == if a.contains(e) {
            1nat
        } else {
            0nat
        } by {
        assert(a.to_multiset().contains(e) <==> a.contains(e));
    }
}

/// The same bag has the same entries.
pub proof fn lemma_bag_same(a: Seq<(Norm, Norm)>, b: Seq<(Norm, Norm)>)
    requires
        a.to_multiset() == b.to_multiset(),
    ensures
        a.len() == b.len(),
        forall|e: (Norm, Norm)| #[trigger] a.contains(e) <==> b.contains(e),
{
    a.to_multiset_ensures();
    b.to_multiset_ensures();
    assert forall|e: (Norm, Norm)| #[trigger] a.contains(e) <==> b.contains(e) by {
        assert(a.contains(e) <==> a.to_multiset().count(e) > 0);
        assert(b.contains(e) <==> b.to_multiset().count(e) > 0);
    }
}

} // verus!
