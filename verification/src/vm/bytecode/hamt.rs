//! The persistent hash map behind `Map` values: a trie of 32-way nodes, five
//! bits of a key's hash to a level. Keys whose whole hashes agree share a
//! bucket. A map that nothing else refers to is edited in place; of any other
//! the nodes on the way are copied and the rest is shared.

use crate::vm::bytecode::equal::{
    collision_find, compact, map_entries, means, node_get, paired_users, root_entries, slot,
    values_equal,
};
use crate::vm::bytecode::hash::{hash_value, Surroundings};
use crate::vm::bytecode::norm::{Env, hashed, norm, Norm, norms, paired, pairs, pairs_all};
use crate::vm::bytecode::object::{
    all_fit, alloc_obj, Arena, Body, fits, is_object, MapBox, Object, Value,
};
use crate::vm::bytecode::sound::{
    bucket, lemma_nil_is_no_object, Scene, single, slot_at, taken, trie, tries, under, user, users,
};
use crate::vm::bytecode::tree::{copy, refill, Shell, take_apart};
use crate::vm::bytecode::trie::{
    cut, has_key, keyed, lemma_find, lemma_full_path, lemma_in_add, lemma_pairs_add,
    lemma_pairs_one, lemma_pairs_split, lemma_rank, lemma_slot, lemma_taken_insert, lemma_taken_one,
    lemma_taken_remove, lemma_taken_two, lemma_trie_keyed, lemma_under_push, put, rank, takes,
};
use crate::vm::bytecode::word::{HDR_NIL, word_kind};
use vstd::prelude::*;

verus! {

/// A map of its own entries that programs can hold, of an arena.
pub open spec fn hamt_map(imm: bool, v: Value, sc: Scene) -> bool {
    &&& user(v, sc)
    &&& fits(imm, v)
    &&& v.body() matches Some(Body::MapRoot(m)) && m is Hamt
}

/// The entries of such a map.
pub open spec fn entries(v: Value, env: Env) -> Seq<(Norm, Norm)> {
    match v.body() {
        Some(Body::MapRoot(m)) => map_entries(m, env),
        _ => Seq::empty(),
    }
}

/// A trie node reached by a path that an arena's objects may hold.
pub open spec fn at_path(imm: bool, v: Value, path: Seq<u64>, sc: Scene) -> bool {
    trie(v, path, sc) && fits(imm, v)
}

/// A value that a map of an arena may hold.
pub open spec fn storable(imm: bool, v: Value, sc: Scene) -> bool {
    user(v, sc) && fits(imm, v)
}

/// A node that is no branch.
pub open spec fn leafy(v: Value) -> bool {
    v.body() is Some && (v.body()->Some_0 is HamtEntry || v.body()->Some_0 is HamtCollision)
}

/// The children of a node fit where it does.
proof fn lemma_kids_fit(imm: bool, n: Value, path: Seq<u64>, sc: Scene)
    requires
        at_path(imm, n, path, sc),
    ensures
        all_fit(imm, n.body()->Some_0.kids()),
{
    if imm {
        assert(n.obj->Some_0.immortal);
    }
}

proof fn lemma_mortal(imm: bool, v: Value)
    requires
        v.sound(),
        v.obj is Some,
        fits(imm, v),
        !v.obj->Some_0.immortal,
    ensures
        !imm,
{
}

/// An entry.
fn entry_in<A: Arena>(
    a: &mut A,
    key: Value,
    value: Value,
    Ghost(path): Ghost<Seq<u64>>,
    Ghost(sc): Ghost<Scene>,
) -> (r: Value)
    requires
        storable(old(a).immortal(), key, sc),
        storable(old(a).immortal(), value, sc),
        under(hashed(norm(key, sc.env)), path),
        path.len() <= 13,
    ensures
        final(a).immortal() == old(a).immortal(),
        at_path(old(a).immortal(), r, path, sc),
        leafy(r),
        pairs(r, sc.env) == seq![(norm(key, sc.env), norm(value, sc.env))],
{
    proof {
        assert(Body::HamtEntry(key, value).kids() =~= seq![key, value]);
    }
    alloc_obj(a, Body::HamtEntry(key, value), 3)
}

/// A bucket.
fn collision_in<A: Arena>(
    a: &mut A,
    hash: u64,
    vs: Vec<Value>,
    Ghost(path): Ghost<Seq<u64>>,
    Ghost(sc): Ghost<Scene>,
) -> (r: Value)
    requires
        all_fit(old(a).immortal(), vs@),
        users(vs@, sc),
        vs@.len() >= 4,
        vs@.len() % 2 == 0,
        bucket(norms(vs@, sc.env), hash),
        under(hash, path),
        path.len() <= 13,
    ensures
        final(a).immortal() == old(a).immortal(),
        at_path(old(a).immortal(), r, path, sc),
        leafy(r),
        !single(r),
        pairs(r, sc.env) == paired(norms(vs@, sc.env)),
{
    let words: usize = vs.len().saturating_add(3);
    proof {
        assert(Body::HamtCollision(hash, vs).kids() =~= vs@);
    }
    alloc_obj(a, Body::HamtCollision(hash, vs), words)
}

/// A branch.
fn branch_in<A: Arena>(
    a: &mut A,
    bitmap: u32,
    vs: Vec<Value>,
    Ghost(path): Ghost<Seq<u64>>,
    Ghost(sc): Ghost<Scene>,
) -> (r: Value)
    requires
        all_fit(old(a).immortal(), vs@),
        path.len() < 13,
        vs@.len() >= 1,
        vs@.len() == taken(bitmap, 32).len(),
        vs@.len() == 1 ==> !single(vs@[0]),
        tries(vs@, path, taken(bitmap, 32), sc),
    ensures
        final(a).immortal() == old(a).immortal(),
        at_path(old(a).immortal(), r, path, sc),
        r.body() == Some(Body::HamtBranch(bitmap, vs)),
        pairs(r, sc.env) == pairs_all(vs@, sc.env),
{
    let words: usize = vs.len().saturating_add(2);
    proof {
        assert(Body::HamtBranch(bitmap, vs).kids() =~= vs@);
    }
    alloc_obj(a, Body::HamtBranch(bitmap, vs), words)
}

/// A branch in the place of one that nothing else referred to.
fn branch_back(
    shell: Shell,
    bitmap: u32,
    vs: Vec<Value>,
    Ghost(path): Ghost<Seq<u64>>,
    Ghost(sc): Ghost<Scene>,
) -> (r: Value)
    requires
        shell.ok(),
        word_kind(shell.bits) is Object,
        path.len() < 13,
        vs@.len() >= 1,
        vs@.len() == taken(bitmap, 32).len(),
        vs@.len() == 1 ==> !single(vs@[0]),
        tries(vs@, path, taken(bitmap, 32), sc),
    ensures
        at_path(false, r, path, sc),
        r.body() == Some(Body::HamtBranch(bitmap, vs)),
        pairs(r, sc.env) == pairs_all(vs@, sc.env),
{
    refill(shell, Body::HamtBranch(bitmap, vs))
}

/// A child replaced by one with an entry put in.
proof fn lemma_branch_put(
    bitmap: u32,
    vs: Seq<Value>,
    c: Value,
    path: Seq<u64>,
    sc: Scene,
    nk: Norm,
    nv: Norm,
)
    requires
        tries(vs, path, taken(bitmap, 32), sc),
        vs.len() == taken(bitmap, 32).len(),
        takes(bitmap, slot_at(hashed(nk), path.len())),
        ({
            let s = slot_at(hashed(nk), path.len());
            let i = rank(bitmap, s) as int;
            &&& trie(c, path.push(s), sc)
            &&& put(pairs(vs[i], sc.env), pairs(c, sc.env), nk, nv)
        }),
    ensures
        ({
            let i = rank(bitmap, slot_at(hashed(nk), path.len())) as int;
            let ws = vs.update(i, c);
            &&& i < vs.len()
            &&& tries(ws, path, taken(bitmap, 32), sc)
            &&& put(pairs_all(vs, sc.env), pairs_all(ws, sc.env), nk, nv)
            &&& pairs_all(ws, sc.env).len() - pairs(c, sc.env).len() == pairs_all(
                vs,
                sc.env,
            ).len() - pairs(vs[i], sc.env).len()
            &&& has_key(pairs_all(vs, sc.env), nk) <==> has_key(pairs(vs[i], sc.env), nk)
        }),
{
    let env = sc.env;
    let s = slot_at(hashed(nk), path.len());
    lemma_slot(hashed(nk), path.len());
    lemma_rank(bitmap, s, 32);
    let i = rank(bitmap, s) as int;
    let slots = taken(bitmap, 32);
    let ws = vs.update(i, c);
    assert forall|j: int| 0 <= j < ws.len() implies trie(#[trigger] ws[j], path.push(slots[j]), sc) by {
        if j != i {
            assert(trie(vs[j], path.push(slots[j]), sc));
        }
    }
    lemma_pairs_split(vs, i, env);
    lemma_pairs_split(ws, i, env);
    assert(ws.take(i) =~= vs.take(i));
    assert(ws.skip(i + 1) =~= vs.skip(i + 1));
    let x = pairs_all(vs.take(i), env);
    let y = pairs_all(vs.skip(i + 1), env);
    let before = pairs_all(vs, env);
    let after = pairs_all(ws, env);
    assert forall|e: (Norm, Norm)| #[trigger] after.contains(e) <==> if e.0 == nk {
        e.1 == nv
    } else {
        before.contains(e)
    } by {
        lemma_in_add(x + pairs(vs[i], env), y, e);
        lemma_in_add(x, pairs(vs[i], env), e);
        lemma_in_add(x + pairs(c, env), y, e);
        lemma_in_add(x, pairs(c, env), e);
        if e.0 == nk {
            lemma_find(bitmap, vs, path, sc, e);
        }
        assert(pairs(c, env).contains(e) <==> if e.0 == nk {
            e.1 == nv
        } else {
            pairs(vs[i], env).contains(e)
        });
    }
    lemma_has_key_child(bitmap, vs, path, sc, nk);
}

/// A key of a branch is one of the child that its hash selects.
proof fn lemma_has_key_child(bitmap: u32, vs: Seq<Value>, path: Seq<u64>, sc: Scene, nk: Norm)
    requires
        tries(vs, path, taken(bitmap, 32), sc),
        vs.len() == taken(bitmap, 32).len(),
    ensures
        ({
            let s = slot_at(hashed(nk), path.len());
            &&& !takes(bitmap, s) ==> !has_key(pairs_all(vs, sc.env), nk)
            &&& takes(bitmap, s) ==> (has_key(pairs_all(vs, sc.env), nk) <==> has_key(
                pairs(vs[rank(bitmap, s) as int], sc.env),
                nk,
            ))
        }),
{
    let env = sc.env;
    let all = pairs_all(vs, env);
    let s = slot_at(hashed(nk), path.len());
    if has_key(all, nk) {
        let x = choose|x: Norm| #[trigger] all.contains((nk, x));
        lemma_find(bitmap, vs, path, sc, (nk, x));
    }
    if takes(bitmap, s) {
        let one = pairs(vs[rank(bitmap, s) as int], env);
        if has_key(one, nk) {
            let x = choose|x: Norm| #[trigger] one.contains((nk, x));
            lemma_find(bitmap, vs, path, sc, (nk, x));
            assert(all.contains((nk, x)));
        }
        if has_key(all, nk) {
            let x = choose|x: Norm| #[trigger] all.contains((nk, x));
            lemma_find(bitmap, vs, path, sc, (nk, x));
            assert(one.contains((nk, x)));
        }
    }
}

/// A new child in a slot that was free.
proof fn lemma_branch_grow(
    bitmap: u32,
    vs: Seq<Value>,
    c: Value,
    path: Seq<u64>,
    sc: Scene,
    nk: Norm,
    nv: Norm,
)
    requires
        tries(vs, path, taken(bitmap, 32), sc),
        vs.len() == taken(bitmap, 32).len(),
        !takes(bitmap, slot_at(hashed(nk), path.len())),
        trie(c, path.push(slot_at(hashed(nk), path.len())), sc),
        pairs(c, sc.env) == seq![(nk, nv)],
    ensures
        ({
            let s = slot_at(hashed(nk), path.len());
            let i = rank(bitmap, s) as int;
            let ws = vs.insert(i, c);
            let slots = taken(bitmap | (1u32 << (s as u32)), 32);
            &&& i <= vs.len()
            &&& ws.len() == slots.len()
            &&& tries(ws, path, slots, sc)
            &&& put(pairs_all(vs, sc.env), pairs_all(ws, sc.env), nk, nv)
            &&& pairs_all(ws, sc.env).len() == pairs_all(vs, sc.env).len() + 1
            &&& !has_key(pairs_all(vs, sc.env), nk)
        }),
{
    let env = sc.env;
    let s = slot_at(hashed(nk), path.len());
    lemma_slot(hashed(nk), path.len());
    lemma_rank(bitmap, s, 32);
    lemma_taken_insert(bitmap, s, 32);
    let i = rank(bitmap, s) as int;
    let old_slots = taken(bitmap, 32);
    let slots = taken(bitmap | (1u32 << (s as u32)), 32);
    let ws = vs.insert(i, c);
    assert forall|j: int| 0 <= j < ws.len() implies trie(#[trigger] ws[j], path.push(slots[j]), sc) by {
        if j < i {
            assert(ws[j] == vs[j]);
            assert(slots[j] == old_slots[j]);
            assert(trie(vs[j], path.push(old_slots[j]), sc));
        } else if j > i {
            assert(ws[j] == vs[j - 1]);
            assert(slots[j] == old_slots[j - 1]);
            assert(trie(vs[j - 1], path.push(old_slots[j - 1]), sc));
        }
    }
    lemma_pairs_split(ws, i, env);
    assert(ws.take(i) =~= vs.take(i));
    assert(ws.skip(i + 1) =~= vs.skip(i));
    assert(vs =~= vs.take(i) + vs.skip(i));
    lemma_pairs_add(vs.take(i), vs.skip(i), env);
    let x = pairs_all(vs.take(i), env);
    let y = pairs_all(vs.skip(i), env);
    let one = pairs(c, env);
    let before = pairs_all(vs, env);
    let after = pairs_all(ws, env);
    assert(one.len() == 1);
    assert forall|e: (Norm, Norm)| #[trigger] after.contains(e) <==> if e.0 == nk {
        e.1 == nv
    } else {
        before.contains(e)
    } by {
        lemma_in_add(x, y, e);
        lemma_in_add(x + one, y, e);
        lemma_in_add(x, one, e);
        if e.0 == nk {
            lemma_find(bitmap, vs, path, sc, e);
        }
        assert(one.contains(e) <==> e == (nk, nv)) by {
            assert(one[0] == (nk, nv));
        }
    }
    lemma_has_key_child(bitmap, vs, path, sc, nk);
}

/// A child replaced by one with a key taken out.
proof fn lemma_branch_cut(
    bitmap: u32,
    vs: Seq<Value>,
    c: Value,
    path: Seq<u64>,
    sc: Scene,
    nk: Norm,
)
    requires
        tries(vs, path, taken(bitmap, 32), sc),
        vs.len() == taken(bitmap, 32).len(),
        takes(bitmap, slot_at(hashed(nk), path.len())),
        ({
            let s = slot_at(hashed(nk), path.len());
            let i = rank(bitmap, s) as int;
            &&& trie(c, path.push(s), sc)
            &&& cut(pairs(vs[i], sc.env), pairs(c, sc.env), nk)
        }),
    ensures
        ({
            let i = rank(bitmap, slot_at(hashed(nk), path.len())) as int;
            let ws = vs.update(i, c);
            &&& i < vs.len()
            &&& tries(ws, path, taken(bitmap, 32), sc)
            &&& cut(pairs_all(vs, sc.env), pairs_all(ws, sc.env), nk)
            &&& pairs_all(ws, sc.env).len() - pairs(c, sc.env).len() == pairs_all(
                vs,
                sc.env,
            ).len() - pairs(vs[i], sc.env).len()
        }),
{
    let env = sc.env;
    let s = slot_at(hashed(nk), path.len());
    lemma_slot(hashed(nk), path.len());
    lemma_rank(bitmap, s, 32);
    let i = rank(bitmap, s) as int;
    let slots = taken(bitmap, 32);
    let ws = vs.update(i, c);
    assert forall|j: int| 0 <= j < ws.len() implies trie(#[trigger] ws[j], path.push(slots[j]), sc) by {
        if j != i {
            assert(trie(vs[j], path.push(slots[j]), sc));
        }
    }
    lemma_pairs_split(vs, i, env);
    lemma_pairs_split(ws, i, env);
    assert(ws.take(i) =~= vs.take(i));
    assert(ws.skip(i + 1) =~= vs.skip(i + 1));
    let x = pairs_all(vs.take(i), env);
    let y = pairs_all(vs.skip(i + 1), env);
    let before = pairs_all(vs, env);
    let after = pairs_all(ws, env);
    assert forall|e: (Norm, Norm)| #[trigger] after.contains(e) <==> e.0 != nk && before.contains(
        e,
    ) by {
        lemma_in_add(x + pairs(vs[i], env), y, e);
        lemma_in_add(x, pairs(vs[i], env), e);
        lemma_in_add(x + pairs(c, env), y, e);
        lemma_in_add(x, pairs(c, env), e);
        if e.0 == nk {
            lemma_find(bitmap, vs, path, sc, e);
        }
        assert(pairs(c, env).contains(e) <==> e.0 != nk && pairs(vs[i], env).contains(e));
    }
}

/// A child that held just one key taken out with it.
proof fn lemma_branch_shrink(bitmap: u32, vs: Seq<Value>, path: Seq<u64>, sc: Scene, nk: Norm)
    requires
        tries(vs, path, taken(bitmap, 32), sc),
        vs.len() == taken(bitmap, 32).len(),
        takes(bitmap, slot_at(hashed(nk), path.len())),
        ({
            let i = rank(bitmap, slot_at(hashed(nk), path.len())) as int;
            &&& pairs(vs[i], sc.env).len() == 1
            &&& has_key(pairs(vs[i], sc.env), nk)
        }),
    ensures
        ({
            let s = slot_at(hashed(nk), path.len());
            let i = rank(bitmap, s) as int;
            let ws = vs.remove(i);
            let slots = taken(bitmap & !(1u32 << (s as u32)), 32);
            &&& i < vs.len()
            &&& ws.len() == slots.len()
            &&& tries(ws, path, slots, sc)
            &&& cut(pairs_all(vs, sc.env), pairs_all(ws, sc.env), nk)
            &&& pairs_all(ws, sc.env).len() + 1 == pairs_all(vs, sc.env).len()
        }),
{
    let env = sc.env;
    let s = slot_at(hashed(nk), path.len());
    lemma_slot(hashed(nk), path.len());
    lemma_rank(bitmap, s, 32);
    lemma_taken_remove(bitmap, s, 32);
    let i = rank(bitmap, s) as int;
    let old_slots = taken(bitmap, 32);
    let slots = taken(bitmap & !(1u32 << (s as u32)), 32);
    let ws = vs.remove(i);
    assert forall|j: int| 0 <= j < ws.len() implies trie(#[trigger] ws[j], path.push(slots[j]), sc) by {
        if j < i {
            assert(ws[j] == vs[j]);
            assert(slots[j] == old_slots[j]);
            assert(trie(vs[j], path.push(old_slots[j]), sc));
        } else {
            assert(ws[j] == vs[j + 1]);
            assert(slots[j] == old_slots[j + 1]);
            assert(trie(vs[j + 1], path.push(old_slots[j + 1]), sc));
        }
    }
    lemma_pairs_split(vs, i, env);
    assert(ws =~= vs.take(i) + vs.skip(i + 1));
    lemma_pairs_add(vs.take(i), vs.skip(i + 1), env);
    let x = pairs_all(vs.take(i), env);
    let y = pairs_all(vs.skip(i + 1), env);
    let one = pairs(vs[i], env);
    let before = pairs_all(vs, env);
    let after = pairs_all(ws, env);
    let val = choose|val: Norm| #[trigger] one.contains((nk, val));
    assert(one[0] == (nk, val));
    assert forall|e: (Norm, Norm)| #[trigger] after.contains(e) <==> e.0 != nk && before.contains(
        e,
    ) by {
        lemma_in_add(x, y, e);
        lemma_in_add(x + one, y, e);
        lemma_in_add(x, one, e);
        if e.0 == nk {
            lemma_find(bitmap, vs, path, sc, e);
        } else if one.contains(e) {
            let j = choose|j: int| 0 <= j < one.len() && one[j] == e;
            assert(j == 0);
        }
    }
}

/// An entry or a bucket may stand higher up.
proof fn lemma_leaf_up(imm: bool, c: Value, path: Seq<u64>, s: u64, sc: Scene)
    requires
        at_path(imm, c, path.push(s), sc),
        leafy(c),
    ensures
        at_path(imm, c, path, sc),
{
    match c.body()->Some_0 {
        Body::HamtEntry(k, x) => {
            lemma_under_push(hashed(norm(k, sc.env)), path, s);
        },
        Body::HamtCollision(h, vs) => {
            lemma_under_push(h, path, s);
        },
        _ => {},
    }
}

/// The one hash that the keys of an entry or a bucket have.
pub open spec fn leaf_hash(c: Value, env: Env) -> u64 {
    match c.body() {
        Some(Body::HamtEntry(k, x)) => hashed(norm(k, env)),
        Some(Body::HamtCollision(h, vs)) => h,
        _ => 0,
    }
}

/// An entry or a bucket may stand further down its path.
proof fn lemma_leaf_down(imm: bool, c: Value, path: Seq<u64>, sc: Scene)
    requires
        at_path(imm, c, path, sc),
        leafy(c),
        path.len() < 13,
    ensures
        at_path(imm, c, path.push(slot_at(leaf_hash(c, sc.env), path.len())), sc),
{
    lemma_under_push(
        leaf_hash(c, sc.env),
        path,
        slot_at(leaf_hash(c, sc.env), path.len()),
    );
}

/// Part an entry or a bucket from a new entry with another hash, or from one
/// with another key.
fn split<A: Arena>(
    a: &mut A,
    left: Value,
    lhash: u64,
    rkey: Value,
    rvalue: Value,
    rhash: u64,
    shift: u64,
    Ghost(path): Ghost<Seq<u64>>,
    Ghost(sc): Ghost<Scene>,
) -> (r: Value)
    requires
        at_path(old(a).immortal(), left, path, sc),
        leafy(left),
        lhash == leaf_hash(left, sc.env),
        storable(old(a).immortal(), rkey, sc),
        storable(old(a).immortal(), rvalue, sc),
        rhash == hashed(norm(rkey, sc.env)),
        under(rhash, path),
        shift == 5 * path.len(),
        !has_key(pairs(left, sc.env), norm(rkey, sc.env)),
        lhash != rhash || left.body()->Some_0 is HamtEntry,
    ensures
        final(a).immortal() == old(a).immortal(),
        at_path(old(a).immortal(), r, path, sc),
        !single(r),
        put(pairs(left, sc.env), pairs(r, sc.env), norm(rkey, sc.env), norm(rvalue, sc.env)),
        pairs(r, sc.env).len() == pairs(left, sc.env).len() + 1,
    decreases 13 - path.len(),
{
    let ghost imm = a.immortal();
    let ghost env = sc.env;
    let ghost nk = norm(rkey, env);
    let ghost nv = norm(rvalue, env);
    let ghost old_pairs = pairs(left, env);
    if shift >= 65 {
        proof {
            lemma_full_path(lhash, rhash, path);
        }
        return merge_into_collision(a, &left, lhash, rkey, rvalue, Ghost(path), Ghost(sc));
    }
    let ghost d = path.len();
    let li = slot(lhash, shift, Ghost(d));
    let ri = slot(rhash, shift, Ghost(d));
    proof {
        lemma_leaf_down(imm, left, path, sc);
        lemma_under_push(rhash, path, ri);
    }
    if li == ri {
        let child = split(
            a,
            left,
            lhash,
            rkey,
            rvalue,
            rhash,
            shift + 5,
            Ghost(path.push(li)),
            Ghost(sc),
        );
        let ghost c0 = child;
        let mut one: Vec<Value> = Vec::new();
        one.push(child);
        proof {
            lemma_taken_one(li);
            assert(one@ =~= seq![c0]);
            lemma_pairs_one(c0, env);
        }
        branch_in(a, 1u32 << (li as u32), one, Ghost(path), Ghost(sc))
    } else {
        let right = entry_in(a, rkey, rvalue, Ghost(path.push(ri)), Ghost(sc));
        let ghost (l0, r0) = (left, right);
        let mut two: Vec<Value> = Vec::new();
        if li < ri {
            two.push(left);
            two.push(right);
            proof {
                lemma_taken_two(li, ri);
                assert(two@ =~= seq![l0] + seq![r0]);
                lemma_pairs_add(seq![l0], seq![r0], env);
                lemma_pairs_one(l0, env);
                lemma_pairs_one(r0, env);
                lemma_put_one(old_pairs, nk, nv);
            }
        } else {
            two.push(right);
            two.push(left);
            proof {
                lemma_taken_two(ri, li);
                assert(two@ =~= seq![r0] + seq![l0]);
                lemma_pairs_add(seq![r0], seq![l0], env);
                lemma_pairs_one(l0, env);
                lemma_pairs_one(r0, env);
                lemma_put_one(old_pairs, nk, nv);
            }
        }
        branch_in(
            a,
            (1u32 << (li as u32)) | (1u32 << (ri as u32)),
            two,
            Ghost(path),
            Ghost(sc),
        )
    }
}

/// One more entry, with a new key, before or after the others.
proof fn lemma_put_one(es: Seq<(Norm, Norm)>, k: Norm, x: Norm)
    requires
        !has_key(es, k),
    ensures
        put(es, es + seq![(k, x)], k, x),
        put(es, seq![(k, x)] + es, k, x),
{
    let one = seq![(k, x)];
    assert forall|e: (Norm, Norm)| #[trigger] (es + one).contains(e) <==> if e.0 == k {
        e.1 == x
    } else {
        es.contains(e)
    } by {
        lemma_in_add(es, one, e);
        assert(one.contains(e) <==> e == (k, x)) by {
            assert(one[0] == (k, x));
        }
        if e.0 == k && es.contains(e) {
            assert(es.contains((k, e.1)));
        }
    }
    assert forall|e: (Norm, Norm)| #[trigger] (one + es).contains(e) <==> if e.0 == k {
        e.1 == x
    } else {
        es.contains(e)
    } by {
        lemma_in_add(one, es, e);
        assert(one.contains(e) <==> e == (k, x)) by {
            assert(one[0] == (k, x));
        }
        if e.0 == k && es.contains(e) {
            assert(es.contains((k, e.1)));
        }
    }
}

/// A bucket of an entry and a new one of its hash.
fn merge_into_collision<A: Arena>(
    a: &mut A,
    left: &Value,
    hash: u64,
    rkey: Value,
    rvalue: Value,
    Ghost(path): Ghost<Seq<u64>>,
    Ghost(sc): Ghost<Scene>,
) -> (r: Value)
    requires
        at_path(old(a).immortal(), *left, path, sc),
        left.body()->Some_0 is HamtEntry,
        hash == leaf_hash(*left, sc.env),
        storable(old(a).immortal(), rkey, sc),
        storable(old(a).immortal(), rvalue, sc),
        hash == hashed(norm(rkey, sc.env)),
        !has_key(pairs(*left, sc.env), norm(rkey, sc.env)),
    ensures
        final(a).immortal() == old(a).immortal(),
        at_path(old(a).immortal(), r, path, sc),
        !single(r),
        put(pairs(*left, sc.env), pairs(r, sc.env), norm(rkey, sc.env), norm(rvalue, sc.env)),
        pairs(r, sc.env).len() == pairs(*left, sc.env).len() + 1,
{
    let ghost imm = a.immortal();
    let ghost env = sc.env;
    let ghost nk = norm(rkey, env);
    let ghost nv = norm(rvalue, env);
    proof {
        lemma_kids_fit(imm, *left, path, sc);
    }
    match &left.obj {
        Some(o) => match &o.body {
            Body::HamtEntry(k, x) => {
                let mut vs: Vec<Value> = Vec::new();
                proof {
                    assert(Body::HamtEntry(*k, *x).kids() =~= seq![*k, *x]);
                    assert(fits(imm, seq![*k, *x][0]) && fits(imm, seq![*k, *x][1]));
                    assert(pairs(*left, env)[0] == (norm(*k, env), norm(*x, env)));
                    assert(pairs(*left, env).contains((norm(*k, env), norm(*x, env))));
                }
                vs.push(k.clone());
                vs.push(x.clone());
                vs.push(rkey);
                vs.push(rvalue);
                proof {
                    let ns = norms(vs@, env);
                    assert(ns =~= seq![norm(*k, env), norm(*x, env), nk, nv]);
                    assert(paired(ns) =~= pairs(*left, env) + seq![(nk, nv)]);
                    lemma_put_one(pairs(*left, env), nk, nv);
                }
                collision_in(a, hash, vs, Ghost(path), Ghost(sc))
            },
            _ => vstd::pervasive::unreached(),
        },
        None => vstd::pervasive::unreached(),
    }
}

/// An insert that replaces the nodes on its way.
fn node_insert<A: Arena>(
    a: &mut A,
    n: &Value,
    key: Value,
    value: Value,
    hash: u64,
    shift: u64,
    s: &Surroundings,
    Ghost(path): Ghost<Seq<u64>>,
) -> (r: (Value, bool))
    requires
        s.ok(),
        at_path(old(a).immortal(), *n, path, s.scene()),
        storable(old(a).immortal(), key, s.scene()),
        storable(old(a).immortal(), value, s.scene()),
        hash == hashed(norm(key, s.scene().env)),
        under(hash, path),
        shift == 5 * path.len(),
    ensures
        final(a).immortal() == old(a).immortal(),
        at_path(old(a).immortal(), r.0, path, s.scene()),
        inserted(*n, r.0, r.1, norm(key, s.scene().env), norm(value, s.scene().env), s.scene().env),
    decreases 14 - path.len(),
{
    let ghost imm = a.immortal();
    let ghost sc = s.scene();
    let ghost env = sc.env;
    let ghost nk = norm(key, env);
    let ghost nv = norm(value, env);
    proof {
        lemma_kids_fit(imm, *n, path, sc);
    }
    match &n.obj {
        Some(o) => match &o.body {
            Body::HamtEntry(k, x) => {
                proof {
                    lemma_entry_key(*n, *k, *x, nk, env);
                }
                if values_equal(k, &key, s) {
                    let e = entry_in(a, key, value, Ghost(path), Ghost(sc));
                    proof {
                        lemma_put_over(pairs(*n, env), nk, nv);
                    }
                    (e, false)
                } else {
                    let lhash = hash_value(k, s);
                    let e = split(
                        a,
                        n.clone(),
                        lhash,
                        key,
                        value,
                        hash,
                        shift,
                        Ghost(path),
                        Ghost(sc),
                    );
                    (e, true)
                }
            },
            Body::HamtCollision(h, vs) => {
                if *h == hash {
                    bucket_insert(a, n, *h, vs, key, value, s, Ghost(path))
                } else {
                    proof {
                        if has_key(pairs(*n, env), nk) {
                            let x = choose|x: Norm| #[trigger] pairs(*n, env).contains((nk, x));
                            let ns = norms(vs@, env);
                            let j = choose|j: int|
                                0 <= j < paired(ns).len() && paired(ns)[j] == (nk, x);
                            assert(hashed(ns[2 * j]) == *h);
                        }
                    }
                    let e = split(
                        a,
                        n.clone(),
                        *h,
                        key,
                        value,
                        hash,
                        shift,
                        Ghost(path),
                        Ghost(sc),
                    );
                    (e, true)
                }
            },
            Body::HamtBranch(bitmap, vs) => {
                let b = slot(hash, shift, Ghost(path.len()));
                let i = compact(*bitmap, b);
                proof {
                    lemma_rank(*bitmap, b, 32);
                    lemma_under_push(hash, path, b);
                    assert(Body::HamtBranch(*bitmap, *vs).kids() =~= vs@);
                }
                if (*bitmap >> (b as u32)) & 1 != 1 {
                    let e = entry_in(a, key, value, Ghost(path.push(b)), Ghost(sc));
                    let ghost e0 = e;
                    proof {
                        lemma_branch_grow(*bitmap, vs@, e, path, sc, nk, nv);
                    }
                    let mut nc = copy(vs, 0, vs.len());
                    proof {
                        assert(nc@ =~= vs@);
                    }
                    nc.insert(i, e);
                    proof {
                        assert(nc@ =~= vs@.insert(i as int, e0));
                        lemma_fit_insert(imm, vs@, i as int, e0);
                    }
                    let r = branch_in(
                        a,
                        *bitmap | (1u32 << (b as u32)),
                        nc,
                        Ghost(path),
                        Ghost(sc),
                    );
                    (r, true)
                } else {
                    proof {
                        assert(trie(vs@[i as int], path.push(taken(*bitmap, 32)[i as int]), sc));
                        assert(fits(imm, vs@[i as int]));
                    }
                    let (c, added) = node_insert(
                        a,
                        &vs[i],
                        key,
                        value,
                        hash,
                        shift + 5,
                        s,
                        Ghost(path.push(b)),
                    );
                    let ghost c0 = c;
                    proof {
                        lemma_branch_put(*bitmap, vs@, c, path, sc, nk, nv);
                    }
                    let mut nc = copy(vs, 0, vs.len());
                    proof {
                        assert(nc@ =~= vs@);
                    }
                    nc.set(i, c);
                    proof {
                        assert forall|j: int| 0 <= j < nc@.len() implies fits(
                            imm,
                            #[trigger] nc@[j],
                        ) by {
                            if j != i {
                                assert(fits(imm, vs@[j]));
                            }
                        }
                    }
                    let r = branch_in(a, *bitmap, nc, Ghost(path), Ghost(sc));
                    (r, added)
                }
            },
            _ => vstd::pervasive::unreached(),
        },
        None => vstd::pervasive::unreached(),
    }
}

/// What an insert did: one entry put, and whether its key is new.
pub open spec fn inserted(n: Value, r: Value, added: bool, k: Norm, x: Norm, env: Env) -> bool {
    &&& put(pairs(n, env), pairs(r, env), k, x)
    &&& added <==> !has_key(pairs(n, env), k)
    &&& single(r) ==> single(n)
    &&& pairs(r, env).len() == pairs(n, env).len() + if added {
        1nat
    } else {
        0nat
    }
}

proof fn lemma_fit_insert(imm: bool, vs: Seq<Value>, i: int, c: Value)
    requires
        all_fit(imm, vs),
        fits(imm, c),
        0 <= i <= vs.len(),
    ensures
        all_fit(imm, vs.insert(i, c)),
{
    let ws = vs.insert(i, c);
    assert forall|j: int| 0 <= j < ws.len() implies fits(imm, #[trigger] ws[j]) by {
        if j < i {
            assert(fits(imm, vs[j]));
        } else if j > i {
            assert(fits(imm, vs[j - 1]));
        }
    }
}

/// The only key of an entry.
proof fn lemma_entry_key(n: Value, k: Value, x: Value, nk: Norm, env: Env)
    requires
        n.obj is Some,
        n.body() == Some(Body::HamtEntry(k, x)),
    ensures
        pairs(n, env) == seq![(norm(k, env), norm(x, env))],
        has_key(pairs(n, env), nk) <==> norm(k, env) == nk,
{
    let es = pairs(n, env);
    assert(es[0] == (norm(k, env), norm(x, env)));
    if norm(k, env) == nk {
        assert(es.contains((nk, norm(x, env))));
    }
}

/// An entry over the one entry of its key.
proof fn lemma_put_over(es: Seq<(Norm, Norm)>, k: Norm, x: Norm)
    requires
        es.len() == 1,
        es[0].0 == k,
    ensures
        put(es, seq![(k, x)], k, x),
{
    let one = seq![(k, x)];
    assert forall|e: (Norm, Norm)| #[trigger] one.contains(e) <==> if e.0 == k {
        e.1 == x
    } else {
        es.contains(e)
    } by {
        assert(one.contains(e) <==> e == (k, x)) by {
            assert(one[0] == (k, x));
        }
    }
}

/// An insert into a bucket of the key's hash.
fn bucket_insert<A: Arena>(
    a: &mut A,
    n: &Value,
    h: u64,
    vs: &Vec<Value>,
    key: Value,
    value: Value,
    s: &Surroundings,
    Ghost(path): Ghost<Seq<u64>>,
) -> (r: (Value, bool))
    requires
        s.ok(),
        at_path(old(a).immortal(), *n, path, s.scene()),
        n.body() == Some(Body::HamtCollision(h, *vs)),
        all_fit(old(a).immortal(), vs@),
        storable(old(a).immortal(), key, s.scene()),
        storable(old(a).immortal(), value, s.scene()),
        h == hashed(norm(key, s.scene().env)),
    ensures
        final(a).immortal() == old(a).immortal(),
        at_path(old(a).immortal(), r.0, path, s.scene()),
        inserted(*n, r.0, r.1, norm(key, s.scene().env), norm(value, s.scene().env), s.scene().env),
{
    let ghost imm = a.immortal();
    let ghost sc = s.scene();
    let ghost env = sc.env;
    let ghost nk = norm(key, env);
    let ghost nv = norm(value, env);
    let ghost ns = norms(vs@, env);
    let found = collision_find(vs, &key, s);
    let mut np = copy(vs, 0, vs.len());
    proof {
        assert(np@ =~= vs@);
        assert(pairs(*n, env) == paired(ns));
        lemma_trie_keyed(*n, path, sc);
    }
    match found {
        Some(i) => {
            let ghost v0 = value;
            np.set(i + 1, value);
            proof {
                let ms = norms(np@, env);
                assert(ms =~= ns.update(i + 1, nv));
                assert forall|j: int| 0 <= j < np@.len() implies fits(imm, #[trigger] np@[j])
                    && user(np@[j], sc) by {
                    if j != i + 1 {
                        assert(fits(imm, vs@[j]) && user(vs@[j], sc));
                    }
                }
                lemma_bucket_set(ns, i as int, nv, h);
            }
            let r = collision_in(a, h, np, Ghost(path), Ghost(sc));
            (r, false)
        },
        None => {
            let ghost (k0, v0) = (key, value);
            np.push(key);
            np.push(value);
            proof {
                let ms = norms(np@, env);
                assert(ms =~= ns.push(nk).push(nv));
                assert forall|j: int| 0 <= j < np@.len() implies fits(imm, #[trigger] np@[j])
                    && user(np@[j], sc) by {
                    if j < vs@.len() {
                        assert(fits(imm, vs@[j]) && user(vs@[j], sc));
                    }
                }
                assert forall|j: int| 0 <= j < ns.len() && j % 2 == 0 implies #[trigger] ns[j]
                    != nk by {
                    assert(norm(vs@[j], env) != nk);
                }
                lemma_bucket_push(ns, nk, nv, h);
            }
            let r = collision_in(a, h, np, Ghost(path), Ghost(sc));
            (r, true)
        },
    }
}

/// A bucket with another value for a key it has.
proof fn lemma_bucket_set(ns: Seq<Norm>, i: int, x: Norm, h: u64)
    requires
        bucket(ns, h),
        0 <= i,
        i + 1 < ns.len(),
        i % 2 == 0,
        ns.len() % 2 == 0,
        keyed(paired(ns)),
    ensures
        bucket(ns.update(i + 1, x), h),
        put(paired(ns), paired(ns.update(i + 1, x)), ns[i], x),
        has_key(paired(ns), ns[i]),
{
    let ms = ns.update(i + 1, x);
    let es = paired(ns);
    let fs = paired(ms);
    let k = ns[i];
    let c = i / 2;
    assert(es[c] == (k, ns[i + 1]));
    assert(es.contains((k, ns[i + 1])));
    assert forall|j: int| 0 <= j < ms.len() && j % 2 == 0 implies #[trigger] ms[j] == ns[j] by {}
    assert forall|j: int| 0 <= j < ms.len() && j % 2 == 0 implies hashed(#[trigger] ms[j]) == h by {
        assert(hashed(ns[j]) == h);
    }
    assert forall|p: int, q: int| 0 <= p < q < ms.len() && p % 2 == 0 && q % 2 == 0 implies
        #[trigger] ms[p] != #[trigger] ms[q] by {
        assert(ns[p] != ns[q]);
    }
    assert forall|e: (Norm, Norm)| #[trigger] fs.contains(e) <==> if e.0 == k {
        e.1 == x
    } else {
        es.contains(e)
    } by {
        if fs.contains(e) {
            let j = choose|j: int| 0 <= j < fs.len() && fs[j] == e;
            if j == c {
            } else {
                assert(fs[j] == es[j]);
                assert(es.contains(e));
                if j < c {
                    assert(es[j].0 != es[c].0);
                } else {
                    assert(es[c].0 != es[j].0);
                }
            }
        }
        if e == (k, x) {
            assert(fs[c] == e);
        }
        if e.0 != k && es.contains(e) {
            let j = choose|j: int| 0 <= j < es.len() && es[j] == e;
            assert(fs[j] == es[j]);
        }
    }
}

/// A bucket with one more key.
proof fn lemma_bucket_push(ns: Seq<Norm>, k: Norm, x: Norm, h: u64)
    requires
        bucket(ns, h),
        ns.len() % 2 == 0,
        hashed(k) == h,
        forall|j: int| 0 <= j < ns.len() && j % 2 == 0 ==> #[trigger] ns[j] != k,
    ensures
        bucket(ns.push(k).push(x), h),
        put(paired(ns), paired(ns.push(k).push(x)), k, x),
        !has_key(paired(ns), k),
{
    let ms = ns.push(k).push(x);
    let es = paired(ns);
    if has_key(es, k) {
        let y = choose|y: Norm| #[trigger] es.contains((k, y));
        let j = choose|j: int| 0 <= j < es.len() && es[j] == (k, y);
        assert(ns[2 * j] == k);
    }
    assert forall|j: int| 0 <= j < ms.len() && j % 2 == 0 implies hashed(#[trigger] ms[j]) == h by {
        if j < ns.len() {
            assert(ms[j] == ns[j]);
        }
    }
    assert forall|p: int, q: int| 0 <= p < q < ms.len() && p % 2 == 0 && q % 2 == 0 implies
        #[trigger] ms[p] != #[trigger] ms[q] by {
        assert(ms[p] == ns[p]);
        if q < ns.len() {
            assert(ms[q] == ns[q]);
            assert(ns[p] != ns[q]);
        }
    }
    assert(paired(ms) =~= es + seq![(k, x)]);
    lemma_put_one(es, k, x);
}

/// An insert that edits in place the nodes that are its alone.
fn node_insert_owned<A: Arena>(
    a: &mut A,
    n: Value,
    key: Value,
    value: Value,
    hash: u64,
    shift: u64,
    s: &Surroundings,
    Ghost(path): Ghost<Seq<u64>>,
) -> (r: (Value, bool))
    requires
        s.ok(),
        at_path(old(a).immortal(), n, path, s.scene()),
        storable(old(a).immortal(), key, s.scene()),
        storable(old(a).immortal(), value, s.scene()),
        hash == hashed(norm(key, s.scene().env)),
        under(hash, path),
        shift == 5 * path.len(),
    ensures
        final(a).immortal() == old(a).immortal(),
        at_path(old(a).immortal(), r.0, path, s.scene()),
        inserted(n, r.0, r.1, norm(key, s.scene().env), norm(value, s.scene().env), s.scene().env),
    decreases 14 - path.len(),
{
    let ghost imm = a.immortal();
    let ghost sc = s.scene();
    let ghost env = sc.env;
    let ghost nk = norm(key, env);
    let ghost nv = norm(value, env);
    let ghost n0 = n;
    match take_apart(n) {
        Err(n) => node_insert(a, &n, key, value, hash, shift, s, Ghost(path)),
        Ok(p) => {
            let (shell, body) = p;
            proof {
                lemma_mortal(imm, n0);
            }
            match body {
                Body::HamtEntry(k, x) => {
                    proof {
                        lemma_entry_key(n0, k, x, nk, env);
                    }
                    if values_equal(&k, &key, s) {
                        let e = refill(shell, Body::HamtEntry(key, value));
                        proof {
                            lemma_put_over(pairs(n0, env), nk, nv);
                            assert(pairs(e, env) =~= seq![(nk, nv)]);
                        }
                        (e, false)
                    } else {
                        let lhash = hash_value(&k, s);
                        let back = refill(shell, Body::HamtEntry(k, x));
                        let e = split(
                            a,
                            back,
                            lhash,
                            key,
                            value,
                            hash,
                            shift,
                            Ghost(path),
                            Ghost(sc),
                        );
                        (e, true)
                    }
                },
                Body::HamtBranch(bitmap, vs) => {
                    let ghost vs0 = vs@;
                    let mut vs = vs;
                    let b = slot(hash, shift, Ghost(path.len()));
                    let i = compact(bitmap, b);
                    proof {
                        lemma_rank(bitmap, b, 32);
                        lemma_under_push(hash, path, b);
                    }
                    if (bitmap >> (b as u32)) & 1 != 1 {
                        let e = entry_in(a, key, value, Ghost(path.push(b)), Ghost(sc));
                        let ghost e0 = e;
                        proof {
                            lemma_branch_grow(bitmap, vs0, e, path, sc, nk, nv);
                        }
                        vs.insert(i, e);
                        proof {
                            assert(vs@ =~= vs0.insert(i as int, e0));
                        }
                        let r = branch_back(
                            shell,
                            bitmap | (1u32 << (b as u32)),
                            vs,
                            Ghost(path),
                            Ghost(sc),
                        );
                        (r, true)
                    } else {
                        proof {
                            assert(trie(
                                vs0[i as int],
                                path.push(taken(bitmap, 32)[i as int]),
                                sc,
                            ));
                        }
                        let child = vs.remove(i);
                        let (c, added) = node_insert_owned(
                            a,
                            child,
                            key,
                            value,
                            hash,
                            shift + 5,
                            s,
                            Ghost(path.push(b)),
                        );
                        let ghost c0 = c;
                        proof {
                            lemma_branch_put(bitmap, vs0, c, path, sc, nk, nv);
                        }
                        vs.insert(i, c);
                        proof {
                            assert(vs@ =~= vs0.update(i as int, c0));
                        }
                        let r = branch_back(shell, bitmap, vs, Ghost(path), Ghost(sc));
                        (r, added)
                    }
                },
                body => {
                    let back = refill(shell, body);
                    proof {
                        lemma_back(n0, back, body, path, sc);
                    }
                    node_insert(a, &back, key, value, hash, shift, s, Ghost(path))
                },
            }
        },
    }
}

/// A node put back as it was means what it did.
proof fn lemma_back(n: Value, back: Value, body: Body, path: Seq<u64>, sc: Scene)
    requires
        trie(n, path, sc),
        n.body() == Some(body),
        is_object(back, body, false),
    ensures
        at_path(false, back, path, sc),
        pairs(back, sc.env) == pairs(n, sc.env),
{
    match body {
        Body::HamtEntry(k, x) => {},
        Body::HamtCollision(h, vs) => {},
        Body::HamtBranch(bitmap, vs) => {},
        _ => {},
    }
}

/// What a removal found.
enum Removed {
    Absent,
    Empty,
    Node(Value),
}

/// What a removal did: nothing, all of the one entry there was, or one entry
/// less.
spec fn removed(r: Removed, imm: bool, n: Value, path: Seq<u64>, k: Norm, sc: Scene) -> bool {
    let es = pairs(n, sc.env);
    match r {
        Removed::Absent => !has_key(es, k),
        Removed::Empty => has_key(es, k) && es.len() == 1,
        Removed::Node(m) => {
            &&& at_path(imm, m, path, sc)
            &&& has_key(es, k)
            &&& cut(es, pairs(m, sc.env), k)
            &&& pairs(m, sc.env).len() + 1 == es.len()
            &&& !lone(m)
        },
    }
}

/// A branch whose one child is an entry or a bucket.
pub open spec fn lone(v: Value) -> bool {
    match v.body() {
        Some(Body::HamtBranch(_, vs)) => vs@.len() == 1 && leafy(vs@[0]),
        _ => false,
    }
}

fn is_leaf(n: &Value) -> (r: bool)
    ensures
        r == leafy(*n),
{
    match &n.obj {
        Some(o) => match &o.body {
            Body::HamtEntry(_, _) => true,
            Body::HamtCollision(_, _) => true,
            _ => false,
        },
        None => false,
    }
}

/// A removal from a bucket.
fn bucket_remove<A: Arena>(
    a: &mut A,
    n: &Value,
    h: u64,
    vs: &Vec<Value>,
    key: &Value,
    s: &Surroundings,
    Ghost(path): Ghost<Seq<u64>>,
) -> (r: Removed)
    requires
        s.ok(),
        at_path(old(a).immortal(), *n, path, s.scene()),
        n.body() == Some(Body::HamtCollision(h, *vs)),
        all_fit(old(a).immortal(), vs@),
        user(*key, s.scene()),
    ensures
        final(a).immortal() == old(a).immortal(),
        removed(r, old(a).immortal(), *n, path, norm(*key, s.scene().env), s.scene()),
{
    let ghost imm = a.immortal();
    let ghost sc = s.scene();
    let ghost env = sc.env;
    let ghost nk = norm(*key, env);
    let ghost ns = norms(vs@, env);
    proof {
        lemma_trie_keyed(*n, path, sc);
    }
    match collision_find(vs, key, s) {
        None => {
            proof {
                if has_key(paired(ns), nk) {
                    let y = choose|y: Norm| #[trigger] paired(ns).contains((nk, y));
                    let j = choose|j: int| 0 <= j < paired(ns).len() && paired(ns)[j] == (nk, y);
                    assert(norm(vs@[2 * j], env) == nk);
                }
            }
            Removed::Absent
        },
        Some(i) => {
            let mut np = copy(vs, 0, vs.len());
            proof {
                assert(np@ =~= vs@);
            }
            let _ = np.remove(i);
            let _ = np.remove(i);
            proof {
                let ms = norms(np@, env);
                assert(np@ =~= vs@.take(i as int) + vs@.skip(i + 2));
                assert(ms =~= ns.take(i as int) + ns.skip(i + 2));
                assert forall|j: int| 0 <= j < np@.len() implies fits(imm, #[trigger] np@[j])
                    && user(np@[j], sc) by {
                    if j < i {
                        assert(fits(imm, vs@[j]) && user(vs@[j], sc));
                    } else {
                        assert(fits(imm, vs@[j + 2]) && user(vs@[j + 2], sc));
                    }
                }
                lemma_bucket_cut(ns, i as int, h);
            }
            if np.len() == 2 {
                let k = np[0].clone();
                let v = np[1].clone();
                proof {
                    assert(fits(imm, np@[0]) && user(np@[0], sc));
                    assert(fits(imm, np@[1]) && user(np@[1], sc));
                    let ms = norms(np@, env);
                    assert(hashed(ms[0]) == h);
                    assert(paired(ms) =~= seq![(ms[0], ms[1])]);
                }
                Removed::Node(entry_in(a, k, v, Ghost(path), Ghost(sc)))
            } else {
                Removed::Node(collision_in(a, h, np, Ghost(path), Ghost(sc)))
            }
        },
    }
}

/// A bucket without a key it had.
proof fn lemma_bucket_cut(ns: Seq<Norm>, i: int, h: u64)
    requires
        bucket(ns, h),
        0 <= i,
        i + 1 < ns.len(),
        i % 2 == 0,
        ns.len() % 2 == 0,
        keyed(paired(ns)),
    ensures
        bucket(ns.take(i) + ns.skip(i + 2), h),
        cut(paired(ns), paired(ns.take(i) + ns.skip(i + 2)), ns[i]),
        has_key(paired(ns), ns[i]),
        paired(ns.take(i) + ns.skip(i + 2)).len() + 1 == paired(ns).len(),
{
    let ms = ns.take(i) + ns.skip(i + 2);
    let es = paired(ns);
    let fs = paired(ms);
    let k = ns[i];
    let c = i / 2;
    assert(es[c] == (k, ns[i + 1]));
    assert(es.contains((k, ns[i + 1])));
    assert forall|j: int| 0 <= j < ms.len() && j % 2 == 0 implies hashed(#[trigger] ms[j]) == h by {
        if j < i {
            assert(ms[j] == ns[j]);
        } else {
            assert(ms[j] == ns[j + 2]);
        }
    }
    assert forall|p: int, q: int| 0 <= p < q < ms.len() && p % 2 == 0 && q % 2 == 0 implies
        #[trigger] ms[p] != #[trigger] ms[q] by {
        let p2 = if p < i {
            p
        } else {
            p + 2
        };
        let q2 = if q < i {
            q
        } else {
            q + 2
        };
        assert(ms[p] == ns[p2]);
        assert(ms[q] == ns[q2]);
        assert(ns[p2] != ns[q2]);
    }
    assert(fs =~= es.take(c) + es.skip(c + 1));
    assert forall|e: (Norm, Norm)| #[trigger] fs.contains(e) <==> e.0 != k && es.contains(e) by {
        lemma_in_add(es.take(c), es.skip(c + 1), e);
        if es.take(c).contains(e) {
            let j = choose|j: int| 0 <= j < c && es.take(c)[j] == e;
            assert(es[j] == e);
            assert(es[j].0 != es[c].0);
        }
        if es.skip(c + 1).contains(e) {
            let tail = es.skip(c + 1);
            let j = choose|j: int| 0 <= j < tail.len() && tail[j] == e;
            assert(es[c + 1 + j] == e);
            assert(es[c].0 != es[c + 1 + j].0);
        }
        if e.0 != k && es.contains(e) {
            let j = choose|j: int| 0 <= j < es.len() && es[j] == e;
            if j < c {
                assert(es.take(c)[j] == e);
            } else {
                assert(j != c);
                assert(es.skip(c + 1)[j - c - 1] == e);
            }
        }
    }
}

/// A removal that replaces the nodes on its way. A branch left with one entry
/// or bucket gives way to it.
fn node_remove<A: Arena>(
    a: &mut A,
    n: &Value,
    key: &Value,
    hash: u64,
    shift: u64,
    s: &Surroundings,
    Ghost(path): Ghost<Seq<u64>>,
) -> (r: Removed)
    requires
        s.ok(),
        at_path(old(a).immortal(), *n, path, s.scene()),
        user(*key, s.scene()),
        hash == hashed(norm(*key, s.scene().env)),
        shift == 5 * path.len(),
    ensures
        final(a).immortal() == old(a).immortal(),
        removed(r, old(a).immortal(), *n, path, norm(*key, s.scene().env), s.scene()),
    decreases 14 - path.len(),
{
    let ghost imm = a.immortal();
    let ghost sc = s.scene();
    let ghost env = sc.env;
    let ghost nk = norm(*key, env);
    proof {
        lemma_kids_fit(imm, *n, path, sc);
    }
    match &n.obj {
        Some(o) => match &o.body {
            Body::HamtEntry(k, x) => {
                proof {
                    lemma_entry_key(*n, *k, *x, nk, env);
                }
                if values_equal(k, key, s) {
                    Removed::Empty
                } else {
                    Removed::Absent
                }
            },
            Body::HamtCollision(h, vs) => bucket_remove(a, n, *h, vs, key, s, Ghost(path)),
            Body::HamtBranch(bitmap, vs) => {
                let b = slot(hash, shift, Ghost(path.len()));
                proof {
                    lemma_has_key_child(*bitmap, vs@, path, sc, nk);
                    assert(Body::HamtBranch(*bitmap, *vs).kids() =~= vs@);
                }
                if (*bitmap >> (b as u32)) & 1 != 1 {
                    return Removed::Absent;
                }
                let i = compact(*bitmap, b);
                proof {
                    lemma_rank(*bitmap, b, 32);
                    assert(trie(vs@[i as int], path.push(taken(*bitmap, 32)[i as int]), sc));
                    assert(fits(imm, vs@[i as int]));
                }
                let sub = node_remove(a, &vs[i], key, hash, shift + 5, s, Ghost(path.push(b)));
                match sub {
                    Removed::Absent => Removed::Absent,
                    Removed::Node(c) => {
                        proof {
                            lemma_branch_cut(*bitmap, vs@, c, path, sc, nk);
                        }
                        if vs.len() == 1 && is_leaf(&c) {
                            proof {
                                lemma_leaf_up(imm, c, path, b, sc);
                                assert(vs@.update(i as int, c) =~= seq![c]);
                                lemma_pairs_one(c, env);
                            }
                            return Removed::Node(c);
                        }
                        let mut nc = copy(vs, 0, vs.len());
                        proof {
                            assert(nc@ =~= vs@);
                        }
                        let ghost c0 = c;
                        nc.set(i, c);
                        proof {
                            assert forall|j: int| 0 <= j < nc@.len() implies fits(
                                imm,
                                #[trigger] nc@[j],
                            ) by {
                                if j != i {
                                    assert(fits(imm, vs@[j]));
                                }
                            }
                        }
                        Removed::Node(branch_in(a, *bitmap, nc, Ghost(path), Ghost(sc)))
                    },
                    Removed::Empty => {
                        let rest: u32 = *bitmap & !(1u32 << (b as u32));
                        proof {
                            lemma_branch_shrink(*bitmap, vs@, path, sc, nk);
                        }
                        if vs.len() == 1 {
                            proof {
                                assert(vs@.remove(i as int) =~= Seq::empty());
                                assert(pairs_all(Seq::<Value>::empty(), env) =~= Seq::empty());
                            }
                            return Removed::Empty;
                        }
                        if vs.len() == 2 {
                            let other: usize = 1 - i;
                            if is_leaf(&vs[other]) {
                                proof {
                                    let c = vs@[other as int];
                                    assert(trie(
                                        c,
                                        path.push(taken(*bitmap, 32)[other as int]),
                                        sc,
                                    ));
                                    assert(fits(imm, vs@[other as int]));
                                    lemma_leaf_up(
                                        imm,
                                        c,
                                        path,
                                        taken(*bitmap, 32)[other as int],
                                        sc,
                                    );
                                    assert(vs@.remove(i as int) =~= seq![c]);
                                    lemma_pairs_one(c, env);
                                }
                                return Removed::Node(vs[other].clone());
                            }
                        }
                        let mut nc = copy(vs, 0, vs.len());
                        proof {
                            assert(nc@ =~= vs@);
                        }
                        let _ = nc.remove(i);
                        proof {
                            assert(nc@ =~= vs@.remove(i as int));
                            assert forall|j: int| 0 <= j < nc@.len() implies fits(
                                imm,
                                #[trigger] nc@[j],
                            ) by {
                                if j < i {
                                    assert(fits(imm, vs@[j]));
                                } else {
                                    assert(fits(imm, vs@[j + 1]));
                                }
                            }
                        }
                        Removed::Node(branch_in(a, rest, nc, Ghost(path), Ghost(sc)))
                    },
                }
            },
            _ => vstd::pervasive::unreached(),
        },
        None => vstd::pervasive::unreached(),
    }
}

/// What a removal from a node handed over found; a node without the key comes
/// back.
enum RemovedOwned {
    Absent(Value),
    Empty,
    Node(Value),
}

spec fn removed_owned(
    r: RemovedOwned,
    imm: bool,
    n: Value,
    path: Seq<u64>,
    k: Norm,
    sc: Scene,
) -> bool {
    match r {
        RemovedOwned::Absent(m) => {
            &&& at_path(imm, m, path, sc)
            &&& pairs(m, sc.env) == pairs(n, sc.env)
            &&& single(m) == single(n)
            &&& removed(Removed::Absent, imm, n, path, k, sc)
        },
        RemovedOwned::Empty => removed(Removed::Empty, imm, n, path, k, sc),
        RemovedOwned::Node(m) => removed(Removed::Node(m), imm, n, path, k, sc),
    }
}

impl Removed {
    /// The same with the node given back where it is unchanged.
    fn owning(self, n: Value) -> (r: RemovedOwned)
        ensures
            match self {
                Removed::Absent => r == RemovedOwned::Absent(n),
                Removed::Empty => r is Empty,
                Removed::Node(m) => r == RemovedOwned::Node(m),
            },
    {
        match self {
            Removed::Absent => RemovedOwned::Absent(n),
            Removed::Empty => RemovedOwned::Empty,
            Removed::Node(m) => RemovedOwned::Node(m),
        }
    }
}

/// A removal that edits in place the nodes that are its alone.
fn node_remove_owned<A: Arena>(
    a: &mut A,
    n: Value,
    key: &Value,
    hash: u64,
    shift: u64,
    s: &Surroundings,
    Ghost(path): Ghost<Seq<u64>>,
) -> (r: RemovedOwned)
    requires
        s.ok(),
        at_path(old(a).immortal(), n, path, s.scene()),
        user(*key, s.scene()),
        hash == hashed(norm(*key, s.scene().env)),
        shift == 5 * path.len(),
    ensures
        final(a).immortal() == old(a).immortal(),
        removed_owned(r, old(a).immortal(), n, path, norm(*key, s.scene().env), s.scene()),
    decreases 14 - path.len(),
{
    let ghost imm = a.immortal();
    let ghost sc = s.scene();
    let ghost env = sc.env;
    let ghost nk = norm(*key, env);
    let ghost n0 = n;
    match take_apart(n) {
        Err(n) => {
            let r = node_remove(a, &n, key, hash, shift, s, Ghost(path));
            r.owning(n)
        },
        Ok(p) => {
            let (shell, body) = p;
            proof {
                lemma_mortal(imm, n0);
            }
            match body {
                Body::HamtEntry(k, x) => {
                    proof {
                        lemma_entry_key(n0, k, x, nk, env);
                    }
                    if values_equal(&k, key, s) {
                        RemovedOwned::Empty
                    } else {
                        let ghost kept = Body::HamtEntry(k, x);
                        let back = refill(shell, Body::HamtEntry(k, x));
                        proof {
                            lemma_back(n0, back, kept, path, sc);
                        }
                        RemovedOwned::Absent(back)
                    }
                },
                Body::HamtBranch(bitmap, vs) => {
                    let ghost vs0 = vs@;
                    let mut vs = vs;
                    let count: usize = vs.len();
                    let b = slot(hash, shift, Ghost(path.len()));
                    proof {
                        lemma_has_key_child(bitmap, vs0, path, sc, nk);
                    }
                    if (bitmap >> (b as u32)) & 1 != 1 {
                        return RemovedOwned::Absent(
                            branch_back(shell, bitmap, vs, Ghost(path), Ghost(sc)),
                        );
                    }
                    let i = compact(bitmap, b);
                    proof {
                        lemma_rank(bitmap, b, 32);
                        assert(trie(vs0[i as int], path.push(taken(bitmap, 32)[i as int]), sc));
                    }
                    let child = vs.remove(i);
                    let sub = node_remove_owned(
                        a,
                        child,
                        key,
                        hash,
                        shift + 5,
                        s,
                        Ghost(path.push(b)),
                    );
                    match sub {
                        RemovedOwned::Absent(c) => {
                            let ghost c0 = c;
                            vs.insert(i, c);
                            proof {
                                assert(vs@ =~= vs0.update(i as int, c0));
                                lemma_pairs_split(vs0, i as int, env);
                                lemma_pairs_split(vs@, i as int, env);
                                assert(vs@.take(i as int) =~= vs0.take(i as int));
                                assert(vs@.skip(i + 1) =~= vs0.skip(i + 1));
                                let slots = taken(bitmap, 32);
                                assert forall|j: int| 0 <= j < vs@.len() implies trie(
                                    #[trigger] vs@[j],
                                    path.push(slots[j]),
                                    sc,
                                ) by {
                                    if j != i {
                                        assert(trie(vs0[j], path.push(slots[j]), sc));
                                    }
                                }
                            }
                            RemovedOwned::Absent(
                                branch_back(shell, bitmap, vs, Ghost(path), Ghost(sc)),
                            )
                        },
                        RemovedOwned::Node(c) => {
                            proof {
                                lemma_branch_cut(bitmap, vs0, c, path, sc, nk);
                            }
                            if count == 1 && is_leaf(&c) {
                                proof {
                                    lemma_leaf_up(false, c, path, b, sc);
                                    assert(vs0.update(i as int, c) =~= seq![c]);
                                    lemma_pairs_one(c, env);
                                }
                                return RemovedOwned::Node(c);
                            }
                            let ghost c0 = c;
                            vs.insert(i, c);
                            proof {
                                assert(vs@ =~= vs0.update(i as int, c0));
                            }
                            RemovedOwned::Node(
                                branch_back(shell, bitmap, vs, Ghost(path), Ghost(sc)),
                            )
                        },
                        RemovedOwned::Empty => {
                            let rest: u32 = bitmap & !(1u32 << (b as u32));
                            proof {
                                lemma_branch_shrink(bitmap, vs0, path, sc, nk);
                                assert(vs@ =~= vs0.remove(i as int));
                            }
                            if count == 1 {
                                proof {
                                    assert(vs0.remove(i as int) =~= Seq::empty());
                                    assert(pairs_all(Seq::<Value>::empty(), env) =~= Seq::empty());
                                }
                                return RemovedOwned::Empty;
                            }
                            if count == 2 {
                                if is_leaf(&vs[0]) {
                                    let survivor = vs[0].clone();
                                    proof {
                                        let slots = taken(rest, 32);
                                        assert(trie(vs@[0], path.push(slots[0]), sc));
                                        lemma_leaf_up(false, survivor, path, slots[0], sc);
                                        assert(vs@ =~= seq![survivor]);
                                        lemma_pairs_one(survivor, env);
                                    }
                                    return RemovedOwned::Node(survivor);
                                }
                            }
                            RemovedOwned::Node(
                                branch_back(shell, rest, vs, Ghost(path), Ghost(sc)),
                            )
                        },
                    }
                },
                body => {
                    let back = refill(shell, body);
                    proof {
                        lemma_back(n0, back, body, path, sc);
                    }
                    let r = node_remove(a, &back, key, hash, shift, s, Ghost(path));
                    r.owning(back)
                },
            }
        },
    }
}

/// A map over its trie, new or in its old place.
fn map_in<A: Arena>(
    a: &mut A,
    place: Option<Shell>,
    size: usize,
    root: Value,
    Ghost(sc): Ghost<Scene>,
) -> (r: Value)
    requires
        root.sound(),
        fits(old(a).immortal(), root),
        if root.bits == HDR_NIL {
            size == 0
        } else {
            trie(root, Seq::empty(), sc) && size == pairs(root, sc.env).len()
        },
        place matches Some(shell) ==> shell.ok() && word_kind(shell.bits) is Object
            && !old(a).immortal(),
    ensures
        final(a).immortal() == old(a).immortal(),
        hamt_map(old(a).immortal(), r, sc),
        entries(r, sc.env) == pairs(root, sc.env),
        r.body() == Some(Body::MapRoot(MapBox::Hamt { size, root })),
        place matches Some(shell) ==> r.bits == shell.bits,
{
    let ghost b = Body::MapRoot(MapBox::Hamt { size, root });
    proof {
        assert(b.kids() =~= seq![root]);
    }
    match place {
        Some(shell) => refill(shell, Body::MapRoot(MapBox::Hamt { size, root })),
        None => alloc_obj(a, Body::MapRoot(MapBox::Hamt { size, root }), 4),
    }
}

/// The size and the trie of a map.
fn map_parts(map: &Value, Ghost(sc): Ghost<Scene>) -> (r: (usize, &Value))
    requires
        hamt_map(false, *map, sc),
    ensures
        map.body() == Some(Body::MapRoot(MapBox::Hamt { size: r.0, root: *r.1 })),
{
    match &map.obj {
        Some(o) => match &o.body {
            Body::MapRoot(MapBox::Hamt { size, root }) => (*size, root),
            _ => vstd::pervasive::unreached(),
        },
        None => vstd::pervasive::unreached(),
    }
}

/// The empty map.
pub fn empty<A: Arena>(a: &mut A, s: &Surroundings) -> (r: Value)
    ensures
        final(a).immortal() == old(a).immortal(),
        hamt_map(old(a).immortal(), r, s.scene()),
        entries(r, s.scene().env) == Seq::<(Norm, Norm)>::empty(),
{
    let nil = Value::nil();
    proof {
        lemma_nil_is_no_object(nil);
        assert(pairs(nil, s.scene().env) =~= Seq::empty());
    }
    map_in(a, None, 0, nil, Ghost(s.scene()))
}

/// How many entries a map has.
pub fn size(map: &Value, s: &Surroundings) -> (r: usize)
    requires
        hamt_map(false, *map, s.scene()),
    ensures
        r == entries(*map, s.scene().env).len(),
{
    let (n, root) = map_parts(map, Ghost(s.scene()));
    proof {
        lemma_nil_is_no_object(*root);
    }
    n
}

/// The value of a key, whose hash is given.
pub fn get(map: &Value, key: &Value, hash: u64, s: &Surroundings) -> (r: Option<Value>)
    requires
        s.ok(),
        hamt_map(false, *map, s.scene()),
        user(*key, s.scene()),
        hash == hashed(norm(*key, s.scene().env)),
    ensures
        match r {
            Some(x) => user(x, s.scene()) && entries(*map, s.scene().env).contains(
                (norm(*key, s.scene().env), norm(x, s.scene().env)),
            ),
            None => !has_key(entries(*map, s.scene().env), norm(*key, s.scene().env)),
        },
{
    let (n, root) = map_parts(map, Ghost(s.scene()));
    if root.is_nil() {
        proof {
            lemma_nil_is_no_object(*root);
            assert(entries(*map, s.scene().env) =~= Seq::empty());
        }
        return None;
    }
    node_get(root, key, hash, 0, s, Ghost(Seq::empty()))
}

/// The entries of a map.
pub fn collect_entries(map: &Value, s: &Surroundings) -> (r: Vec<(Value, Value)>)
    requires
        hamt_map(false, *map, s.scene()),
    ensures
        means(r@, entries(*map, s.scene().env), s.scene().env),
        paired_users(r@, s.scene()),
{
    let (n, root) = map_parts(map, Ghost(s.scene()));
    root_entries(root, Ghost(s.scene()))
}

/// Everything is under the top of a trie.
proof fn lemma_under_top(hash: u64)
    ensures
        under(hash, Seq::empty()),
{
}

/// A map with an entry put in, in place of any of its key. A map that nothing
/// else refers to is edited in place.
pub fn insert<A: Arena>(
    a: &mut A,
    map: Value,
    key: Value,
    value: Value,
    hash: u64,
    s: &Surroundings,
) -> (r: Value)
    requires
        s.ok(),
        hamt_map(old(a).immortal(), map, s.scene()),
        storable(old(a).immortal(), key, s.scene()),
        storable(old(a).immortal(), value, s.scene()),
        hash == hashed(norm(key, s.scene().env)),
        entries(map, s.scene().env).len() < usize::MAX,
    ensures
        final(a).immortal() == old(a).immortal(),
        hamt_map(old(a).immortal(), r, s.scene()),
        put(
            entries(map, s.scene().env),
            entries(r, s.scene().env),
            norm(key, s.scene().env),
            norm(value, s.scene().env),
        ),
        entries(r, s.scene().env).len() == entries(map, s.scene().env).len() + if has_key(
            entries(map, s.scene().env),
            norm(key, s.scene().env),
        ) {
            0nat
        } else {
            1nat
        },
{
    let ghost imm = a.immortal();
    let ghost sc = s.scene();
    let ghost env = sc.env;
    let ghost nk = norm(key, env);
    let ghost nv = norm(value, env);
    let ghost map0 = map;
    proof {
        lemma_under_top(hash);
        lemma_nil_is_no_object(map);
    }
    match take_apart(map) {
        Ok(p) => {
            let (shell, body) = p;
            proof {
                lemma_mortal(imm, map0);
            }
            match body {
                Body::MapRoot(MapBox::Hamt { size, root }) => {
                    proof {
                        lemma_nil_is_no_object(root);
                    }
                    if root.is_nil() {
                        let e = entry_in(a, key, value, Ghost(Seq::empty()), Ghost(sc));
                        proof {
                            lemma_trie_keyed(e, Seq::empty(), sc);
                            assert(pairs(root, env) =~= Seq::empty());
                            lemma_put_one(pairs(root, env), nk, nv);
                            assert(pairs(root, env) + seq![(nk, nv)] =~= seq![(nk, nv)]);
                        }
                        return map_in(a, Some(shell), 1, e, Ghost(sc));
                    }
                    let (n, added) = node_insert_owned(
                        a,
                        root,
                        key,
                        value,
                        hash,
                        0,
                        s,
                        Ghost(Seq::empty()),
                    );
                    proof {
                        lemma_trie_keyed(n, Seq::empty(), sc);
                    }
                    let more: usize = if added {
                        size + 1
                    } else {
                        size
                    };
                    map_in(a, Some(shell), more, n, Ghost(sc))
                },
                _ => vstd::pervasive::unreached(),
            }
        },
        Err(map) => {
            let (size, root) = map_parts(&map, Ghost(sc));
            proof {
                lemma_nil_is_no_object(*root);
                if imm {
                    assert(map.obj->Some_0.immortal);
                    let kids = map.body()->Some_0.kids();
                    assert(fits(true, kids[0]));
                }
            }
            if root.is_nil() {
                let e = entry_in(a, key, value, Ghost(Seq::empty()), Ghost(sc));
                proof {
                    lemma_trie_keyed(e, Seq::empty(), sc);
                    assert(pairs(*root, env) =~= Seq::empty());
                    lemma_put_one(pairs(*root, env), nk, nv);
                    assert(pairs(*root, env) + seq![(nk, nv)] =~= seq![(nk, nv)]);
                }
                return map_in(a, None, 1, e, Ghost(sc));
            }
            let (n, added) = node_insert(a, root, key, value, hash, 0, s, Ghost(Seq::empty()));
            proof {
                lemma_trie_keyed(n, Seq::empty(), sc);
            }
            let more: usize = if added {
                size + 1
            } else {
                size
            };
            map_in(a, None, more, n, Ghost(sc))
        },
    }
}

/// A map without any entry of a key. A map that nothing else refers to is
/// edited in place. A branch left with one entry or bucket gives way to it.
pub fn remove<A: Arena>(a: &mut A, map: Value, key: &Value, hash: u64, s: &Surroundings) -> (r:
    Value)
    requires
        s.ok(),
        hamt_map(old(a).immortal(), map, s.scene()),
        user(*key, s.scene()),
        hash == hashed(norm(*key, s.scene().env)),
    ensures
        final(a).immortal() == old(a).immortal(),
        hamt_map(old(a).immortal(), r, s.scene()),
        cut(
            entries(map, s.scene().env),
            entries(r, s.scene().env),
            norm(*key, s.scene().env),
        ),
        entries(map, s.scene().env).len() == entries(r, s.scene().env).len() + if has_key(
            entries(map, s.scene().env),
            norm(*key, s.scene().env),
        ) {
            1nat
        } else {
            0nat
        },
        has_key(entries(map, s.scene().env), norm(*key, s.scene().env)) ==> (r.body() matches Some(
            Body::MapRoot(MapBox::Hamt { size, root }),
        ) ==> !lone(root)),
{
    let ghost imm = a.immortal();
    let ghost sc = s.scene();
    let ghost env = sc.env;
    let ghost nk = norm(*key, env);
    let ghost map0 = map;
    proof {
        lemma_nil_is_no_object(map);
    }
    match take_apart(map) {
        Ok(p) => {
            let (shell, body) = p;
            proof {
                lemma_mortal(imm, map0);
            }
            match body {
                Body::MapRoot(MapBox::Hamt { size, root }) => {
                    proof {
                        lemma_nil_is_no_object(root);
                    }
                    if root.is_nil() {
                        proof {
                            assert(pairs(root, env) =~= Seq::empty());
                        }
                        return map_in(a, Some(shell), size, root, Ghost(sc));
                    }
                    let ghost root0 = root;
                    match node_remove_owned(a, root, key, hash, 0, s, Ghost(Seq::empty())) {
                        RemovedOwned::Absent(n) => {
                            proof {
                                lemma_trie_keyed(n, Seq::empty(), sc);
                                lemma_absent(pairs(root0, env), nk);
                            }
                            map_in(a, Some(shell), size, n, Ghost(sc))
                        },
                        RemovedOwned::Empty => {
                            let nil = Value::nil();
                            proof {
                                lemma_nil_is_no_object(nil);
                                lemma_emptied(pairs(root0, env), pairs(nil, env), nk);
                            }
                            map_in(a, Some(shell), size - 1, nil, Ghost(sc))
                        },
                        RemovedOwned::Node(n) => {
                            proof {
                                lemma_trie_keyed(n, Seq::empty(), sc);
                            }
                            map_in(a, Some(shell), size - 1, n, Ghost(sc))
                        },
                    }
                },
                _ => vstd::pervasive::unreached(),
            }
        },
        Err(map) => {
            let (size, root) = map_parts(&map, Ghost(sc));
            proof {
                lemma_nil_is_no_object(*root);
                if imm {
                    assert(map.obj->Some_0.immortal);
                    let kids = map.body()->Some_0.kids();
                    assert(fits(true, kids[0]));
                }
            }
            if root.is_nil() {
                proof {
                    assert(pairs(*root, env) =~= Seq::empty());
                }
                return map;
            }
            match node_remove(a, root, key, hash, 0, s, Ghost(Seq::empty())) {
                Removed::Absent => {
                    proof {
                        lemma_absent(pairs(*root, env), nk);
                    }
                    map.clone()
                },
                Removed::Empty => {
                    let nil = Value::nil();
                    proof {
                        lemma_nil_is_no_object(nil);
                        lemma_emptied(pairs(*root, env), pairs(nil, env), nk);
                    }
                    map_in(a, None, size - 1, nil, Ghost(sc))
                },
                Removed::Node(n) => {
                    proof {
                        lemma_trie_keyed(n, Seq::empty(), sc);
                    }
                    map_in(a, None, size - 1, n, Ghost(sc))
                },
            }
        },
    }
}

/// Nothing is cut where there is no key.
proof fn lemma_absent(es: Seq<(Norm, Norm)>, k: Norm)
    requires
        !has_key(es, k),
    ensures
        cut(es, es, k),
{
    assert forall|e: (Norm, Norm)| #[trigger] es.contains(e) <==> e.0 != k && es.contains(e) by {
        if e.0 == k && es.contains(e) {
            assert(es.contains((k, e.1)));
        }
    }
}

/// Nothing is left of the one entry there was.
proof fn lemma_emptied(es: Seq<(Norm, Norm)>, none: Seq<(Norm, Norm)>, k: Norm)
    requires
        es.len() == 1,
        has_key(es, k),
        none.len() == 0,
    ensures
        cut(es, none, k),
{
    let x = choose|x: Norm| #[trigger] es.contains((k, x));
    assert(es[0] == (k, x));
    assert forall|e: (Norm, Norm)| #[trigger] none.contains(e) <==> e.0 != k && es.contains(e) by {
        if es.contains(e) {
            let j = choose|j: int| 0 <= j < es.len() && es[j] == e;
            assert(j == 0);
        }
    }
}

/// What is put under a key is found there, and what is under other keys stays.
pub proof fn law_map_reads_back(
    before: Seq<(Norm, Norm)>,
    after: Seq<(Norm, Norm)>,
    k: Norm,
    x: Norm,
    other: Norm,
    y: Norm,
)
    requires
        put(before, after, k, x),
        other != k,
    ensures
        after.contains((k, x)),
        forall|z: Norm| #[trigger] after.contains((k, z)) ==> z == x,
        after.contains((other, y)) <==> before.contains((other, y)),
{
    assert(after.contains((k, x)));
    assert(after.contains((other, y)) <==> before.contains((other, y)));
}

/// A key taken out is gone, and what is under other keys stays.
pub proof fn law_removed_key_is_gone(
    before: Seq<(Norm, Norm)>,
    after: Seq<(Norm, Norm)>,
    k: Norm,
    other: Norm,
    y: Norm,
)
    requires
        cut(before, after, k),
        other != k,
    ensures
        !has_key(after, k),
        after.contains((other, y)) <==> before.contains((other, y)),
{
    if has_key(after, k) {
        let x = choose|x: Norm| #[trigger] after.contains((k, x));
        assert(after.contains((k, x)));
    }
    assert(after.contains((other, y)) <==> before.contains((other, y)));
}

} // verus!
