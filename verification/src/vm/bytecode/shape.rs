//! The one shape a map has: a trie's nodes are where they are because of its
//! entries alone, and not because of the order they came and went in.

use crate::vm::bytecode::hamt::entries;
use crate::vm::bytecode::norm::{
    Env, hashed, lemma_ordered, norm, Norm, norms, paired, pairs, pairs_all,
};
use crate::vm::bytecode::object::{Body, MapBox, Value};
use crate::vm::bytecode::sound::{
    lemma_nil_is_no_object, Scene, single, taken, trie, tries, user,
};
use crate::vm::bytecode::trie::{
    lemma_bag_same, lemma_find, lemma_pairs_in, lemma_pairs_one, lemma_rank, lemma_taken,
    lemma_trie_keyed, lemma_trie_under, lemma_tries_keyed, lemma_under_push, rank, takes,
};
use crate::vm::bytecode::word::HDR_NIL;
use vstd::prelude::*;

verus! {

/// The nodes of a trie: an entry, a bucket of entries with one hash, or a
/// branch with the slots it takes and what is in each.
pub enum TrieShape {
    Entry(Norm, Norm),
    Bucket(u64, Seq<(Norm, Norm)>),
    Branch(Seq<u64>, Seq<TrieShape>),
    Nothing,
}

pub open spec fn node_shape(v: Value, env: Env) -> TrieShape
    decreases v, 3nat,
{
    match v.obj {
        Some(o) => match o.body {
            Body::HamtEntry(k, x) => TrieShape::Entry(norm(k, env), norm(x, env)),
            Body::HamtCollision(h, vs) => TrieShape::Bucket(h, paired(norms(vs@, env))),
            Body::HamtBranch(bitmap, vs) => TrieShape::Branch(
                taken(bitmap, 32),
                node_shapes(vs@, env),
            ),
            _ => TrieShape::Nothing,
        },
        None => TrieShape::Nothing,
    }
}

pub open spec fn node_shapes(vs: Seq<Value>, env: Env) -> Seq<TrieShape>
    decreases vs, 0nat,
{
    if vs.len() == 0 {
        Seq::empty()
    } else {
        node_shapes(vs.drop_last(), env).push(node_shape(vs.last(), env))
    }
}

/// No two keys have one hash.
pub open spec fn hashes_apart(es: Seq<(Norm, Norm)>) -> bool {
    forall|e: (Norm, Norm), f: (Norm, Norm)|
        #![trigger es.contains(e), es.contains(f)]
        es.contains(e) && es.contains(f) && e.0 != f.0 ==> hashed(e.0) != hashed(f.0)
}

/// The same entries, in whatever order.
pub open spec fn same_entries(a: Seq<(Norm, Norm)>, b: Seq<(Norm, Norm)>) -> bool {
    forall|e: (Norm, Norm)| #[trigger] a.contains(e) <==> b.contains(e)
}

proof fn lemma_shapes(vs: Seq<Value>, env: Env)
    ensures
        node_shapes(vs, env).len() == vs.len(),
        forall|i: int|
            0 <= i < vs.len() ==> #[trigger] node_shapes(vs, env)[i] == node_shape(vs[i], env),
    decreases vs.len(),
{
    if vs.len() > 0 {
        lemma_shapes(vs.drop_last(), env);
        assert forall|i: int| 0 <= i < vs.len() implies #[trigger] node_shapes(vs, env)[i]
            == node_shape(vs[i], env) by {
            if i < vs.len() - 1 {
                assert(node_shapes(vs.drop_last(), env)[i] == node_shape(vs.drop_last()[i], env));
            }
        }
    }
}

/// A node that is not one entry holds at least two.
proof fn lemma_two(v: Value, path: Seq<u64>, sc: Scene)
    requires
        trie(v, path, sc),
        !single(v),
    ensures
        pairs(v, sc.env).len() >= 2,
    decreases v, 3nat,
{
    match v.obj->Some_0.body {
        Body::HamtCollision(h, vs) => {
            assert(norms(vs@, sc.env).len() == vs@.len());
        },
        Body::HamtBranch(bitmap, vs) => {
            lemma_taken(bitmap, 32);
            lemma_two_below(vs@, path, taken(bitmap, 32), sc);
        },
        _ => {},
    }
}

proof fn lemma_two_below(vs: Seq<Value>, path: Seq<u64>, slots: Seq<u64>, sc: Scene)
    requires
        tries(vs, path, slots, sc),
        1 <= vs.len() <= slots.len(),
        vs.len() == 1 ==> !single(vs[0]),
        forall|i: int, j: int|
            0 <= i < j < slots.len() ==> #[trigger] slots[i] < #[trigger] slots[j],
    ensures
        pairs_all(vs, sc.env).len() >= 2,
    decreases vs, 0nat,
{
    if vs.len() == 1 {
        lemma_two(vs[0], path.push(slots[0]), sc);
        assert(vs =~= seq![vs[0]]);
        lemma_pairs_one(vs[0], sc.env);
    } else {
        lemma_tries_keyed(vs, path, slots, sc);
    }
}

/// Bitmaps that take the same slots list them alike.
proof fn lemma_same_slots(a: u32, b: u32, n: nat)
    requires
        n <= 32,
        forall|s: u64| s < n ==> #[trigger] takes(a, s) == takes(b, s),
    ensures
        taken(a, n) == taken(b, n),
    decreases n,
{
    if n > 0 {
        lemma_same_slots(a, b, (n - 1) as nat);
        assert(takes(a, (n - 1) as u64) == takes(b, (n - 1) as u64));
    }
}

/// The slots a branch takes are those its entries lead to, so a branch that has
/// these entries takes them too.
proof fn lemma_slot_shared(
    x: u32,
    va: Seq<Value>,
    y: u32,
    vb: Seq<Value>,
    path: Seq<u64>,
    sc: Scene,
    s: u64,
)
    requires
        tries(va, path, taken(x, 32), sc),
        va.len() == taken(x, 32).len(),
        tries(vb, path, taken(y, 32), sc),
        vb.len() == taken(y, 32).len(),
        forall|e: (Norm, Norm)| #[trigger]
            pairs_all(va, sc.env).contains(e) ==> pairs_all(vb, sc.env).contains(e),
        s < 32,
        takes(x, s),
    ensures
        takes(y, s),
{
    lemma_rank(x, s, 32);
    let i = rank(x, s) as int;
    let p = path.push(taken(x, 32)[i]);
    assert(trie(va[i], p, sc));
    lemma_trie_keyed(va[i], p, sc);
    let e = pairs(va[i], sc.env)[0];
    assert(pairs(va[i], sc.env).contains(e));
    lemma_pairs_in(va, sc.env, e);
    lemma_trie_under(va[i], p, sc, e);
    lemma_under_push(hashed(e.0), path, s);
    lemma_find(y, vb, path, sc, e);
}

/// What is in a slot of one branch is in the same slot of the other.
proof fn lemma_child_shared(
    x: u32,
    va: Seq<Value>,
    y: u32,
    vb: Seq<Value>,
    path: Seq<u64>,
    sc: Scene,
    i: int,
    e: (Norm, Norm),
)
    requires
        tries(va, path, taken(x, 32), sc),
        va.len() == taken(x, 32).len(),
        tries(vb, path, taken(y, 32), sc),
        vb.len() == taken(y, 32).len(),
        taken(x, 32) == taken(y, 32),
        pairs_all(va, sc.env).contains(e) ==> pairs_all(vb, sc.env).contains(e),
        0 <= i < va.len(),
        pairs(va[i], sc.env).contains(e),
    ensures
        pairs(vb[i], sc.env).contains(e),
{
    let s = taken(x, 32)[i];
    let p = path.push(s);
    assert(trie(va[i], p, sc));
    lemma_pairs_in(va, sc.env, e);
    lemma_trie_under(va[i], p, sc, e);
    lemma_under_push(hashed(e.0), path, s);
    lemma_find(y, vb, path, sc, e);
    lemma_taken(y, 32);
    lemma_rank(y, s, 32);
    let r = rank(y, s) as int;
    if r < i {
        assert(taken(y, 32)[r] < taken(y, 32)[i]);
    } else if i < r {
        assert(taken(y, 32)[i] < taken(y, 32)[r]);
    }
}

/// Two different entries of a node that has two.
proof fn lemma_pick_two(v: Value, path: Seq<u64>, sc: Scene) -> (r: ((Norm, Norm), (Norm, Norm)))
    requires
        trie(v, path, sc),
        !single(v),
    ensures
        pairs(v, sc.env).contains(r.0),
        pairs(v, sc.env).contains(r.1),
        r.0.0 != r.1.0,
        v.body() is Some && v.body()->Some_0 is HamtCollision ==> hashed(r.0.0) == hashed(r.1.0),
{
    lemma_two(v, path, sc);
    lemma_trie_keyed(v, path, sc);
    let es = pairs(v, sc.env);
    let (e, f) = (es[0], es[1]);
    assert(es.contains(e));
    assert(es.contains(f));
    assert(es[0].0 != es[1].0);
    if let Body::HamtCollision(h, vs) = v.obj->Some_0.body {
        let ns = norms(vs@, sc.env);
        assert(e == (ns[0], ns[1]));
        assert(f == (ns[2], ns[3]));
        assert(hashed(ns[0]) == h);
        assert(hashed(ns[2]) == h);
    }
    (e, f)
}

/// Nodes reached by one path that hold the same entries are of one shape.
proof fn lemma_one_shape(a: Value, b: Value, path: Seq<u64>, sc: Scene)
    requires
        trie(a, path, sc),
        trie(b, path, sc),
        same_entries(pairs(a, sc.env), pairs(b, sc.env)),
        hashes_apart(pairs(a, sc.env)),
    ensures
        node_shape(a, sc.env) == node_shape(b, sc.env),
    decreases a, 3nat,
{
    let env = sc.env;
    let (es, fs) = (pairs(a, env), pairs(b, env));
    if !single(a) {
        let (e, f) = lemma_pick_two(a, path, sc);
        assert(fs.contains(e) && fs.contains(f));
        if single(b) {
            assert(fs.len() == 1);
        }
    }
    if !single(b) {
        let (e, f) = lemma_pick_two(b, path, sc);
        assert(es.contains(e) && es.contains(f));
        if single(a) {
            assert(es.len() == 1);
        }
    }
    if single(a) && single(b) {
        assert(es.contains(es[0]));
        assert(fs.contains(es[0]));
        assert(fs[0] == es[0]);
    } else if let Body::HamtBranch(x, va) = a.obj->Some_0.body {
        if let Body::HamtBranch(y, vb) = b.obj->Some_0.body {
            assert forall|s: u64| s < 32 implies #[trigger] takes(x, s) == takes(y, s) by {
                if takes(x, s) {
                    lemma_slot_shared(x, va@, y, vb@, path, sc, s);
                }
                if takes(y, s) {
                    lemma_slot_shared(y, vb@, x, va@, path, sc, s);
                }
            }
            lemma_same_slots(x, y, 32);
            lemma_shapes_below(x, va@, y, vb@, path, sc);
        }
    }
}

proof fn lemma_shapes_below(
    x: u32,
    va: Seq<Value>,
    y: u32,
    vb: Seq<Value>,
    path: Seq<u64>,
    sc: Scene,
)
    requires
        tries(va, path, taken(x, 32), sc),
        va.len() == taken(x, 32).len(),
        tries(vb, path, taken(y, 32), sc),
        vb.len() == taken(y, 32).len(),
        taken(x, 32) == taken(y, 32),
        same_entries(pairs_all(va, sc.env), pairs_all(vb, sc.env)),
        hashes_apart(pairs_all(va, sc.env)),
    ensures
        node_shapes(va, sc.env) == node_shapes(vb, sc.env),
    decreases va, 0nat,
{
    let env = sc.env;
    lemma_shapes(va, env);
    lemma_shapes(vb, env);
    assert forall|i: int| 0 <= i < va.len() implies #[trigger] node_shapes(va, env)[i]
        == node_shapes(vb, env)[i] by {
        let p = path.push(taken(x, 32)[i]);
        assert(trie(va[i], p, sc));
        assert(trie(vb[i], p, sc));
        assert forall|e: (Norm, Norm)| #[trigger] pairs(va[i], env).contains(e) <==> pairs(
            vb[i],
            env,
        ).contains(e) by {
            assert(pairs_all(va, env).contains(e) <==> pairs_all(vb, env).contains(e));
            if pairs(va[i], env).contains(e) {
                lemma_child_shared(x, va, y, vb, path, sc, i, e);
            }
            if pairs(vb[i], env).contains(e) {
                lemma_child_shared(y, vb, x, va, path, sc, i, e);
            }
        }
        assert forall|e: (Norm, Norm), f: (Norm, Norm)|
            #![trigger pairs(va[i], env).contains(e), pairs(va[i], env).contains(f)]
            pairs(va[i], env).contains(e) && pairs(va[i], env).contains(f) && e.0
                != f.0 implies hashed(e.0) != hashed(f.0) by {
            lemma_pairs_in(va, env, e);
            lemma_pairs_in(va, env, f);
            assert(pairs_all(va, env).contains(e) && pairs_all(va, env).contains(f));
        }
        lemma_one_shape(va[i], vb[i], p, sc);
    }
    assert(node_shapes(va, env) =~= node_shapes(vb, env));
}

/// The nodes of a map of its own entries.
pub open spec fn map_shape(v: Value, env: Env) -> TrieShape {
    match v.body() {
        Some(Body::MapRoot(MapBox::Hamt { size, root })) => node_shape(root, env),
        _ => TrieShape::Nothing,
    }
}

/// Equal maps have the same shape, whichever inserts and removals made them.
pub proof fn law_equal_maps_have_one_shape(a: Value, b: Value, sc: Scene)
    requires
        user(a, sc),
        user(b, sc),
        a.body() matches Some(Body::MapRoot(m)) && m is Hamt,
        b.body() matches Some(Body::MapRoot(m)) && m is Hamt,
        norm(a, sc.env) == norm(b, sc.env),
        hashes_apart(entries(a, sc.env)),
    ensures
        map_shape(a, sc.env) == map_shape(b, sc.env),
{
    let (es, fs) = (entries(a, sc.env), entries(b, sc.env));
    lemma_ordered(es);
    lemma_ordered(fs);
    if let Some(Body::MapRoot(MapBox::Hamt { size: _, root: x })) = a.body() {
        if let Some(Body::MapRoot(MapBox::Hamt { size: _, root: y })) = b.body() {
            lemma_bag_same(es, fs);
            if x.bits == HDR_NIL {
                lemma_nil_is_no_object(x);
            } else {
                lemma_trie_keyed(x, Seq::empty(), sc);
            }
            if y.bits == HDR_NIL {
                lemma_nil_is_no_object(y);
            } else {
                lemma_trie_keyed(y, Seq::empty(), sc);
            }
            if x.bits != HDR_NIL && y.bits != HDR_NIL {
                lemma_one_shape(x, y, Seq::empty(), sc);
            }
        }
    }
}

} // verus!
