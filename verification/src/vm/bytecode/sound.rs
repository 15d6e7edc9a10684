//! Well-formed values: what every constructor establishes and every reader may
//! rely on.

use crate::type_def::TypeId;
use crate::vm::bytecode::norm::{
    Env, hashed, items, items_all, norm, Norm, norm_body, norms, pairs, text_of,
};
use crate::vm::bytecode::object::{all_fit, Body, MapBox, Object, SeqBox, Value};
use crate::vm::bytecode::bits::view_fits;
use crate::vm::bytecode::word::{HDR_NIL, PAYLOAD, word_kind};
use vstd::prelude::*;

verus! {

/// What values are read against: the host environment, and the name of each
/// nominal type.
pub struct Scene {
    pub env: Env,
    pub names: spec_fn(TypeId) -> Seq<char>,
}

/// A value that programs can hold.
pub open spec fn user(v: Value, sc: Scene) -> bool
    decreases v, 3nat,
{
    &&& v.sound()
    &&& match v.obj {
        Some(o) => (o.immortal ==> all_fit(true, o.body.kids())) && user_body(o.body, sc),
        None => true,
    }
}

pub open spec fn user_body(b: Body, sc: Scene) -> bool
    decreases b, 2nat,
{
    match b {
        Body::BigInt(_) | Body::Range(_, _) | Body::Str(_) => true,
        Body::Binary(b) => view_fits(b.backing@, b.bit_offset, b.bit_len),
        Body::Tuple(vs) => users(vs@, sc),
        Body::Enum(e) => {
            &&& user(e.enum_name, sc)
            &&& user(e.variant_name, sc)
            &&& user(e.labels, sc)
            &&& e.enum_name.body() is Some && e.enum_name.body()->Some_0 is Str
            &&& e.variant_name.body() is Some && e.variant_name.body()->Some_0 is Str
            &&& e.labels.body() is Some && e.labels.body()->Some_0 is Tuple
            &&& users(e.payload@, sc)
            &&& text_of(e.enum_name) == (sc.names)(e.type_id)
            &&& e.hash == 0 || e.hash == hashed(norm_body(b, sc.env))
        },
        Body::Closure(c) => users(c.captures@, sc),
        Body::SeqRoot(s) => {
            &&& root_ok(s)
            &&& held(s.head, sc) && held(s.tree, sc) && held(s.tail, sc)
        },
        Body::MapRoot(MapBox::Env) => true,
        Body::MapRoot(MapBox::Hamt { size, root }) => {
            &&& root.sound()
            &&& if root.bits == HDR_NIL {
                size == 0
            } else {
                trie(root, Seq::empty(), sc) && size == pairs(root, sc.env).len()
            }
        },
        Body::Subject(id) => id <= PAYLOAD,
        Body::SeqLeaf(_) | Body::SeqBranch(_) | Body::HamtBranch(_, _) | Body::HamtEntry(_, _)
        | Body::HamtCollision(_, _) => false,
    }
}

pub open spec fn users(vs: Seq<Value>, sc: Scene) -> bool
    decreases vs, 0nat,
{
    forall|i: int| 0 <= i < vs.len() ==> user(#[trigger] vs[i], sc)
}

/// Every element under a vector node is a user value.
pub open spec fn held(v: Value, sc: Scene) -> bool
    decreases v, 3nat,
{
    match v.obj {
        Some(o) => match o.body {
            Body::SeqLeaf(vs) => users(vs@, sc),
            Body::SeqBranch(b) => held_all(b.children@, sc),
            _ => true,
        },
        None => true,
    }
}

pub open spec fn held_all(vs: Seq<Value>, sc: Scene) -> bool
    decreases vs, 0nat,
{
    forall|i: int| 0 <= i < vs.len() ==> held(#[trigger] vs[i], sc)
}

/// The tallest tree an array keeps; one that would be taller is packed anew.
pub const MAX_SHIFT: usize = 1000;

/// A vector root: its length is what its parts hold.
pub open spec fn root_ok(s: SeqBox) -> bool {
    &&& s.shift % 5 == 0
    &&& s.shift <= MAX_SHIFT
    &&& s.head.sound() && s.tree.sound() && s.tail.sound()
    &&& s.head.bits == HDR_NIL || node(s.head, 0)
    &&& s.tail.bits == HDR_NIL || node(s.tail, 0)
    &&& if s.tree.bits == HDR_NIL {
        s.shift == 0
    } else {
        node(s.tree, (s.shift / 5) as nat)
    }
    &&& s.len == root_elems(s).len()
}

pub open spec fn root_elems(s: SeqBox) -> Seq<Value> {
    elems(s.head) + elems(s.tree) + elems(s.tail)
}

/// The elements under a vector node, in order.
pub open spec fn elems(v: Value) -> Seq<Value>
    decreases v, 3nat,
{
    match v.obj {
        Some(o) => match o.body {
            Body::SeqLeaf(vs) => vs@,
            Body::SeqBranch(b) => elems_all(b.children@),
            _ => Seq::empty(),
        },
        None => Seq::empty(),
    }
}

pub open spec fn elems_all(vs: Seq<Value>) -> Seq<Value>
    decreases vs, 0nat,
{
    if vs.len() == 0 {
        Seq::empty()
    } else {
        elems_all(vs.drop_last()) + elems(vs.last())
    }
}

/// A vector node at height `h`: a leaf of one to 32 elements at the bottom,
/// else a branch over one to 32 nodes one level down, with their running
/// totals.
pub open spec fn node(v: Value, h: nat) -> bool
    decreases v, 3nat,
{
    &&& v.sound()
    &&& match v.obj {
        Some(o) => {
            &&& o.immortal ==> all_fit(true, o.body.kids())
            &&& match o.body {
                Body::SeqLeaf(vs) => h == 0 && 1 <= vs@.len() <= 32,
                Body::SeqBranch(b) => {
                    &&& h > 0
                    &&& b.shift == 5 * h
                    &&& 1 <= b.children@.len() <= 32
                    &&& nodes(b.children@, (h - 1) as nat)
                    &&& totals(b.sizes@, b.children@)
                },
                _ => false,
            }
        },
        None => false,
    }
}

pub open spec fn nodes(vs: Seq<Value>, h: nat) -> bool
    decreases vs, 0nat,
{
    forall|i: int| 0 <= i < vs.len() ==> node(#[trigger] vs[i], h)
}

/// `sizes` are the running totals of the elements under `children`.
pub open spec fn totals(sizes: Seq<usize>, children: Seq<Value>) -> bool {
    &&& sizes.len() == children.len()
    &&& forall|i: int|
        0 <= i < sizes.len() ==> #[trigger] sizes[i] == elems_all(children.take(i + 1)).len()
}

/// The slot a hash selects at a depth: five bits, from the low end up.
pub open spec fn slot_at(hash: u64, depth: nat) -> u64 {
    (hash >> ((5 * depth) as u64)) & 31
}

/// A hash leads down this path.
pub open spec fn under(hash: u64, path: Seq<u64>) -> bool {
    forall|j: int| 0 <= j < path.len() ==> #[trigger] path[j] == slot_at(hash, j as nat)
}

/// The slots of a bitmap that are taken, in ascending order.
pub open spec fn taken(bitmap: u32, n: nat) -> Seq<u64>
    decreases n,
{
    if n == 0 {
        Seq::empty()
    } else if (bitmap >> ((n - 1) as u32)) & 1 == 1 {
        taken(bitmap, (n - 1) as nat).push((n - 1) as u64)
    } else {
        taken(bitmap, (n - 1) as nat)
    }
}

/// A node of one entry.
pub open spec fn single(v: Value) -> bool {
    v.body() is Some && v.body()->Some_0 is HamtEntry
}

/// A trie node reached by `path`. A branch parts what it holds, here or further
/// down: it is never the way to one entry alone.
pub open spec fn trie(v: Value, path: Seq<u64>, sc: Scene) -> bool
    decreases v, 3nat,
{
    &&& v.sound()
    &&& path.len() <= 13
    &&& match v.obj {
        Some(o) => {
            &&& o.immortal ==> all_fit(true, o.body.kids())
            &&& match o.body {
                Body::HamtEntry(k, x) => user(k, sc) && user(x, sc) && under(
                    hashed(norm(k, sc.env)),
                    path,
                ),
                Body::HamtCollision(h, vs) => {
                    &&& vs@.len() >= 4
                    &&& vs@.len() % 2 == 0
                    &&& users(vs@, sc)
                    &&& under(h, path)
                    &&& bucket(norms(vs@, sc.env), h)
                },
                Body::HamtBranch(bitmap, vs) => {
                    &&& path.len() < 13
                    &&& vs@.len() >= 1
                    &&& vs@.len() == taken(bitmap, 32).len()
                    &&& vs@.len() == 1 ==> !single(vs@[0])
                    &&& tries(vs@, path, taken(bitmap, 32), sc)
                },
                _ => false,
            }
        },
        None => false,
    }
}

pub open spec fn tries(vs: Seq<Value>, path: Seq<u64>, slots: Seq<u64>, sc: Scene) -> bool
    decreases vs, 0nat,
{
    forall|i: int| 0 <= i < vs.len() ==> trie(#[trigger] vs[i], path.push(slots[i]), sc)
}

/// Alternating keys and values, the keys distinct and all of hash `h`.
pub open spec fn bucket(ns: Seq<Norm>, h: u64) -> bool {
    &&& forall|i: int|
        0 <= i < ns.len() && i % 2 == 0 ==> hashed(#[trigger] ns[i]) == h
    &&& forall|i: int, j: int|
        0 <= i < j < ns.len() && i % 2 == 0 && j % 2 == 0 ==> #[trigger] ns[i] != #[trigger] ns[j]
}

/// A vector node has elements.
pub proof fn lemma_node(v: Value, h: nat)
    requires
        node(v, h),
    ensures
        elems(v).len() >= 1,
        v.bits != HDR_NIL,
        word_kind(v.bits) is Object,
    decreases v, 3nat,
{
    lemma_nil_is_no_object(v);
    match v.obj {
        Some(o) => match o.body {
            Body::SeqLeaf(vs) => {},
            Body::SeqBranch(b) => {
                lemma_nodes(b.children@, (h - 1) as nat);
            },
            _ => {},
        },
        None => {},
    }
}

pub proof fn lemma_nil_is_no_object(v: Value)
    requires
        v.sound(),
    ensures
        v.bits == HDR_NIL ==> v.obj is None,
        v.obj is Some <==> word_kind(v.bits) is Object,
{
    crate::vm::bytecode::word::lemma_nil_kind();
}

pub proof fn lemma_nodes(vs: Seq<Value>, h: nat)
    requires
        nodes(vs, h),
    ensures
        elems_all(vs).len() >= vs.len(),
    decreases vs, 0nat,
{
    if vs.len() > 0 {
        let init = vs.drop_last();
        assert forall|i: int| 0 <= i < init.len() implies node(#[trigger] init[i], h) by {
            assert(node(vs[i], h));
        }
        lemma_nodes(init, h);
        assert(node(vs[vs.len() - 1], h));
        lemma_node(vs.last(), h);
    }
}

/// What a vector node means is what its elements mean, and it holds user
/// values when they are.
pub proof fn lemma_held(v: Value, sc: Scene)
    ensures
        held(v, sc) <==> users(elems(v), sc),
        items(v, sc.env) == norms(elems(v), sc.env),
    decreases v, 3nat,
{
    match v.obj {
        Some(o) => match o.body {
            Body::SeqLeaf(vs) => {},
            Body::SeqBranch(b) => {
                lemma_held_all(b.children@, sc);
            },
            _ => {
                assert(norms(elems(v), sc.env) =~= Seq::empty());
            },
        },
        None => {
            assert(norms(elems(v), sc.env) =~= Seq::empty());
        },
    }
}

pub proof fn lemma_held_all(vs: Seq<Value>, sc: Scene)
    ensures
        held_all(vs, sc) <==> users(elems_all(vs), sc),
        items_all(vs, sc.env) == norms(elems_all(vs), sc.env),
    decreases vs, 0nat,
{
    if vs.len() > 0 {
        let init = vs.drop_last();
        lemma_held_all(init, sc);
        lemma_held(vs.last(), sc);
        lemma_norms_add(elems_all(init), elems(vs.last()), sc.env);
        lemma_users_add(elems_all(init), elems(vs.last()), sc);
        if held_all(vs, sc) {
            assert forall|i: int| 0 <= i < init.len() implies held(#[trigger] init[i], sc) by {
                assert(held(vs[i], sc));
            }
            assert(held(vs[vs.len() - 1], sc));
        }
        if held_all(init, sc) && held(vs.last(), sc) {
            assert forall|i: int| 0 <= i < vs.len() implies held(#[trigger] vs[i], sc) by {
                if i < init.len() {
                    assert(held(init[i], sc));
                }
            }
        }
    } else {
        assert(norms(elems_all(vs), sc.env) =~= Seq::empty());
    }
}

pub proof fn lemma_norms_add(a: Seq<Value>, b: Seq<Value>, env: Env)
    ensures
        norms(a + b, env) == norms(a, env) + norms(b, env),
{
    assert forall|i: int| 0 <= i < (a + b).len() implies norms(a + b, env)[i] == (norms(a, env)
        + norms(b, env))[i] by {
        if i < a.len() {
            assert((a + b)[i] == a[i]);
        } else {
            assert((a + b)[i] == b[i - a.len()]);
        }
    }
    assert(norms(a + b, env) =~= norms(a, env) + norms(b, env));
}

pub proof fn lemma_users_add(a: Seq<Value>, b: Seq<Value>, sc: Scene)
    ensures
        users(a + b, sc) <==> users(a, sc) && users(b, sc),
{
    if users(a + b, sc) {
        assert forall|i: int| 0 <= i < a.len() implies user(#[trigger] a[i], sc) by {
            assert((a + b)[i] == a[i]);
        }
        assert forall|i: int| 0 <= i < b.len() implies user(#[trigger] b[i], sc) by {
            assert((a + b)[a.len() + i] == b[i]);
        }
    }
}

/// Elements of a concatenation of children.
pub proof fn lemma_elems_add(a: Seq<Value>, b: Seq<Value>)
    ensures
        elems_all(a + b) == elems_all(a) + elems_all(b),
    decreases b.len(),
{
    if b.len() == 0 {
        assert(a + b =~= a);
        assert(elems_all(b) =~= Seq::empty());
        assert(elems_all(a) + elems_all(b) =~= elems_all(a));
    } else {
        lemma_elems_add(a, b.drop_last());
        assert((a + b).drop_last() =~= a + b.drop_last());
        assert((a + b).last() == b.last());
        assert(elems_all(a + b) =~= elems_all(a) + elems_all(b));
    }
}

pub proof fn lemma_elems_one(v: Value)
    ensures
        elems_all(seq![v]) == elems(v),
{
    assert(seq![v].drop_last() =~= Seq::empty());
    assert(seq![v].last() == v);
    assert(elems_all(Seq::<Value>::empty()) =~= Seq::empty());
    assert(elems_all(seq![v]) =~= elems(v));
}

} // verus!
