//! How much a value holds, which bounds every walk over it.

use crate::vm::bytecode::object::{Body, MapBox, Value};
use crate::vm::bytecode::seq::{array_elems};
use crate::vm::bytecode::sound::{elems, elems_all};
use vstd::prelude::*;

verus! {

/// A value and everything under it, counted once for each way to reach it.
pub open spec fn weight(v: Value) -> nat
    decreases v, 3nat,
{
    match v.obj {
        Some(o) => 1 + weight_body(o.body),
        None => 1,
    }
}

pub open spec fn weight_body(b: Body) -> nat
    decreases b, 2nat,
{
    match b {
        Body::BigInt(_) | Body::Range(_, _) | Body::Str(_) | Body::Binary(_) | Body::Subject(_) => 0,
        Body::Tuple(vs) => weights(vs@),
        Body::Enum(e) => weight(e.enum_name) + weight(e.variant_name) + weight(e.labels) + weights(
            e.payload@,
        ),
        Body::Closure(c) => weights(c.captures@),
        Body::SeqRoot(s) => weight(s.head) + weight(s.tree) + weight(s.tail),
        Body::SeqLeaf(vs) => weights(vs@),
        Body::SeqBranch(b) => weights(b.children@),
        Body::MapRoot(MapBox::Env) => 0,
        Body::MapRoot(MapBox::Hamt { size, root }) => weight(root),
        Body::HamtBranch(_, vs) => weights(vs@),
        Body::HamtEntry(k, v) => weight(k) + weight(v),
        Body::HamtCollision(_, vs) => weights(vs@),
    }
}

pub open spec fn weights(vs: Seq<Value>) -> nat
    decreases vs, 0nat,
{
    if vs.len() == 0 {
        0
    } else {
        weights(vs.drop_last()) + weight(vs.last())
    }
}

pub proof fn lemma_weights_add(a: Seq<Value>, b: Seq<Value>)
    ensures
        weights(a + b) == weights(a) + weights(b),
    decreases b.len(),
{
    if b.len() == 0 {
        assert(a + b =~= a);
    } else {
        lemma_weights_add(a, b.drop_last());
        assert((a + b).drop_last() =~= a + b.drop_last());
        assert((a + b).last() == b.last());
    }
}

pub proof fn lemma_weights_at(vs: Seq<Value>, i: int)
    requires
        0 <= i < vs.len(),
    ensures
        weight(vs[i]) <= weights(vs),
    decreases vs.len(),
{
    if i < vs.len() - 1 {
        lemma_weights_at(vs.drop_last(), i);
        assert(vs.drop_last()[i] == vs[i]);
    }
}

pub proof fn lemma_weights_one(v: Value)
    ensures
        weights(seq![v]) == weight(v),
{
    assert(seq![v].drop_last() =~= Seq::empty());
    assert(seq![v].last() == v);
    assert(weights(Seq::<Value>::empty()) == 0);
}

/// An object weighs its children and itself.
pub proof fn lemma_weight_kids(v: Value)
    requires
        v.obj is Some,
    ensures
        weight(v) == 1 + weights(v.body()->Some_0.kids()),
{
    let b = v.body()->Some_0;
    assert(weights(Seq::<Value>::empty()) == 0);
    match b {
        Body::Enum(e) => {
            let three = seq![e.enum_name, e.variant_name, e.labels];
            lemma_weights_add(three, e.payload@);
            lemma_weights_three(e.enum_name, e.variant_name, e.labels);
        },
        Body::SeqRoot(s) => {
            lemma_weights_three(s.head, s.tree, s.tail);
        },
        Body::MapRoot(MapBox::Hamt { size, root }) => {
            lemma_weights_one(root);
        },
        Body::HamtEntry(k, x) => {
            assert(seq![k, x] =~= seq![k] + seq![x]);
            lemma_weights_add(seq![k], seq![x]);
            lemma_weights_one(k);
            lemma_weights_one(x);
        },
        _ => {},
    }
}

proof fn lemma_weights_three(a: Value, b: Value, c: Value)
    ensures
        weights(seq![a, b, c]) == weight(a) + weight(b) + weight(c),
{
    assert(seq![a, b, c] =~= seq![a] + seq![b] + seq![c]);
    lemma_weights_add(seq![a] + seq![b], seq![c]);
    lemma_weights_add(seq![a], seq![b]);
    lemma_weights_one(a);
    lemma_weights_one(b);
    lemma_weights_one(c);
}

/// The elements under a vector node weigh less than it.
pub proof fn lemma_elems_weight(v: Value)
    ensures
        weights(elems(v)) < weight(v),
    decreases v, 3nat,
{
    assert(weights(Seq::<Value>::empty()) == 0);
    match v.obj {
        Some(o) => match o.body {
            Body::SeqBranch(b) => {
                lemma_elems_all_weight(b.children@);
            },
            _ => {},
        },
        None => {},
    }
}

pub proof fn lemma_elems_all_weight(vs: Seq<Value>)
    ensures
        weights(elems_all(vs)) <= weights(vs),
    decreases vs, 0nat,
{
    if vs.len() == 0 {
        assert(elems_all(vs) =~= Seq::empty());
        assert(weights(Seq::<Value>::empty()) == 0);
    } else {
        lemma_elems_all_weight(vs.drop_last());
        lemma_elems_weight(vs.last());
        lemma_weights_add(elems_all(vs.drop_last()), elems(vs.last()));
    }
}

/// An element of an array weighs less than the array.
pub proof fn lemma_array_weight(v: Value)
    requires
        v.obj is Some,
    ensures
        weights(array_elems(v)) < weight(v),
{
    match v.body()->Some_0 {
        Body::SeqRoot(s) => {
            lemma_elems_weight(s.head);
            lemma_elems_weight(s.tree);
            lemma_elems_weight(s.tail);
            lemma_weights_add(elems(s.head), elems(s.tree));
            lemma_weights_add(elems(s.head) + elems(s.tree), elems(s.tail));
        },
        _ => {
            assert(weights(Seq::<Value>::empty()) == 0);
        },
    }
}

} // verus!
