//! Vector nodes: reading them, making them, and the persistent operations on
//! trees of them.

use crate::vm::bytecode::object::{
    all_fit, alloc_obj, Arena, Body, BranchBox, fits, is_object, Object, Value,
};
use crate::vm::bytecode::sound::{
    elems, elems_all, lemma_elems_add, lemma_elems_one, lemma_nil_is_no_object, lemma_node, node,
    nodes, totals,
};
use crate::vm::bytecode::word::{HDR_NIL, word_kind};
use crate::vm::rrb::{B, BITS, total};
use std::rc::Rc;
use vstd::prelude::*;

verus! {

/// A unique object taken apart: its word and address, for what it will hold.
pub struct Shell {
    pub bits: u64,
    pub addr: u64,
}

impl Shell {
    /// The word is that of a mortal object at the address.
    pub open spec fn ok(self) -> bool {
        forall|body: Body| #[trigger] refilled(self, body).sound()
    }
}

/// The object a shell becomes.
pub open spec fn refilled(shell: Shell, body: Body) -> Value {
    Value {
        bits: shell.bits,
        obj: Some(Rc::new(Object { addr: shell.addr, immortal: false, body })),
    }
}

/// Take apart the object of a value that nothing else refers to. A shared or
/// frozen one comes back as it was.
pub(crate) fn take_apart(v: Value) -> (r: Result<(Shell, Body), Value>)
    requires
        v.sound(),
        v.obj is Some,
    ensures
        match r {
            Ok(p) => p.0.ok() && v.body() == Some(p.1) && word_kind(p.0.bits) is Object
                && p.0.bits == v.bits && !v.obj->Some_0.immortal,
            Err(w) => w == v,
        },
{
    if v.is_immortal() {
        return Err(v);
    }
    let bits = v.bits;
    match v.obj {
        Some(rc) => match Rc::try_unwrap(rc) {
            Ok(o) => {
                let Object { addr, immortal, body } = o;
                Ok((Shell { bits, addr }, body))
            },
            Err(rc) => Err(Value { bits, obj: Some(rc) }),
        },
        None => Err(Value { bits, obj: None }),
    }
}

/// Put a shell back in use.
pub(crate) fn refill(shell: Shell, body: Body) -> (r: Value)
    requires
        shell.ok(),
        word_kind(shell.bits) is Object,
    ensures
        is_object(r, body, false),
        r.bits == shell.bits,
{
    let r = Value {
        bits: shell.bits,
        obj: Some(Rc::new(Object { addr: shell.addr, immortal: false, body })),
    };
    proof {
        assert(r == refilled(shell, body));
    }
    r
}

/// A node's own slots: a leaf's elements, or a branch's children.
pub open spec fn slots(v: Value) -> Seq<Value> {
    match v.body() {
        Some(Body::SeqLeaf(vs)) => vs@,
        Some(Body::SeqBranch(b)) => b.children@,
        _ => Seq::empty(),
    }
}

pub open spec fn slots_all(vs: Seq<Value>) -> Seq<Value>
    decreases vs.len(),
{
    if vs.len() == 0 {
        Seq::empty()
    } else {
        slots_all(vs.drop_last()) + slots(vs.last())
    }
}

/// A value that is a node at height `h` and may be put in an object of an
/// arena.
pub open spec fn usable(imm: bool, v: Value, h: nat) -> bool {
    node(v, h) && fits(imm, v)
}

pub open spec fn all_usable(imm: bool, vs: Seq<Value>, h: nat) -> bool {
    nodes(vs, h) && all_fit(imm, vs)
}

/// The children of a usable node are usable, the elements of a usable leaf may
/// be put in the arena.
pub proof fn lemma_slots(imm: bool, v: Value, h: nat)
    requires
        usable(imm, v, h),
    ensures
        1 <= slots(v).len() <= 32,
        all_fit(imm, slots(v)),
        h > 0 ==> nodes(slots(v), (h - 1) as nat) && elems(v) == elems_all(slots(v)),
        h == 0 ==> elems(v) == slots(v),
{
    lemma_node(v, h);
    let kids = v.body()->Some_0.kids();
    assert(kids == slots(v));
}

pub proof fn lemma_all_fit_sub(imm: bool, vs: Seq<Value>, i: int, j: int)
    requires
        all_fit(imm, vs),
        0 <= i <= j <= vs.len(),
    ensures
        all_fit(imm, vs.subrange(i, j)),
{
    assert forall|k: int| 0 <= k < j - i implies fits(
        imm,
        #[trigger] vs.subrange(i, j)[k],
    ) by {
        assert(fits(imm, vs[i + k]));
    }
}

pub proof fn lemma_nodes_sub(vs: Seq<Value>, h: nat, i: int, j: int)
    requires
        nodes(vs, h),
        0 <= i <= j <= vs.len(),
    ensures
        nodes(vs.subrange(i, j), h),
{
    assert forall|k: int| 0 <= k < j - i implies node(#[trigger] vs.subrange(i, j)[k], h) by {
        assert(node(vs[i + k], h));
    }
}

proof fn lemma_usable_add(imm: bool, a: Seq<Value>, b: Seq<Value>, h: nat)
    requires
        all_usable(imm, a, h),
        all_usable(imm, b, h),
    ensures
        all_usable(imm, a + b, h),
{
    assert forall|k: int| 0 <= k < (a + b).len() implies node(#[trigger] (a + b)[k], h) && fits(
        imm,
        (a + b)[k],
    ) by {
        if k < a.len() {
            assert(node(a[k], h) && fits(imm, a[k]));
        } else {
            assert(node(b[k - a.len()], h) && fits(imm, b[k - a.len()]));
        }
    }
}

proof fn lemma_usable_one(imm: bool, v: Value, h: nat)
    requires
        usable(imm, v, h),
    ensures
        all_usable(imm, seq![v], h),
{
}

/// A prefix of the children holds no more than all of them.
pub proof fn lemma_elems_prefix(vs: Seq<Value>, k: int)
    requires
        0 <= k <= vs.len(),
    ensures
        elems_all(vs) == elems_all(vs.take(k)) + elems_all(vs.skip(k)),
{
    assert(vs =~= vs.take(k) + vs.skip(k));
    lemma_elems_add(vs.take(k), vs.skip(k));
}

/// Copies of a run of values.
pub(crate) fn copy(vs: &Vec<Value>, from: usize, to: usize) -> (r: Vec<Value>)
    requires
        from <= to <= vs@.len(),
    ensures
        r@ == vs@.subrange(from as int, to as int),
{
    let mut out: Vec<Value> = Vec::new();
    let mut i: usize = from;
    while i < to
        invariant
            from <= i <= to <= vs@.len(),
            out@ == vs@.subrange(from as int, i as int),
        decreases to - i,
    {
        let v = vs[i].clone();
        out.push(v);
        proof {
            assert(vs@.subrange(from as int, i + 1) =~= vs@.subrange(
                from as int,
                i as int,
            ).push(vs@[i as int]));
        }
        i += 1;
    }
    out
}

/// The elements of a leaf.
pub(crate) fn leaf_elems(v: &Value) -> (r: &Vec<Value>)
    requires
        node(*v, 0),
    ensures
        r@ == elems(*v),
        r@ == slots(*v),
        1 <= r@.len() <= 32,
{
    match &v.obj {
        Some(o) => match &o.body {
            Body::SeqLeaf(vs) => vs,
            _ => vstd::pervasive::unreached(),
        },
        None => vstd::pervasive::unreached(),
    }
}

/// The parts of a branch.
pub(crate) fn branch_parts(v: &Value, Ghost(h): Ghost<nat>) -> (r: &BranchBox)
    requires
        node(*v, h),
        h > 0,
    ensures
        v.body() == Some(Body::SeqBranch(*r)),
        r.children@ == slots(*v),
        r.shift == 5 * h,
        totals(r.sizes@, r.children@),
        1 <= r.children@.len() <= 32,
{
    match &v.obj {
        Some(o) => match &o.body {
            Body::SeqBranch(b) => b,
            _ => vstd::pervasive::unreached(),
        },
        None => vstd::pervasive::unreached(),
    }
}

/// The slots of a node.
pub(crate) fn node_slots(v: &Value, Ghost(h): Ghost<nat>) -> (r: &Vec<Value>)
    requires
        node(*v, h),
    ensures
        r@ == slots(*v),
        1 <= r@.len() <= 32,
{
    match &v.obj {
        Some(o) => match &o.body {
            Body::SeqLeaf(vs) => vs,
            Body::SeqBranch(b) => &b.children,
            _ => vstd::pervasive::unreached(),
        },
        None => vstd::pervasive::unreached(),
    }
}

/// Elements under a node.
pub(crate) fn node_len(v: &Value, Ghost(h): Ghost<nat>) -> (r: usize)
    requires
        v.bits == HDR_NIL && v.sound() || node(*v, h),
    ensures
        r == elems(*v).len(),
{
    proof {
        lemma_nil_is_no_object(*v);
    }
    match &v.obj {
        Some(o) => match &o.body {
            Body::SeqLeaf(vs) => vs.len(),
            Body::SeqBranch(b) => {
                proof {
                    let n = b.children@.len() as int;
                    assert(b.sizes@[n - 1] == elems_all(b.children@.take(n)).len());
                    assert(b.children@.take(n) =~= b.children@);
                }
                b.sizes[b.sizes.len() - 1]
            },
            _ => vstd::pervasive::unreached(),
        },
        None => 0,
    }
}

/// Which child of a branch holds an element, and how many elements the
/// children before that one hold.
pub struct ChildSlot {
    pub child: usize,
    pub before: usize,
}

/// Descend one level to element `idx`. The scan starts at the radix guess
/// `idx >> shift`, which is right at once in a packed subtree.
pub(crate) fn size_slot(b: &BranchBox, idx: usize) -> (r: ChildSlot)
    requires
        totals(b.sizes@, b.children@),
        idx < elems_all(b.children@).len(),
    ensures
        r.child < b.children@.len(),
        r.before == elems_all(b.children@.take(r.child as int)).len(),
        r.before <= idx,
        idx - r.before < elems(b.children@[r.child as int]).len(),
        idx < elems_all(b.children@.take(r.child + 1)).len(),
{
    let ghost cs = b.children@;
    let n: usize = b.sizes.len();
    proof {
        assert(elems_all(Seq::<Value>::empty()) =~= Seq::empty());
        if n == 0 {
            assert(cs =~= Seq::empty());
        }
        assert(b.sizes@[n - 1] == elems_all(cs.take(n as int)).len());
        assert(cs.take(n as int) =~= cs);
    }
    let guess: usize = if b.shift < 32 {
        idx >> b.shift
    } else {
        0
    };
    let mut k: usize = if guess < n {
        guess
    } else {
        n - 1
    };
    if k > 0 && b.sizes[k - 1] > idx {
        k = 0;
    }
    while b.sizes[k] <= idx
        invariant
            k < n == b.sizes@.len() == cs.len(),
            cs == b.children@,
            totals(b.sizes@, cs),
            b.sizes@[n - 1] > idx,
            k > 0 ==> b.sizes@[k - 1] <= idx,
        decreases n - k,
    {
        k += 1;
    }
    let before: usize = if k > 0 {
        b.sizes[k - 1]
    } else {
        0
    };
    proof {
        if k > 0 {
            assert(b.sizes@[k - 1] == elems_all(cs.take(k as int)).len());
        } else {
            assert(cs.take(0) =~= Seq::empty());
        }
        assert(b.sizes@[k as int] == elems_all(cs.take(k + 1)).len());
        assert(cs.take(k + 1).drop_last() =~= cs.take(k as int));
        assert(cs.take(k + 1).last() == cs[k as int]);
    }
    ChildSlot { child: k, before }
}

/// Running totals of the elements under `children`.
fn sizes_of(children: &Vec<Value>, Ghost(h): Ghost<nat>) -> (r: Vec<usize>)
    requires
        nodes(children@, h),
        elems_all(children@).len() <= usize::MAX,
    ensures
        totals(r@, children@),
{
    let mut sizes: Vec<usize> = Vec::new();
    let mut total: usize = 0;
    let mut i: usize = 0;
    let ghost cs = children@;
    proof {
        assert(cs.take(0) =~= Seq::empty());
        assert(elems_all(Seq::<Value>::empty()) =~= Seq::empty());
    }
    while i < children.len()
        invariant
            i <= children@.len(),
            cs == children@,
            nodes(cs, h),
            elems_all(cs).len() <= usize::MAX,
            total == elems_all(cs.take(i as int)).len(),
            sizes@.len() == i,
            forall|k: int|
                0 <= k < i ==> #[trigger] sizes@[k] == elems_all(cs.take(k + 1)).len(),
        decreases children@.len() - i,
    {
        proof {
            assert(node(cs[i as int], h));
            assert(cs.take(i + 1).drop_last() =~= cs.take(i as int));
            assert(cs.take(i + 1).last() == cs[i as int]);
            lemma_elems_prefix(cs, i + 1);
        }
        total = total + node_len(&children[i], Ghost(h));
        sizes.push(total);
        i += 1;
    }
    sizes
}

/// A new leaf.
pub(crate) fn leaf_from<A: Arena>(a: &mut A, items: Vec<Value>) -> (r: Value)
    requires
        1 <= items@.len() <= 32,
        all_fit(old(a).immortal(), items@),
    ensures
        usable(old(a).immortal(), r, 0),
        elems(r) == items@,
        slots(r) == items@,
        final(a).immortal() == old(a).immortal(),
{
    let words: usize = 1 + items.len();
    alloc_obj(a, Body::SeqLeaf(items), words)
}

/// A new branch over `children`, one level above them.
pub(crate) fn branch_from<A: Arena>(
    a: &mut A,
    shift: usize,
    children: Vec<Value>,
    Ghost(h): Ghost<nat>,
) -> (r: Value)
    requires
        shift == 5 * (h + 1),
        1 <= children@.len() <= 32,
        all_usable(old(a).immortal(), children@, h),
        elems_all(children@).len() <= usize::MAX,
    ensures
        usable(old(a).immortal(), r, h + 1),
        elems(r) == elems_all(children@),
        slots(r) == children@,
        final(a).immortal() == old(a).immortal(),
{
    let sizes = sizes_of(&children, Ghost(h));
    let words: usize = 2 + 2 * children.len();
    let ghost body = Body::SeqBranch(BranchBox { shift, sizes, children });
    proof {
        assert(body.kids() == children@);
    }
    alloc_obj(a, Body::SeqBranch(BranchBox { shift, sizes, children }), words)
}

/// What hanging a leaf at an end of a tree gives.
pub open spec fn joined_at(front: bool, all: Seq<Value>, more: Seq<Value>) -> Seq<Value> {
    if front {
        more + all
    } else {
        all + more
    }
}

/// A chain of single-child branches lifting a leaf to height `shift`.
pub(crate) fn make_spine<A: Arena>(
    a: &mut A,
    leaf: Value,
    shift: usize,
    Ghost(h): Ghost<nat>,
) -> (r: Value)
    requires
        usable(old(a).immortal(), leaf, 0),
        shift == 5 * h,
        shift + 5 <= usize::MAX,
    ensures
        usable(old(a).immortal(), r, h),
        elems(r) == elems(leaf),
        final(a).immortal() == old(a).immortal(),
{
    let mut n = leaf;
    let mut s: usize = BITS;
    let ghost mut at: nat = 0;
    while s <= shift
        invariant
            s == 5 * (at + 1),
            shift == 5 * h,
            at <= h,
            shift + 5 <= usize::MAX,
            a.immortal() == old(a).immortal(),
            usable(a.immortal(), n, at),
            elems(n) == elems(leaf),
            node(leaf, 0),
        decreases shift + 5 - s,
    {
        let mut one: Vec<Value> = Vec::new();
        let ghost n0 = n;
        one.push(n);
        proof {
            assert(one@ =~= seq![n0]);
            lemma_elems_one(n0);
            lemma_usable_one(a.immortal(), n0, at);
            lemma_leaf_fits(leaf);
        }
        n = branch_from(a, s, one, Ghost(at));
        proof {
            at = at + 1;
        }
        s = s + BITS;
    }
    proof {
        assert(at == h);
    }
    n
}

proof fn lemma_leaf_fits(leaf: Value)
    requires
        node(leaf, 0),
    ensures
        elems(leaf).len() <= 32,
{
}

/// Hang `leaf` under the edge of `n` without increasing its height. `None` when
/// every level on that side is full.
#[verifier::rlimit(60)]
#[verifier::spinoff_prover]
pub(crate) fn try_push<A: Arena>(
    a: &mut A,
    n: &Value,
    shift: usize,
    leaf: &Value,
    front: bool,
    Ghost(h): Ghost<nat>,
) -> (r: Option<Value>)
    requires
        usable(old(a).immortal(), *n, h),
        usable(old(a).immortal(), *leaf, 0),
        shift == 5 * h,
        shift + 5 <= usize::MAX,
        elems(*n).len() + elems(*leaf).len() <= usize::MAX,
    ensures
        final(a).immortal() == old(a).immortal(),
        r matches Some(t) ==> usable(old(a).immortal(), t, h) && elems(t) == joined_at(
            front,
            elems(*n),
            elems(*leaf),
        ),
    decreases h,
{
    if shift == 0 {
        return None;
    }
    let ghost imm = a.immortal();
    proof {
        lemma_slots(imm, *n, h);
    }
    let b = branch_parts(n, Ghost(h));
    let count: usize = b.children.len();
    let edge: usize = if front {
        0
    } else {
        count - 1
    };
    let ghost cs = b.children@;
    let ghost low = (h - 1) as nat;
    proof {
        assert(node(cs[edge as int], low) && fits(imm, cs[edge as int]));
        lemma_split_edge(cs, edge as int, front);
    }
    if let Some(sub) = try_push(a, &b.children[edge], shift - BITS, leaf, front, Ghost(low)) {
        let mut kept = copy(&b.children, 0, count);
        proof {
            assert(kept@ =~= cs);
            lemma_usable_update(imm, cs, edge as int, sub, low);
            lemma_elems_edge(cs, edge as int, front, sub, elems(*leaf));
        }
        kept.set(edge, sub);
        return Some(branch_from(a, shift, kept, Ghost(low)));
    }
    if count < B {
        let s = make_spine(a, leaf.clone(), shift - BITS, Ghost(low));
        let mut all: Vec<Value> = Vec::new();
        let mut kept = copy(&b.children, 0, count);
        proof {
            assert(kept@ =~= cs);
            lemma_usable_one(imm, s, low);
            lemma_usable_add(imm, seq![s], cs, low);
            lemma_usable_add(imm, cs, seq![s], low);
            lemma_elems_add(seq![s], cs);
            lemma_elems_add(cs, seq![s]);
            lemma_elems_one(s);
        }
        if front {
            let ghost s0 = s;
            all.push(s);
            all.append(&mut kept);
            proof {
                assert(all@ =~= seq![s0] + cs);
            }
        } else {
            let ghost s0 = s;
            all.append(&mut kept);
            all.push(s);
            proof {
                assert(all@ =~= cs + seq![s0]);
            }
        }
        return Some(branch_from(a, shift, all, Ghost(low)));
    }
    None
}

/// The edge child's elements stand at that edge.
proof fn lemma_split_edge(cs: Seq<Value>, edge: int, front: bool)
    requires
        cs.len() >= 1,
        edge == if front {
            0
        } else {
            cs.len() - 1
        },
    ensures
        elems(cs[edge]).len() <= elems_all(cs).len(),
        front ==> elems_all(cs) == elems(cs[0]) + elems_all(cs.skip(1)),
        !front ==> elems_all(cs) == elems_all(cs.drop_last()) + elems(cs.last()),
{
    lemma_elems_prefix(cs, 1);
    assert(cs.take(1) =~= seq![cs[0]]);
    lemma_elems_one(cs[0]);
}

proof fn lemma_usable_update(imm: bool, cs: Seq<Value>, k: int, v: Value, h: nat)
    requires
        all_usable(imm, cs, h),
        0 <= k < cs.len(),
        usable(imm, v, h),
    ensures
        all_usable(imm, cs.update(k, v), h),
{
    let us = cs.update(k, v);
    assert forall|i: int| 0 <= i < us.len() implies node(#[trigger] us[i], h) && fits(
        imm,
        us[i],
    ) by {
        if i != k {
            assert(node(cs[i], h) && fits(imm, cs[i]));
        }
    }
}

/// Adding elements to the edge child adds them at that edge of the whole.
proof fn lemma_elems_edge(cs: Seq<Value>, edge: int, front: bool, sub: Value, more: Seq<Value>)
    requires
        cs.len() >= 1,
        edge == if front {
            0
        } else {
            cs.len() - 1
        },
        elems(sub) == joined_at(front, elems(cs[edge]), more),
    ensures
        elems_all(cs.update(edge, sub)) == joined_at(front, elems_all(cs), more),
{
    let us = cs.update(edge, sub);
    lemma_split_edge(cs, edge, front);
    lemma_split_edge(us, edge, front);
    if front {
        assert(us.skip(1) =~= cs.skip(1));
        assert(elems_all(us) =~= more + elems_all(cs));
    } else {
        assert(us.drop_last() =~= cs.drop_last());
        assert(elems_all(us) =~= elems_all(cs) + more);
    }
}

/// Push a leaf under an edge of `tree`, growing it when that edge is full.
pub(crate) fn tree_push_leaf<A: Arena>(
    a: &mut A,
    tree: &Value,
    shift: usize,
    leaf: &Value,
    front: bool,
    Ghost(h): Ghost<nat>,
) -> (r: (Value, usize))
    requires
        tree_ok(old(a).immortal(), *tree, shift, h),
        usable(old(a).immortal(), *leaf, 0),
        shift + 10 <= usize::MAX,
        elems(*tree).len() + elems(*leaf).len() <= usize::MAX,
    ensures
        final(a).immortal() == old(a).immortal(),
        r.1 % 5 == 0,
        r.1 <= shift + 5,
        usable(old(a).immortal(), r.0, (r.1 / 5) as nat),
        elems(r.0) == joined_at(front, elems(*tree), elems(*leaf)),
{
    if tree.is_nil() {
        proof {
            lemma_nil_is_no_object(*tree);
            assert(elems(*tree) =~= Seq::empty());
            assert(joined_at(front, elems(*tree), elems(*leaf)) =~= elems(*leaf));
        }
        return (leaf.clone(), 0);
    }
    if let Some(n) = try_push(a, tree, shift, leaf, front, Ghost(h)) {
        return (n, shift);
    }
    let s = make_spine(a, leaf.clone(), shift, Ghost(h));
    (grow(a, tree.clone(), s, shift, front, Ghost(h)), shift + BITS)
}

/// A tree of an array: nil, or a node.
pub open spec fn tree_ok(imm: bool, tree: Value, shift: usize, h: nat) -> bool {
    &&& tree.sound()
    &&& shift == 5 * h
    &&& if tree.bits == HDR_NIL {
        h == 0
    } else {
        usable(imm, tree, h)
    }
}

/// A branch over a tree and a spine as tall, the spine at an end.
fn grow<A: Arena>(
    a: &mut A,
    tree: Value,
    spine: Value,
    shift: usize,
    front: bool,
    Ghost(h): Ghost<nat>,
) -> (r: Value)
    requires
        usable(old(a).immortal(), tree, h),
        usable(old(a).immortal(), spine, h),
        shift == 5 * h,
        shift + 5 <= usize::MAX,
        elems(tree).len() + elems(spine).len() <= usize::MAX,
    ensures
        final(a).immortal() == old(a).immortal(),
        usable(old(a).immortal(), r, h + 1),
        elems(r) == joined_at(front, elems(tree), elems(spine)),
{
    let ghost t0 = tree;
    let ghost s0 = spine;
    let mut pair: Vec<Value> = Vec::new();
    if front {
        pair.push(spine);
        pair.push(tree);
    } else {
        pair.push(tree);
        pair.push(spine);
    }
    proof {
        let imm = a.immortal();
        lemma_usable_one(imm, t0, h);
        lemma_usable_one(imm, s0, h);
        lemma_usable_add(imm, seq![s0], seq![t0], h);
        lemma_usable_add(imm, seq![t0], seq![s0], h);
        lemma_elems_add(seq![s0], seq![t0]);
        lemma_elems_add(seq![t0], seq![s0]);
        lemma_elems_one(s0);
        lemma_elems_one(t0);
        if front {
            assert(pair@ =~= seq![s0] + seq![t0]);
        } else {
            assert(pair@ =~= seq![t0] + seq![s0]);
        }
    }
    branch_from(a, shift + BITS, pair, Ghost(h))
}

/// [`try_push`] for a node and a leaf that the caller owns. A node nothing else
/// refers to keeps its allocation; both come back when the edge is full.
pub(crate) fn try_push_owned<A: Arena>(
    a: &mut A,
    n: Value,
    shift: usize,
    leaf: Value,
    front: bool,
    Ghost(h): Ghost<nat>,
) -> (r: Result<Value, (Value, Value)>)
    requires
        usable(old(a).immortal(), n, h),
        usable(old(a).immortal(), leaf, 0),
        shift == 5 * h,
        shift + 5 <= usize::MAX,
        elems(n).len() + elems(leaf).len() <= usize::MAX,
    ensures
        final(a).immortal() == old(a).immortal(),
        match r {
            Ok(t) => usable(old(a).immortal(), t, h) && elems(t) == joined_at(
                front,
                elems(n),
                elems(leaf),
            ),
            Err(p) => usable(old(a).immortal(), p.0, h) && elems(p.0) == elems(n) && p.1 == leaf,
        },
    decreases h,
{
    if shift == 0 {
        return Err((n, leaf));
    }
    let ghost imm = a.immortal();
    let ghost n0 = n;
    proof {
        lemma_slots(imm, n, h);
        lemma_nil_is_no_object(n);
    }
    match take_apart(n) {
        Err(n) => match try_push(a, &n, shift, &leaf, front, Ghost(h)) {
            Some(t) => Ok(t),
            None => Err((n, leaf)),
        },
        Ok(p) => {
            let (shell, body) = p;
            match body {
                Body::SeqBranch(b) => {
                    let BranchBox { shift: own, sizes, children } = b;
                    let mut children = children;
                    let ghost cs = children@;
                    let ghost low = (h - 1) as nat;
                    let count: usize = children.len();
                    proof {
                        let edge = if front {
                            0
                        } else {
                            cs.len() - 1
                        };
                        lemma_split_edge(cs, edge, front);
                        assert(node(cs[edge], low) && fits(imm, cs[edge]));
                        lemma_unfrozen(imm, n0);
                    }
                    let child = if front {
                        children.remove(0)
                    } else {
                        children.remove(count - 1)
                    };
                    match try_push_owned(a, child, shift - BITS, leaf, front, Ghost(low)) {
                        Ok(sub) => {
                            let ghost s0 = sub;
                            if front {
                                children.insert(0, sub);
                                proof {
                                    assert(children@ =~= cs.update(0, s0));
                                    lemma_usable_update(imm, cs, 0, s0, low);
                                    lemma_elems_edge(cs, 0, true, s0, elems(leaf));
                                }
                            } else {
                                children.push(sub);
                                proof {
                                    assert(children@ =~= cs.update(cs.len() - 1, s0));
                                    lemma_usable_update(imm, cs, cs.len() - 1, s0, low);
                                    lemma_elems_edge(cs, cs.len() - 1, false, s0, elems(leaf));
                                }
                            }
                            Ok(rebranch(shell, own, children, Ghost(imm), Ghost(low)))
                        },
                        Err(back) => {
                            let (child, leaf) = back;
                            let ghost c0 = child;
                            if front {
                                children.insert(0, child);
                                proof {
                                    assert(children@ =~= cs.update(0, c0));
                                    lemma_usable_update(imm, cs, 0, c0, low);
                                    lemma_elems_edge_same(cs, 0, true, c0);
                                }
                            } else {
                                children.push(child);
                                proof {
                                    assert(children@ =~= cs.update(cs.len() - 1, c0));
                                    lemma_usable_update(imm, cs, cs.len() - 1, c0, low);
                                    lemma_elems_edge_same(cs, cs.len() - 1, false, c0);
                                }
                            }
                            if count < B {
                                let s = make_spine(a, leaf, shift - BITS, Ghost(low));
                                let ghost s0 = s;
                                let ghost ks = children@;
                                proof {
                                    lemma_usable_one(imm, s0, low);
                                    lemma_usable_add(imm, seq![s0], ks, low);
                                    lemma_usable_add(imm, ks, seq![s0], low);
                                    lemma_elems_add(seq![s0], ks);
                                    lemma_elems_add(ks, seq![s0]);
                                    lemma_elems_one(s0);
                                }
                                if front {
                                    children.insert(0, s);
                                    proof {
                                        assert(children@ =~= seq![s0] + ks);
                                    }
                                } else {
                                    children.push(s);
                                    proof {
                                        assert(children@ =~= ks + seq![s0]);
                                    }
                                }
                                Ok(rebranch(shell, own, children, Ghost(imm), Ghost(low)))
                            } else {
                                Err((rebranch(shell, own, children, Ghost(imm), Ghost(low)), leaf))
                            }
                        },
                    }
                },
                _ => vstd::pervasive::unreached(),
            }
        },
    }
}

/// A value taken apart was mortal, so its arena is no frozen one.
pub proof fn lemma_unfrozen(imm: bool, v: Value)
    requires
        fits(imm, v),
        v.sound(),
        word_kind(v.bits) is Object,
        !v.obj->Some_0.immortal,
    ensures
        !imm,
{
}

proof fn lemma_elems_edge_same(cs: Seq<Value>, edge: int, front: bool, sub: Value)
    requires
        cs.len() >= 1,
        edge == if front {
            0
        } else {
            cs.len() - 1
        },
        elems(sub) == elems(cs[edge]),
    ensures
        elems_all(cs.update(edge, sub)) == elems_all(cs),
{
    assert(elems(sub) =~= joined_at(front, elems(cs[edge]), Seq::empty()));
    lemma_elems_edge(cs, edge, front, sub, Seq::empty());
    assert(joined_at(front, elems_all(cs), Seq::empty()) =~= elems_all(cs));
}

/// A branch in a shell.
pub(crate) fn rebranch(
    shell: Shell,
    shift: usize,
    children: Vec<Value>,
    Ghost(imm): Ghost<bool>,
    Ghost(h): Ghost<nat>,
) -> (r: Value)
    requires
        shell.ok(),
        word_kind(shell.bits) is Object,
        !imm,
        shift == 5 * (h + 1),
        1 <= children@.len() <= 32,
        nodes(children@, h),
        elems_all(children@).len() <= usize::MAX,
    ensures
        usable(imm, r, h + 1),
        elems(r) == elems_all(children@),
{
    let sizes = sizes_of(&children, Ghost(h));
    refill(shell, Body::SeqBranch(BranchBox { shift, sizes, children }))
}

/// [`tree_push_leaf`] for a tree and a leaf that the caller owns.
pub(crate) fn tree_push_leaf_owned<A: Arena>(
    a: &mut A,
    tree: Value,
    shift: usize,
    leaf: Value,
    front: bool,
    Ghost(h): Ghost<nat>,
) -> (r: (Value, usize))
    requires
        tree_ok(old(a).immortal(), tree, shift, h),
        usable(old(a).immortal(), leaf, 0),
        shift + 10 <= usize::MAX,
        elems(tree).len() + elems(leaf).len() <= usize::MAX,
    ensures
        final(a).immortal() == old(a).immortal(),
        r.1 % 5 == 0,
        r.1 <= shift + 5,
        usable(old(a).immortal(), r.0, (r.1 / 5) as nat),
        elems(r.0) == joined_at(front, elems(tree), elems(leaf)),
{
    if tree.is_nil() {
        proof {
            lemma_nil_is_no_object(tree);
            assert(elems(tree) =~= Seq::empty());
            assert(joined_at(front, elems(tree), elems(leaf)) =~= elems(leaf));
        }
        return (leaf, 0);
    }
    match try_push_owned(a, tree, shift, leaf, front, Ghost(h)) {
        Ok(n) => (n, shift),
        Err(p) => {
            let (tree, leaf) = p;
            let s = make_spine(a, leaf, shift, Ghost(h));
            (grow(a, tree, s, shift, front, Ghost(h)), shift + BITS)
        },
    }
}

/// Drop redundant single-child levels off the top of a tree.
pub(crate) fn collapse(n: Value, shift: usize, Ghost(imm): Ghost<bool>, Ghost(h): Ghost<nat>) -> (r: (
    Value,
    usize,
))
    requires
        usable(imm, n, h),
        shift == 5 * h,
    ensures
        r.1 % 5 == 0,
        r.1 <= shift,
        usable(imm, r.0, (r.1 / 5) as nat),
        elems(r.0) == elems(n),
{
    let mut cur = n;
    let mut s: usize = shift;
    let ghost mut at: nat = h;
    while s > 0
        invariant_except_break
            s == 5 * at,
            s <= shift,
            usable(imm, cur, at),
            elems(cur) == elems(n),
        ensures
            s == 5 * at,
            s <= shift,
            usable(imm, cur, at),
            elems(cur) == elems(n),
        decreases s,
    {
        proof {
            lemma_slots(imm, cur, at);
        }
        let next = {
            let b = branch_parts(&cur, Ghost(at));
            if b.children.len() != 1 {
                None
            } else {
                proof {
                    assert(node(b.children@[0], (at - 1) as nat) && fits(imm, b.children@[0]));
                    assert(b.children@ =~= seq![b.children@[0]]);
                    lemma_elems_one(b.children@[0]);
                }
                Some(b.children[0].clone())
            }
        };
        match next {
            Some(v) => {
                cur = v;
                s = s - BITS;
                proof {
                    at = (at - 1) as nat;
                }
            },
            None => {
                break ;
            },
        }
    }
    (cur, s)
}

/// Keep the first `m` elements of a tree node, `m` from 1 to its length.
pub(crate) fn tree_take<A: Arena>(a: &mut A, n: &Value, m: usize, Ghost(h): Ghost<nat>) -> (r:
    Value)
    requires
        usable(old(a).immortal(), *n, h),
        1 <= m <= elems(*n).len(),
        elems(*n).len() <= usize::MAX,
    ensures
        final(a).immortal() == old(a).immortal(),
        usable(old(a).immortal(), r, h),
        elems(r) == elems(*n).take(m as int),
    decreases h,
{
    let ghost imm = a.immortal();
    proof {
        lemma_slots(imm, *n, h);
    }
    if m >= node_len(n, Ghost(h)) {
        proof {
            assert(elems(*n).take(m as int) =~= elems(*n));
        }
        return n.clone();
    }
    match &n.obj {
        Some(o) => match &o.body {
            Body::SeqLeaf(vs) => {
                proof {
                    lemma_all_fit_sub(imm, vs@, 0, m as int);
                    assert(vs@.subrange(0, m as int) =~= vs@.take(m as int));
                }
                let kept = copy(vs, 0, m);
                leaf_from(a, kept)
            },
            Body::SeqBranch(b) => {
                let ghost cs = b.children@;
                let ghost low = (h - 1) as nat;
                let slot = size_slot(b, m - 1);
                let k: usize = slot.child;
                proof {
                    assert(node(cs[k as int], low) && fits(imm, cs[k as int]));
                    lemma_elems_prefix(cs, k + 1);
                    assert(cs.take(k + 1).drop_last() =~= cs.take(k as int));
                    assert(cs.take(k + 1).last() == cs[k as int]);
                    lemma_all_fit_sub(imm, cs, 0, k as int);
                    lemma_nodes_sub(cs, low, 0, k as int);
                    assert(cs.subrange(0, k as int) =~= cs.take(k as int));
                }
                let cut = tree_take(a, &b.children[k], m - slot.before, Ghost(low));
                let mut kept = copy(&b.children, 0, k);
                proof {
                    lemma_usable_one(imm, cut, low);
                    lemma_usable_add(imm, kept@, seq![cut], low);
                    lemma_elems_add(kept@, seq![cut]);
                    lemma_elems_one(cut);
                    assert(kept@.push(cut) =~= kept@ + seq![cut]);
                    assert(elems_all(kept@) + elems(cut) =~= elems(*n).take(m as int));
                }
                kept.push(cut);
                branch_from(a, b.shift, kept, Ghost(low))
            },
            _ => vstd::pervasive::unreached(),
        },
        None => vstd::pervasive::unreached(),
    }
}

/// Drop the first `m` elements of a tree node, `m` below its length.
pub(crate) fn tree_drop<A: Arena>(a: &mut A, n: &Value, m: usize, Ghost(h): Ghost<nat>) -> (r:
    Value)
    requires
        usable(old(a).immortal(), *n, h),
        m < elems(*n).len(),
        elems(*n).len() <= usize::MAX,
    ensures
        final(a).immortal() == old(a).immortal(),
        usable(old(a).immortal(), r, h),
        elems(r) == elems(*n).skip(m as int),
    decreases h,
{
    let ghost imm = a.immortal();
    proof {
        lemma_slots(imm, *n, h);
    }
    if m == 0 {
        proof {
            assert(elems(*n).skip(0) =~= elems(*n));
        }
        return n.clone();
    }
    match &n.obj {
        Some(o) => match &o.body {
            Body::SeqLeaf(vs) => {
                let len: usize = vs.len();
                proof {
                    lemma_all_fit_sub(imm, vs@, m as int, len as int);
                    assert(vs@.subrange(m as int, len as int) =~= vs@.skip(m as int));
                }
                let kept = copy(vs, m, len);
                leaf_from(a, kept)
            },
            Body::SeqBranch(b) => {
                let ghost cs = b.children@;
                let ghost low = (h - 1) as nat;
                let count: usize = b.children.len();
                let slot = size_slot(b, m);
                let k: usize = slot.child;
                proof {
                    assert(node(cs[k as int], low) && fits(imm, cs[k as int]));
                    lemma_elems_prefix(cs, k + 1);
                    assert(cs.take(k + 1).drop_last() =~= cs.take(k as int));
                    assert(cs.take(k + 1).last() == cs[k as int]);
                    lemma_all_fit_sub(imm, cs, k + 1, count as int);
                    lemma_nodes_sub(cs, low, k + 1, count as int);
                    assert(cs.subrange(k + 1, count as int) =~= cs.skip(k + 1));
                }
                let cut = tree_drop(a, &b.children[k], m - slot.before, Ghost(low));
                let mut rest = copy(&b.children, k + 1, count);
                let mut kept: Vec<Value> = Vec::new();
                let ghost c0 = cut;
                let ghost rs = rest@;
                kept.push(cut);
                kept.append(&mut rest);
                proof {
                    assert(kept@ =~= seq![c0] + rs);
                    lemma_usable_one(imm, c0, low);
                    lemma_usable_add(imm, seq![c0], rs, low);
                    lemma_elems_add(seq![c0], rs);
                    lemma_elems_one(c0);
                    assert(elems(c0) + elems_all(rs) =~= elems(*n).skip(m as int));
                }
                branch_from(a, b.shift, kept, Ghost(low))
            },
            _ => vstd::pervasive::unreached(),
        },
        None => vstd::pervasive::unreached(),
    }
}

} // verus!
