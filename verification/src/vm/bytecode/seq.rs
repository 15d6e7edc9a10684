//! The persistent vector behind `Array` values: a relaxed radix-balanced tree
//! of 32-way nodes between two buffer leaves. Pushes land in a buffer, which
//! spills into the tree as a full leaf. A value that nothing else refers to is
//! edited in place; of any other the nodes on the way are copied and the rest
//! is shared, so the earlier version stays as it was.

use crate::vm::bytecode::merge::concat_sub;
use crate::vm::bytecode::norm::{norm, Norm, norms};
use crate::vm::bytecode::object::{all_fit, alloc_obj, Arena, Body, fits, Object, SeqBox, Value};
use crate::vm::bytecode::sound::{
    elems, elems_all, lemma_elems_add, lemma_elems_one, lemma_held, lemma_nil_is_no_object,
    lemma_node, lemma_norms_add, lemma_users_add, MAX_SHIFT, node, root_elems, root_ok, Scene, user,
    users,
};
use crate::vm::bytecode::tree::{
    all_usable, branch_from, branch_parts, collapse, copy, leaf_elems, leaf_from, lemma_all_fit_sub,
    lemma_elems_prefix, lemma_nodes_sub, lemma_slots, lemma_unfrozen, node_len, rebranch, refill,
    Shell, size_slot, slots, take_apart, tree_drop, tree_ok, tree_push_leaf, tree_push_leaf_owned,
    tree_take, usable,
};
use crate::vm::bytecode::word::{HDR_NIL, int_of, SMALL_INT_MAX, SMALL_INT_MIN, word_kind};
use crate::vm::rrb::{B, BITS};
use vstd::arithmetic::power2::{lemma2_to64, lemma_pow2_unfold, pow2};
use vstd::prelude::*;

verus! {

/// An array value.
pub open spec fn array(v: Value) -> bool {
    &&& v.sound()
    &&& v.obj matches Some(o) && {
        &&& o.immortal ==> all_fit(true, o.body.kids())
        &&& o.body matches Body::SeqRoot(s) && root_ok(s)
    }
}

/// Its elements.
pub open spec fn array_elems(v: Value) -> Seq<Value> {
    match v.body() {
        Some(Body::SeqRoot(s)) => root_elems(s),
        _ => Seq::empty(),
    }
}

/// An array that an arena's objects may hold.
pub open spec fn usable_array(imm: bool, v: Value) -> bool {
    array(v) && fits(imm, v)
}

/// An array that programs can hold is one of values that programs can hold.
pub proof fn lemma_array_user(v: Value, sc: Scene)
    requires
        array(v),
    ensures
        user(v, sc) <==> users(array_elems(v), sc),
        norm(v, sc.env) == Norm::Items(norms(array_elems(v), sc.env)),
{
    lemma_nil_is_no_object(v);
    let s = v.body()->Some_0->SeqRoot_0;
    lemma_held(s.head, sc);
    lemma_held(s.tree, sc);
    lemma_held(s.tail, sc);
    lemma_users_add(elems(s.head), elems(s.tree), sc);
    lemma_users_add(elems(s.head) + elems(s.tree), elems(s.tail), sc);
    lemma_norms_add(elems(s.head), elems(s.tree), sc.env);
    lemma_norms_add(elems(s.head) + elems(s.tree), elems(s.tail), sc.env);
}

/// A buffer: nil, or a leaf.
pub open spec fn buffer(imm: bool, v: Value) -> bool {
    v.sound() && (v.bits == HDR_NIL || usable(imm, v, 0))
}

proof fn lemma_parts(imm: bool, v: Value)
    requires
        usable_array(imm, v),
    ensures
        ({
            let s = v.body()->Some_0->SeqRoot_0;
            &&& buffer(imm, s.head)
            &&& buffer(imm, s.tail)
            &&& tree_ok(imm, s.tree, s.shift, (s.shift / 5) as nat)
            &&& s.len == elems(s.head).len() + elems(s.tree).len() + elems(s.tail).len()
        }),
{
    let kids = v.body()->Some_0.kids();
    assert(fits(imm, kids[0]) && fits(imm, kids[1]) && fits(imm, kids[2])) by {
        if imm {
            assert(all_fit(true, kids));
        }
    }
}

proof fn lemma_no_elems(v: Value)
    requires
        v.sound(),
        v.bits == HDR_NIL,
    ensures
        elems(v) == Seq::<Value>::empty(),
{
    lemma_nil_is_no_object(v);
}

/// Parts that make a root of `len` elements.
spec fn parts_ok(imm: bool, s: SeqBox) -> bool {
    &&& buffer(imm, s.head)
    &&& buffer(imm, s.tail)
    &&& s.shift % 5 == 0
    &&& tree_ok(imm, s.tree, s.shift, (s.shift / 5) as nat)
    &&& s.len == root_elems(s).len()
}

/// A root over its parts.
fn root_of<A: Arena>(a: &mut A, s: SeqBox) -> (r: Value)
    requires
        parts_ok(old(a).immortal(), s),
        s.shift <= MAX_SHIFT,
    ensures
        final(a).immortal() == old(a).immortal(),
        usable_array(old(a).immortal(), r),
        r.obj->Some_0.immortal == old(a).immortal(),
        array_elems(r) == root_elems(s),
{
    proof {
        assert(Body::SeqRoot(s).kids() =~= seq![s.head, s.tree, s.tail]);
        crate::vm::bytecode::word::lemma_nil_kind();
    }
    alloc_obj(a, Body::SeqRoot(s), 6)
}

/// A root over its parts, packed anew if its tree is too tall to keep.
fn root_in<A: Arena>(a: &mut A, s: SeqBox) -> (r: Value)
    requires
        parts_ok(old(a).immortal(), s),
    ensures
        final(a).immortal() == old(a).immortal(),
        usable_array(old(a).immortal(), r),
        r.obj->Some_0.immortal == old(a).immortal(),
        array_elems(r) == root_elems(s),
{
    if s.shift > MAX_SHIFT {
        return packed_anew(a, &s);
    }
    root_of(a, s)
}

/// The same elements in a packed tree.
fn packed_anew<A: Arena>(a: &mut A, s: &SeqBox) -> (r: Value)
    requires
        parts_ok(old(a).immortal(), *s),
    ensures
        final(a).immortal() == old(a).immortal(),
        usable_array(old(a).immortal(), r),
        r.obj->Some_0.immortal == old(a).immortal(),
        array_elems(r) == root_elems(*s),
{
    let ghost imm = a.immortal();
    let mut all: Vec<Value> = Vec::new();
    proof {
        lemma_nil_is_no_object(s.head);
        lemma_nil_is_no_object(s.tree);
        lemma_nil_is_no_object(s.tail);
    }
    if !s.head.is_nil() {
        gather(&s.head, &mut all, Ghost(imm), Ghost(0));
    }
    if !s.tree.is_nil() {
        gather(&s.tree, &mut all, Ghost(imm), Ghost((s.shift / 5) as nat));
    }
    if !s.tail.is_nil() {
        gather(&s.tail, &mut all, Ghost(imm), Ghost(0));
    }
    proof {
        assert(all@ =~= root_elems(*s));
    }
    from_slice(a, all.as_slice())
}

/// The elements under a node, onto the end of a list.
fn gather(n: &Value, out: &mut Vec<Value>, Ghost(imm): Ghost<bool>, Ghost(h): Ghost<nat>)
    requires
        usable(imm, *n, h),
        all_fit(imm, old(out)@),
    ensures
        final(out)@ == old(out)@ + elems(*n),
        all_fit(imm, final(out)@),
    decreases h,
{
    proof {
        lemma_slots(imm, *n, h);
    }
    let ghost before = out@;
    match &n.obj {
        Some(o) => match &o.body {
            Body::SeqLeaf(vs) => {
                let mut more = copy(vs, 0, vs.len());
                out.append(&mut more);
                proof {
                    assert(out@ =~= before + elems(*n));
                    assert forall|i: int| 0 <= i < out@.len() implies fits(imm, #[trigger] out@[i]) by {
                        if i < before.len() {
                            assert(fits(imm, before[i]));
                        } else {
                            assert(fits(imm, vs@[i - before.len()]));
                        }
                    }
                }
            },
            Body::SeqBranch(b) => {
                let mut i: usize = 0;
                proof {
                    assert(b.children@.take(0) =~= Seq::empty());
                    assert(elems_all(b.children@.take(0)) =~= Seq::empty());
                }
                while i < b.children.len()
                    invariant
                        i <= b.children@.len(),
                        all_usable(imm, b.children@, (h - 1) as nat),
                        h > 0,
                        out@ == before + elems_all(b.children@.take(i as int)),
                        all_fit(imm, out@),
                    decreases b.children@.len() - i,
                {
                    proof {
                        assert(node(b.children@[i as int], (h - 1) as nat) && fits(
                            imm,
                            b.children@[i as int],
                        ));
                        assert(b.children@.take(i + 1).drop_last() =~= b.children@.take(i as int));
                        assert(b.children@.take(i + 1).last() == b.children@[i as int]);
                    }
                    gather(&b.children[i], out, Ghost(imm), Ghost((h - 1) as nat));
                    proof {
                        assert(out@ =~= before + elems_all(b.children@.take(i + 1)));
                    }
                    i += 1;
                }
                proof {
                    assert(b.children@.take(i as int) =~= b.children@);
                }
            },
            _ => vstd::pervasive::unreached(),
        },
        None => vstd::pervasive::unreached(),
    }
}

/// Copies of a run of a slice.
fn copy_slice(vs: &[Value], from: usize, to: usize) -> (r: Vec<Value>)
    requires
        from <= to <= vs@.len(),
    ensures
        r@ == vs@.subrange(from as int, to as int),
{
    let mut out: Vec<Value> = Vec::new();
    let mut i: usize = from;
    while i < to
        invariant
            from <= i <= to <= vs@.len(),
            out@ == vs@.subrange(from as int, i as int),
        decreases to - i,
    {
        let v = vs[i].clone();
        out.push(v);
        proof {
            assert(vs@.subrange(from as int, i + 1) =~= vs@.subrange(from as int, i as int).push(
                vs@[i as int],
            ));
        }
        i += 1;
    }
    out
}

/// How many trailing elements the bulk builders keep as the tail buffer, so
/// that whole leaves are left for the tree.
fn bulk_tail_len(n: usize) -> (r: usize)
    requires
        n > 32,
    ensures
        1 <= r <= 32,
        (n - r) % 32 == 0,
        n - r >= 32,
{
    if n % B == 0 {
        B
    } else {
        n % B
    }
}

/// Pack nodes of one height into a packed tree, a level at a time.
fn pack_tree<A: Arena>(a: &mut A, leaves: Vec<Value>) -> (r: (Value, usize))
    requires
        all_usable(old(a).immortal(), leaves@, 0),
        leaves@.len() >= 1,
        elems_all(leaves@).len() <= usize::MAX,
    ensures
        final(a).immortal() == old(a).immortal(),
        r.1 % 5 == 0,
        r.1 <= MAX_SHIFT,
        usable(old(a).immortal(), r.0, (r.1 / 5) as nat),
        elems(r.0) == elems_all(leaves@),
{
    let ghost imm = a.immortal();
    let ghost target = elems_all(leaves@);
    let mut level = leaves;
    let mut shift: usize = 0;
    let ghost mut h: nat = 0;
    let ghost mut room: nat = 64;
    proof {
        lemma2_to64();
        assert(level@.len() == level.len());
    }
    while level.len() > 1
        invariant
            a.immortal() == imm,
            shift == 5 * h,
            h + room == 64,
            1 <= level@.len() <= pow2(room),
            all_usable(imm, level@, h),
            elems_all(level@) == target,
            target.len() <= usize::MAX,
        decreases level@.len(),
    {
        proof {
            lemma2_to64();
            assert(room >= 1);
            lemma_pow2_unfold(room);
        }
        shift = shift + BITS;
        level = pack_level(a, &level, shift, Ghost(h));
        proof {
            h = h + 1;
            room = (room - 1) as nat;
        }
    }
    let ghost l0 = level@;
    proof {
        assert(node(l0[0], h) && fits(imm, l0[0]));
        assert(l0 =~= seq![l0[0]]);
        lemma_elems_one(l0[0]);
    }
    (level[0].clone(), shift)
}

/// One level up: a branch over each 32 nodes.
fn pack_level<A: Arena>(a: &mut A, level: &Vec<Value>, shift: usize, Ghost(h): Ghost<nat>) -> (r:
    Vec<Value>)
    requires
        all_usable(old(a).immortal(), level@, h),
        level@.len() >= 2,
        shift == 5 * (h + 1),
        elems_all(level@).len() <= usize::MAX,
    ensures
        final(a).immortal() == old(a).immortal(),
        all_usable(old(a).immortal(), r@, h + 1),
        elems_all(r@) == elems_all(level@),
        1 <= r@.len(),
        2 * r@.len() <= level@.len() + 1,
        r@.len() < level@.len(),
{
    let ghost imm = a.immortal();
    let ghost ls = level@;
    let n: usize = level.len();
    let mut out: Vec<Value> = Vec::new();
    let mut i: usize = 0;
    proof {
        assert(ls.take(0) =~= Seq::empty());
        assert(elems_all(ls.take(0)) =~= Seq::empty());
        assert(elems_all(out@) =~= Seq::empty());
    }
    while i < n
        invariant
            i <= n,
            n == ls.len(),
            ls == level@,
            a.immortal() == imm,
            all_usable(imm, ls, h),
            all_usable(imm, out@, h + 1),
            shift == 5 * (h + 1),
            elems_all(ls).len() <= usize::MAX,
            elems_all(out@) == elems_all(ls.take(i as int)),
            i < n ==> i == 32 * out@.len(),
            i == n ==> 32 * out@.len() < n + 32,
            i > 0 ==> out@.len() >= 1,
            n >= 2,
        decreases n - i,
    {
        let end: usize = if n - i > B {
            i + B
        } else {
            n
        };
        let part = copy(level, i, end);
        let ghost out0 = out@;
        proof {
            lemma_all_fit_sub(imm, ls, i as int, end as int);
            lemma_nodes_sub(ls, h, i as int, end as int);
            lemma_elems_prefix(ls, i as int);
            lemma_elems_prefix(ls, end as int);
            assert(ls.take(end as int) =~= ls.take(i as int) + part@);
            lemma_elems_add(ls.take(i as int), part@);
        }
        let one = branch_from(a, shift, part, Ghost(h));
        let ghost o0 = one;
        out.push(one);
        proof {
            assert(out@ =~= out0 + seq![o0]);
            lemma_elems_add(out0, seq![o0]);
            lemma_elems_one(o0);
            assert forall|k: int| 0 <= k < out@.len() implies node(#[trigger] out@[k], h + 1)
                && fits(imm, out@[k]) by {
                if k < out0.len() {
                    assert(node(out0[k], h + 1) && fits(imm, out0[k]));
                }
            }
        }
        i = end;
    }
    proof {
        assert(ls.take(i as int) =~= ls);
    }
    out
}

/// The empty array.
pub fn empty_in<A: Arena>(a: &mut A) -> (r: Value)
    ensures
        final(a).immortal() == old(a).immortal(),
        usable_array(old(a).immortal(), r),
        r.obj->Some_0.immortal == old(a).immortal(),
        array_elems(r) == Seq::<Value>::empty(),
{
    let s = SeqBox { len: 0, shift: 0, head: Value::nil(), tree: Value::nil(), tail: Value::nil() };
    proof {
        lemma_no_elems(s.head);
        lemma_no_elems(s.tree);
        lemma_no_elems(s.tail);
        assert(root_elems(s) =~= Seq::empty());
    }
    root_of(a, s)
}

/// Bulk build: a packed tree and a tail.
pub fn from_slice<A: Arena>(a: &mut A, items: &[Value]) -> (r: Value)
    requires
        all_fit(old(a).immortal(), items@),
    ensures
        final(a).immortal() == old(a).immortal(),
        usable_array(old(a).immortal(), r),
        r.obj->Some_0.immortal == old(a).immortal(),
        array_elems(r) == items@,
{
    let ghost imm = a.immortal();
    let n: usize = items.len();
    if n == 0 {
        proof {
            assert(items@ =~= Seq::empty());
        }
        return empty_in(a);
    }
    if n <= B {
        let all = copy_slice(items, 0, n);
        proof {
            assert(items@.subrange(0, n as int) =~= items@);
        }
        let tail = leaf_from(a, all);
        return one_leaf(a, n, tail);
    }
    let tail_len = bulk_tail_len(n);
    let body: usize = n - tail_len;
    let mut leaves: Vec<Value> = Vec::new();
    let mut i: usize = 0;
    proof {
        assert(items@.take(0) =~= Seq::empty());
        assert(elems_all(leaves@) =~= Seq::empty());
    }
    while i < body
        invariant
            i <= body < n,
            n == items@.len(),
            body >= 32,
            i % 32 == 0,
            body % 32 == 0,
            a.immortal() == imm,
            all_fit(imm, items@),
            all_usable(imm, leaves@, 0),
            elems_all(leaves@) == items@.take(i as int),
            i > 0 ==> leaves@.len() >= 1,
        decreases body - i,
    {
        let part = copy_slice(items, i, i + B);
        let ghost l0 = leaves@;
        proof {
            lemma_all_fit_sub(imm, items@, i as int, i + 32);
            assert(items@.take(i + 32) =~= items@.take(i as int) + part@);
        }
        let one = leaf_from(a, part);
        let ghost o0 = one;
        leaves.push(one);
        proof {
            lemma_pushed(imm, l0, o0, 0);
            assert(leaves@ =~= l0 + seq![o0]);
        }
        i = i + B;
    }
    let (tree, shift) = pack_tree(a, leaves);
    let rest = copy_slice(items, body, n);
    proof {
        lemma_all_fit_sub(imm, items@, body as int, n as int);
    }
    let tail = leaf_from(a, rest);
    let s = SeqBox { len: n, shift, head: Value::nil(), tree, tail };
    proof {
        lemma_no_elems(s.head);
        lemma_node(tree, (shift / 5) as nat);
        assert(root_elems(s) =~= items@);
    }
    root_of(a, s)
}

/// A list of nodes with one more.
proof fn lemma_pushed(imm: bool, vs: Seq<Value>, v: Value, h: nat)
    requires
        all_usable(imm, vs, h),
        usable(imm, v, h),
    ensures
        all_usable(imm, vs + seq![v], h),
        elems_all(vs + seq![v]) == elems_all(vs) + elems(v),
{
    let all = vs + seq![v];
    assert forall|k: int| 0 <= k < all.len() implies node(#[trigger] all[k], h) && fits(
        imm,
        all[k],
    ) by {
        if k < vs.len() {
            assert(node(vs[k], h) && fits(imm, vs[k]));
        }
    }
    lemma_elems_add(vs, seq![v]);
    lemma_elems_one(v);
}

/// An array of up to 32 elements, all in its tail.
fn one_leaf<A: Arena>(a: &mut A, n: usize, tail: Value) -> (r: Value)
    requires
        usable(old(a).immortal(), tail, 0),
        n == elems(tail).len(),
    ensures
        final(a).immortal() == old(a).immortal(),
        usable_array(old(a).immortal(), r),
        r.obj->Some_0.immortal == old(a).immortal(),
        array_elems(r) == elems(tail),
{
    let s = SeqBox { len: n, shift: 0, head: Value::nil(), tree: Value::nil(), tail };
    proof {
        lemma_no_elems(s.head);
        lemma_no_elems(s.tree);
        lemma_node(tail, 0);
        assert(root_elems(s) =~= elems(tail));
    }
    root_of(a, s)
}

/// The parts of an array.
pub(crate) fn root_parts(v: &Value) -> (r: &SeqBox)
    requires
        array(*v),
    ensures
        v.body() == Some(Body::SeqRoot(*r)),
        root_ok(*r),
        root_elems(*r) == array_elems(*v),
{
    match &v.obj {
        Some(o) => match &o.body {
            Body::SeqRoot(s) => s,
            _ => vstd::pervasive::unreached(),
        },
        None => vstd::pervasive::unreached(),
    }
}

/// How many elements an array has.
pub fn len(root: &Value) -> (r: usize)
    requires
        array(*root),
    ensures
        r == array_elems(*root).len(),
{
    root_parts(root).len
}

/// The element at a position.
pub fn get(root: &Value, i: usize) -> (r: Option<Value>)
    requires
        array(*root),
    ensures
        r == if i < array_elems(*root).len() {
            Some(array_elems(*root)[i as int])
        } else {
            None
        },
{
    let s = root_parts(root);
    if i >= s.len {
        return None;
    }
    proof {
        lemma_nil_is_no_object(s.head);
        lemma_nil_is_no_object(s.tree);
        lemma_nil_is_no_object(s.tail);
    }
    let hl = node_len(&s.head, Ghost(0));
    if i < hl {
        return Some(leaf_elems(&s.head)[i].clone());
    }
    let mut idx: usize = i - hl;
    let tree_len = node_len(&s.tree, Ghost((s.shift / 5) as nat));
    if idx >= tree_len {
        return Some(leaf_elems(&s.tail)[idx - tree_len].clone());
    }
    let mut cur = s.tree.clone();
    let mut shift: usize = s.shift;
    let ghost mut h: nat = (s.shift / 5) as nat;
    let ghost target = array_elems(*root)[i as int];
    while shift > 0
        invariant
            shift == 5 * h,
            node(cur, h),
            idx < elems(cur).len(),
            elems(cur)[idx as int] == target,
        decreases shift,
    {
        let next = {
            let b = branch_parts(&cur, Ghost(h));
            let ghost cs = b.children@;
            let slot = size_slot(b, idx);
            let k: usize = slot.child;
            proof {
                assert(node(cs[k as int], (h - 1) as nat));
                lemma_elems_prefix(cs, k as int);
                assert(cs.take(k + 1).drop_last() =~= cs.take(k as int));
                assert(cs.take(k + 1).last() == cs[k as int]);
                lemma_elems_prefix(cs, k + 1);
            }
            idx = idx - slot.before;
            b.children[k].clone()
        };
        cur = next;
        shift = shift - BITS;
        proof {
            h = (h - 1) as nat;
        }
    }
    Some(leaf_elems(&cur)[idx].clone())
}

/// An array with one more element at an end.
pub open spec fn pushed(front: bool, all: Seq<Value>, x: Value) -> Seq<Value> {
    if front {
        seq![x] + all
    } else {
        all.push(x)
    }
}

/// Append one element. An array that nothing else refers to is edited in
/// place; any other is left as it was.
pub fn push_back<A: Arena>(a: &mut A, root: Value, x: Value) -> (r: Value)
    requires
        usable_array(old(a).immortal(), root),
        fits(old(a).immortal(), x),
        array_elems(root).len() < usize::MAX,
    ensures
        final(a).immortal() == old(a).immortal(),
        usable_array(old(a).immortal(), r),
        array_elems(r) == array_elems(root).push(x),
{
    push(a, root, x, false)
}

/// Prepend one element, the mirror of [`push_back`].
pub fn push_front<A: Arena>(a: &mut A, root: Value, x: Value) -> (r: Value)
    requires
        usable_array(old(a).immortal(), root),
        fits(old(a).immortal(), x),
        array_elems(root).len() < usize::MAX,
    ensures
        final(a).immortal() == old(a).immortal(),
        usable_array(old(a).immortal(), r),
        array_elems(r) == seq![x] + array_elems(root),
{
    push(a, root, x, true)
}

fn push<A: Arena>(a: &mut A, root: Value, x: Value, front: bool) -> (r: Value)
    requires
        usable_array(old(a).immortal(), root),
        fits(old(a).immortal(), x),
        array_elems(root).len() < usize::MAX,
    ensures
        final(a).immortal() == old(a).immortal(),
        usable_array(old(a).immortal(), r),
        array_elems(r) == pushed(front, array_elems(root), x),
{
    let ghost imm = a.immortal();
    proof {
        lemma_parts(imm, root);
    }
    match take_apart(root) {
        Ok(p) => {
            let (shell, body) = p;
            match body {
                Body::SeqRoot(s) => {
                    proof {
                        lemma_unfrozen(imm, root);
                    }
                    push_end_unique(a, shell, s, x, front)
                },
                _ => vstd::pervasive::unreached(),
            }
        },
        Err(root) => push_end(a, &root, x, front),
    }
}

/// A buffer with one more element at an end.
fn longer_leaf<A: Arena>(a: &mut A, elems_now: &Vec<Value>, x: Value, front: bool) -> (r: Value)
    requires
        elems_now@.len() < 32,
        all_fit(old(a).immortal(), elems_now@),
        fits(old(a).immortal(), x),
    ensures
        final(a).immortal() == old(a).immortal(),
        usable(old(a).immortal(), r, 0),
        elems(r) == pushed(front, elems_now@, x),
{
    let ghost imm = a.immortal();
    let mut same = copy(elems_now, 0, elems_now.len());
    let mut buf: Vec<Value> = Vec::new();
    let ghost x0 = x;
    proof {
        assert(elems_now@.subrange(0, elems_now@.len() as int) =~= elems_now@);
    }
    if front {
        buf.push(x);
        buf.append(&mut same);
    } else {
        buf.append(&mut same);
        buf.push(x);
    }
    proof {
        assert(buf@ =~= pushed(front, elems_now@, x0));
        assert forall|i: int| 0 <= i < buf@.len() implies fits(imm, #[trigger] buf@[i]) by {
            if front {
                if i > 0 {
                    assert(fits(imm, elems_now@[i - 1]));
                }
            } else if i < elems_now@.len() {
                assert(fits(imm, elems_now@[i]));
            }
        }
    }
    leaf_from(a, buf)
}

/// A leaf of one element.
fn single<A: Arena>(a: &mut A, x: Value) -> (r: Value)
    requires
        fits(old(a).immortal(), x),
    ensures
        final(a).immortal() == old(a).immortal(),
        usable(old(a).immortal(), r, 0),
        elems(r) == seq![x],
{
    let mut one: Vec<Value> = Vec::new();
    let ghost x0 = x;
    one.push(x);
    proof {
        assert(one@ =~= seq![x0]);
    }
    leaf_from(a, one)
}

/// A push that replaces the root.
fn push_end<A: Arena>(a: &mut A, root: &Value, x: Value, front: bool) -> (r: Value)
    requires
        usable_array(old(a).immortal(), *root),
        fits(old(a).immortal(), x),
        array_elems(*root).len() < usize::MAX,
    ensures
        final(a).immortal() == old(a).immortal(),
        usable_array(old(a).immortal(), r),
        array_elems(r) == pushed(front, array_elems(*root), x),
{
    let ghost imm = a.immortal();
    proof {
        lemma_parts(imm, *root);
    }
    let s = root_parts(root);
    let ghost h = (s.shift / 5) as nat;
    let this = if front {
        &s.head
    } else {
        &s.tail
    };
    let mut tree = s.tree.clone();
    let mut shift: usize = s.shift;
    proof {
        lemma_nil_is_no_object(*this);
        lemma_nil_is_no_object(s.tree);
    }
    let new = if this.is_nil() {
        single(a, x)
    } else {
        proof {
            lemma_slots(imm, *this, 0);
            lemma_node(*this, 0);
        }
        let now = leaf_elems(this);
        if now.len() < B {
            longer_leaf(a, now, x, front)
        } else {
            let p = tree_push_leaf(a, &tree, shift, this, front, Ghost(h));
            tree = p.0;
            shift = p.1;
            single(a, x)
        }
    };
    proof {
        lemma_node(new, 0);
        if tree.bits != HDR_NIL {
            lemma_node(tree, (shift / 5) as nat);
        } else {
            lemma_no_elems(tree);
        }
    }
    let full = if front {
        SeqBox { len: s.len + 1, shift, head: new, tree, tail: s.tail.clone() }
    } else {
        SeqBox { len: s.len + 1, shift, head: s.head.clone(), tree, tail: new }
    };
    proof {
        assert(root_elems(full) =~= pushed(front, array_elems(*root), x));
        if full.tree.bits == HDR_NIL {
            crate::vm::bytecode::word::lemma_nil_kind();
        }
    }
    root_in(a, full)
}

/// A push into a root that nothing else refers to: the root keeps its place, a
/// buffer that is its alone grows in place, and a full buffer is handed to the
/// tree.
fn push_end_unique<A: Arena>(a: &mut A, shell: Shell, s: SeqBox, x: Value, front: bool) -> (r:
    Value)
    requires
        !old(a).immortal(),
        shell.ok(),
        word_kind(shell.bits) is Object,
        root_ok(s),
        parts_ok(false, s),
        s.len < usize::MAX,
    ensures
        final(a).immortal() == old(a).immortal(),
        r.bits == shell.bits,
        usable_array(old(a).immortal(), r),
        array_elems(r) == pushed(front, root_elems(s), x),
{
    let ghost s0 = s;
    let SeqBox { len, shift: old_shift, head, tree: old_tree, tail } = s;
    let ghost h = (old_shift / 5) as nat;
    let mut shift: usize = old_shift;
    let (this, other) = if front {
        (head, tail)
    } else {
        (tail, head)
    };
    let mut tree = old_tree;
    proof {
        lemma_nil_is_no_object(this);
        lemma_nil_is_no_object(old_tree);
    }
    let ghost this0 = this;
    let new = if this.is_nil() {
        proof {
            lemma_no_elems(this);
        }
        single(a, x)
    } else {
        let n: usize = leaf_elems(&this).len();
        proof {
            lemma_slots(false, this, 0);
            lemma_node(this, 0);
        }
        if n < B {
            match take_apart(this) {
                Ok(p) => {
                    let (leaf_shell, leaf_body) = p;
                    match leaf_body {
                        Body::SeqLeaf(vs) => {
                            let mut vs = vs;
                            let ghost x0 = x;
                            if front {
                                vs.insert(0, x);
                            } else {
                                vs.push(x);
                            }
                            proof {
                                assert(vs@ =~= pushed(front, elems(this0), x0));
                            }
                            refill(leaf_shell, Body::SeqLeaf(vs))
                        },
                        _ => vstd::pervasive::unreached(),
                    }
                },
                Err(this) => longer_leaf(a, leaf_elems(&this), x, front),
            }
        } else {
            let p = tree_push_leaf_owned(a, tree, shift, this, front, Ghost(h));
            tree = p.0;
            shift = p.1;
            single(a, x)
        }
    };
    proof {
        lemma_node(new, 0);
        if tree.bits != HDR_NIL {
            lemma_node(tree, (shift / 5) as nat);
        } else {
            lemma_no_elems(tree);
        }
    }
    let full = if front {
        SeqBox { len: len + 1, shift, head: new, tree, tail: other }
    } else {
        SeqBox { len: len + 1, shift, head: other, tree, tail: new }
    };
    proof {
        assert(root_elems(full) =~= pushed(front, root_elems(s0), x));
        assert(parts_ok(false, full));
    }
    put_back(a, shell, full)
}

/// A root in its old place.
fn put_back<A: Arena>(a: &mut A, shell: Shell, s: SeqBox) -> (r: Value)
    requires
        !old(a).immortal(),
        shell.ok(),
        word_kind(shell.bits) is Object,
        parts_ok(false, s),
    ensures
        final(a).immortal() == old(a).immortal(),
        r.bits == shell.bits,
        usable_array(old(a).immortal(), r),
        array_elems(r) == root_elems(s),
{
    if s.shift > MAX_SHIFT {
        let anew = packed_anew(a, &s);
        let p = root_parts(&anew);
        let same = SeqBox {
            len: p.len,
            shift: p.shift,
            head: p.head.clone(),
            tree: p.tree.clone(),
            tail: p.tail.clone(),
        };
        return refill(shell, Body::SeqRoot(same));
    }
    refill(shell, Body::SeqRoot(s))
}

/// The first `n` elements.
pub fn take<A: Arena>(a: &mut A, root: &Value, n: usize) -> (r: Value)
    requires
        usable_array(old(a).immortal(), *root),
    ensures
        final(a).immortal() == old(a).immortal(),
        usable_array(old(a).immortal(), r),
        array_elems(r) == if n >= array_elems(*root).len() {
            array_elems(*root)
        } else {
            array_elems(*root).take(n as int)
        },
{
    let ghost imm = a.immortal();
    let ghost all = array_elems(*root);
    proof {
        lemma_parts(imm, *root);
    }
    let s = root_parts(root);
    let ghost h = (s.shift / 5) as nat;
    if n == 0 {
        proof {
            assert(all.take(0) =~= Seq::empty());
            if all.len() == 0 {
                assert(all =~= Seq::empty());
            }
        }
        return empty_in(a);
    }
    if n >= s.len {
        return root.clone();
    }
    proof {
        lemma_nil_is_no_object(s.head);
        lemma_nil_is_no_object(s.tree);
        lemma_nil_is_no_object(s.tail);
    }
    let hl = node_len(&s.head, Ghost(0));
    if n <= hl {
        proof {
            lemma_slots(imm, s.head, 0);
            lemma_all_fit_sub(imm, elems(s.head), 0, n as int);
            assert(elems(s.head).subrange(0, n as int) =~= all.take(n as int));
        }
        let kept = copy(leaf_elems(&s.head), 0, n);
        let tail = leaf_from(a, kept);
        return one_leaf(a, n, tail);
    }
    let tree_len = node_len(&s.tree, Ghost(h));
    let m: usize = n - hl;
    if m <= tree_len {
        let cut = tree_take(a, &s.tree, m, Ghost(h));
        let (tree, shift) = collapse(cut, s.shift, Ghost(imm), Ghost(h));
        let full = SeqBox { len: n, shift, head: s.head.clone(), tree, tail: Value::nil() };
        proof {
            lemma_no_elems(full.tail);
            lemma_node(tree, (shift / 5) as nat);
            assert(root_elems(full) =~= all.take(n as int));
        }
        return root_in(a, full);
    }
    proof {
        lemma_slots(imm, s.tail, 0);
        lemma_all_fit_sub(imm, elems(s.tail), 0, m - tree_len);
    }
    let kept = copy(leaf_elems(&s.tail), 0, m - tree_len);
    let tail = leaf_from(a, kept);
    let full = SeqBox {
        len: n,
        shift: s.shift,
        head: s.head.clone(),
        tree: s.tree.clone(),
        tail,
    };
    proof {
        assert(root_elems(full) =~= all.take(n as int));
    }
    root_in(a, full)
}

/// All but the first `n` elements.
pub open spec fn skipped(all: Seq<Value>, n: int) -> Seq<Value> {
    if n >= all.len() {
        Seq::empty()
    } else {
        all.skip(n)
    }
}

/// All but the first `n` elements. An array that nothing else refers to is
/// edited in place.
pub fn skip<A: Arena>(a: &mut A, root: Value, n: usize) -> (r: Value)
    requires
        usable_array(old(a).immortal(), root),
    ensures
        final(a).immortal() == old(a).immortal(),
        usable_array(old(a).immortal(), r),
        array_elems(r) == skipped(array_elems(root), n as int),
{
    let ghost imm = a.immortal();
    proof {
        lemma_parts(imm, root);
    }
    if n == 0 {
        return skip_copy(a, &root, n);
    }
    match take_apart(root) {
        Ok(p) => {
            let (shell, body) = p;
            match body {
                Body::SeqRoot(s) => {
                    proof {
                        lemma_unfrozen(imm, root);
                    }
                    skip_unique(a, shell, s, n)
                },
                _ => vstd::pervasive::unreached(),
            }
        },
        Err(root) => skip_copy(a, &root, n),
    }
}

/// A skip within a root that nothing else refers to: whole leading leaves go,
/// and the leaf where the cut falls is shortened.
fn skip_unique<A: Arena>(a: &mut A, shell: Shell, s: SeqBox, n: usize) -> (r: Value)
    requires
        !old(a).immortal(),
        shell.ok(),
        word_kind(shell.bits) is Object,
        parts_ok(false, s),
        s.shift <= MAX_SHIFT,
    ensures
        final(a).immortal() == old(a).immortal(),
        r.bits == shell.bits,
        usable_array(old(a).immortal(), r),
        array_elems(r) == skipped(root_elems(s), n as int),
{
    let ghost all = root_elems(s);
    let SeqBox { len, shift: old_shift, head: old_head, tree: old_tree, tail: old_tail } = s;
    if n >= len {
        let none = SeqBox {
            len: 0,
            shift: 0,
            head: Value::nil(),
            tree: Value::nil(),
            tail: Value::nil(),
        };
        proof {
            lemma_no_elems(none.head);
            lemma_no_elems(none.tree);
            lemma_no_elems(none.tail);
            assert(root_elems(none) =~= Seq::empty());
        }
        return put_back(a, shell, none);
    }
    let mut shift: usize = old_shift;
    let mut head = old_head;
    let mut tree = old_tree;
    let mut tail = old_tail;
    let mut left: usize = n;
    proof {
        assert(all.skip(0) =~= all);
    }
    while left > 0
        invariant
            a.immortal() == old(a).immortal(),
            !old(a).immortal(),
            buffer(false, head),
            buffer(false, tail),
            shift % 5 == 0,
            tree_ok(false, tree, shift, (shift / 5) as nat),
            left <= n < len,
            len == all.len(),
            elems(head) + elems(tree) + elems(tail) == all.skip(n - left),
        decreases
                left,
                (if head.bits == HDR_NIL {
                    1nat
                } else {
                    0nat
                }),
    {
        proof {
            lemma_nil_is_no_object(head);
            lemma_nil_is_no_object(tree);
            lemma_nil_is_no_object(tail);
        }
        let ghost now = all.skip(n - left);
        if !head.is_nil() {
            let hl: usize = leaf_elems(&head).len();
            proof {
                lemma_node(head, 0);
            }
            if left < hl {
                let ghost head0 = head;
                head = leaf_shrink_front(a, head, left);
                proof {
                    lemma_node(head, 0);
                    assert(now =~= elems(head0) + elems(tree) + elems(tail));
                    assert(elems(head) + elems(tree) + elems(tail) =~= now.skip(left as int));
                    assert(now.skip(left as int) =~= all.skip(n as int));
                }
                left = 0;
            } else {
                proof {
                    assert(elems(tree) + elems(tail) =~= now.skip(hl as int));
                    assert(now.skip(hl as int) =~= all.skip(n - left + hl));
                }
                left = left - hl;
                head = Value::nil();
                proof {
                    lemma_no_elems(head);
                    assert(elems(head) + elems(tree) + elems(tail) =~= elems(tree) + elems(tail));
                }
            }
        } else if !tree.is_nil() {
            let ghost tree0 = tree;
            let (leaf, rest, rest_shift) = tree_pop_front_leaf(
                a,
                tree,
                shift,
                Ghost((shift / 5) as nat),
            );
            proof {
                lemma_no_elems(head);
                lemma_node(leaf, 0);
                assert(elems(leaf) + elems(rest) + elems(tail) =~= now);
            }
            tree = rest;
            shift = rest_shift;
            head = leaf;
        } else {
            proof {
                lemma_no_elems(head);
                lemma_no_elems(tree);
                assert(elems(tail) =~= now);
                assert(now.len() > left);
            }
            tail = leaf_shrink_front(a, tail, left);
            proof {
                lemma_node(tail, 0);
                assert(elems(head) + elems(tree) + elems(tail) =~= now.skip(left as int));
                assert(now.skip(left as int) =~= all.skip(n as int));
            }
            left = 0;
        }
    }
    put_back(a, shell, SeqBox { len: len - n, shift, head, tree, tail })
}

/// A leaf without its first `k` elements, in place when it can be.
fn leaf_shrink_front<A: Arena>(a: &mut A, leaf: Value, k: usize) -> (r: Value)
    requires
        usable(old(a).immortal(), leaf, 0),
        !old(a).immortal(),
        k < elems(leaf).len(),
    ensures
        final(a).immortal() == old(a).immortal(),
        usable(old(a).immortal(), r, 0),
        elems(r) == elems(leaf).skip(k as int),
{
    match take_apart(leaf) {
        Ok(p) => {
            let (shell, body) = p;
            match body {
                Body::SeqLeaf(vs) => {
                    let mut vs = vs;
                    let rest = vs.split_off(k);
                    proof {
                        assert(rest@ =~= elems(leaf).skip(k as int));
                    }
                    refill(shell, Body::SeqLeaf(rest))
                },
                _ => vstd::pervasive::unreached(),
            }
        },
        Err(leaf) => {
            let vs = leaf_elems(&leaf);
            let n: usize = vs.len();
            let rest = copy(vs, k, n);
            proof {
                assert(rest@ =~= elems(leaf).skip(k as int));
            }
            leaf_from(a, rest)
        },
    }
}

/// Detach a tree's first leaf: the leaf, and the rest with its height.
fn tree_pop_front_leaf<A: Arena>(
    a: &mut A,
    tree: Value,
    shift: usize,
    Ghost(h): Ghost<nat>,
) -> (r: (Value, Value, usize))
    requires
        usable(old(a).immortal(), tree, h),
        !old(a).immortal(),
        shift == 5 * h,
        elems(tree).len() <= usize::MAX,
    ensures
        final(a).immortal() == old(a).immortal(),
        usable(old(a).immortal(), r.0, 0),
        r.2 % 5 == 0,
        tree_ok(old(a).immortal(), r.1, r.2, (r.2 / 5) as nat),
        elems(tree) == elems(r.0) + elems(r.1),
{
    let (leaf, rest) = pop_front_rec(a, tree, Ghost(h));
    match rest {
        None => {
            let none = Value::nil();
            proof {
                lemma_no_elems(none);
                assert(elems(leaf) + elems(none) =~= elems(leaf));
            }
            (leaf, none, 0)
        },
        Some(t) => {
            let (t, s) = collapse(t, shift, Ghost(false), Ghost(h));
            proof {
                lemma_node(t, (s / 5) as nat);
            }
            (leaf, t, s)
        },
    }
}

/// The leftmost leaf under a node.
fn first_leaf(n: &Value, Ghost(imm): Ghost<bool>, Ghost(h): Ghost<nat>) -> (r: Value)
    requires
        usable(imm, *n, h),
    ensures
        usable(imm, r, 0),
        elems(r).len() <= elems(*n).len(),
        elems(*n).take(elems(r).len() as int) == elems(r),
    decreases h,
{
    proof {
        lemma_slots(imm, *n, h);
    }
    match &n.obj {
        Some(o) => match &o.body {
            Body::SeqLeaf(vs) => {
                proof {
                    assert(elems(*n).take(elems(*n).len() as int) =~= elems(*n));
                }
                n.clone()
            },
            Body::SeqBranch(b) => {
                let ghost cs = b.children@;
                proof {
                    assert(node(cs[0], (h - 1) as nat) && fits(imm, cs[0]));
                    lemma_elems_prefix(cs, 1);
                    assert(cs.take(1) =~= seq![cs[0]]);
                    lemma_elems_one(cs[0]);
                }
                let r = first_leaf(&b.children[0], Ghost(imm), Ghost((h - 1) as nat));
                proof {
                    assert(elems(*n).take(elems(r).len() as int) =~= elems(cs[0]).take(
                        elems(r).len() as int,
                    ));
                }
                r
            },
            _ => vstd::pervasive::unreached(),
        },
        None => vstd::pervasive::unreached(),
    }
}

fn pop_front_rec<A: Arena>(a: &mut A, n: Value, Ghost(h): Ghost<nat>) -> (r: (
    Value,
    Option<Value>,
))
    requires
        usable(old(a).immortal(), n, h),
        !old(a).immortal(),
        elems(n).len() <= usize::MAX,
    ensures
        final(a).immortal() == old(a).immortal(),
        usable(old(a).immortal(), r.0, 0),
        match r.1 {
            Some(t) => usable(old(a).immortal(), t, h) && elems(n) == elems(r.0) + elems(t),
            None => elems(n) == elems(r.0),
        },
    decreases h,
{
    let ghost imm = a.immortal();
    let ghost n0 = n;
    proof {
        lemma_slots(imm, n, h);
    }
    match take_apart(n) {
        Ok(p) => {
            let (shell, body) = p;
            match body {
                Body::SeqLeaf(vs) => (refill(shell, Body::SeqLeaf(vs)), None),
                Body::SeqBranch(b) => {
                    let crate::vm::bytecode::object::BranchBox { shift, sizes, children } = b;
                    let ghost cs = children@;
                    let ghost low = (h - 1) as nat;
                    let mut children = children;
                    proof {
                        assert(cs == slots(n0));
                        assert(node(cs[0], low) && fits(imm, cs[0]));
                        lemma_elems_prefix(cs, 1);
                        assert(cs.take(1) =~= seq![cs[0]]);
                        lemma_elems_one(cs[0]);
                    }
                    let child = children.remove(0);
                    proof {
                        assert(children@ =~= cs.skip(1));
                        lemma_nodes_sub(cs, low, 1, cs.len() as int);
                        assert(cs.subrange(1, cs.len() as int) =~= cs.skip(1));
                    }
                    let (leaf, sub) = pop_front_rec(a, child, Ghost(low));
                    match sub {
                        None => {
                            if children.len() == 0 {
                                proof {
                                    assert(elems_all(cs.skip(1)) =~= Seq::empty());
                                    assert(elems(n0) =~= elems(leaf));
                                }
                                (leaf, None)
                            } else {
                                let rest = rebranch(
                                    shell,
                                    shift,
                                    children,
                                    Ghost(false),
                                    Ghost(low),
                                );
                                (leaf, Some(rest))
                            }
                        },
                        Some(sub) => {
                            let ghost sub0 = sub;
                            let ghost cs1 = children@;
                            children.insert(0, sub);
                            proof {
                                assert(children@ =~= seq![sub0] + cs1);
                                lemma_elems_add(seq![sub0], cs1);
                                lemma_elems_one(sub0);
                                assert forall|i: int| 0 <= i < children@.len() implies node(
                                    #[trigger] children@[i],
                                    low,
                                ) by {
                                    if i > 0 {
                                        assert(node(cs1[i - 1], low));
                                    }
                                }
                                assert(elems(n0) =~= elems(leaf) + elems_all(children@));
                            }
                            let rest = rebranch(
                                shell,
                                shift,
                                children,
                                Ghost(false),
                                Ghost(low),
                            );
                            (leaf, Some(rest))
                        },
                    }
                },
                _ => vstd::pervasive::unreached(),
            }
        },
        Err(n) => {
            let leaf = first_leaf(&n, Ghost(imm), Ghost(h));
            let m: usize = leaf_elems(&leaf).len();
            if m == node_len(&n, Ghost(h)) {
                proof {
                    assert(elems(n).take(m as int) =~= elems(n));
                }
                return (leaf, None);
            }
            let rest = tree_drop(a, &n, m, Ghost(h));
            proof {
                assert(elems(n) =~= elems(n).take(m as int) + elems(n).skip(m as int));
            }
            (leaf, Some(rest))
        },
    }
}

/// A skip that replaces the root.
fn skip_copy<A: Arena>(a: &mut A, root: &Value, n: usize) -> (r: Value)
    requires
        usable_array(old(a).immortal(), *root),
    ensures
        final(a).immortal() == old(a).immortal(),
        usable_array(old(a).immortal(), r),
        array_elems(r) == skipped(array_elems(*root), n as int),
{
    let ghost imm = a.immortal();
    let ghost all = array_elems(*root);
    proof {
        lemma_parts(imm, *root);
    }
    let s = root_parts(root);
    let ghost h = (s.shift / 5) as nat;
    if n == 0 {
        proof {
            assert(all.skip(0) =~= all);
            if all.len() == 0 {
                assert(all =~= Seq::empty());
            }
        }
        return root.clone();
    }
    if n >= s.len {
        return empty_in(a);
    }
    proof {
        lemma_nil_is_no_object(s.head);
        lemma_nil_is_no_object(s.tree);
        lemma_nil_is_no_object(s.tail);
    }
    let hl = node_len(&s.head, Ghost(0));
    if n < hl {
        proof {
            lemma_slots(imm, s.head, 0);
            lemma_all_fit_sub(imm, elems(s.head), n as int, hl as int);
        }
        let kept = copy(leaf_elems(&s.head), n, hl);
        let head = leaf_from(a, kept);
        let full = SeqBox {
            len: s.len - n,
            shift: s.shift,
            head,
            tree: s.tree.clone(),
            tail: s.tail.clone(),
        };
        proof {
            assert(root_elems(full) =~= all.skip(n as int));
        }
        return root_in(a, full);
    }
    let tree_len = node_len(&s.tree, Ghost(h));
    let m: usize = n - hl;
    if m < tree_len {
        let cut = tree_drop(a, &s.tree, m, Ghost(h));
        let (tree, shift) = collapse(cut, s.shift, Ghost(imm), Ghost(h));
        let full = SeqBox {
            len: s.len - n,
            shift,
            head: Value::nil(),
            tree,
            tail: s.tail.clone(),
        };
        proof {
            lemma_no_elems(full.head);
            lemma_node(tree, (shift / 5) as nat);
            assert(root_elems(full) =~= all.skip(n as int));
        }
        return root_in(a, full);
    }
    let k: usize = m - tree_len;
    proof {
        lemma_slots(imm, s.tail, 0);
        lemma_all_fit_sub(imm, elems(s.tail), k as int, elems(s.tail).len() as int);
        assert(elems(s.tail).subrange(k as int, elems(s.tail).len() as int) =~= all.skip(n as int));
    }
    if k == 0 {
        proof {
            assert(elems(s.tail) =~= all.skip(n as int));
        }
        return one_leaf(a, s.len - n, s.tail.clone());
    }
    let last = leaf_elems(&s.tail);
    let kept = copy(last, k, last.len());
    let tail = leaf_from(a, kept);
    one_leaf(a, s.len - n, tail)
}

/// The elements of both, `l`'s first. The two trees are merged down their
/// facing edges and rebalanced on the way back up.
pub fn concat<A: Arena>(a: &mut A, l: &Value, r: &Value) -> (out: Value)
    requires
        usable_array(old(a).immortal(), *l),
        usable_array(old(a).immortal(), *r),
        array_elems(*l).len() + array_elems(*r).len() <= usize::MAX,
    ensures
        final(a).immortal() == old(a).immortal(),
        usable_array(old(a).immortal(), out),
        array_elems(out) == array_elems(*l) + array_elems(*r),
{
    let ghost imm = a.immortal();
    let ghost all = array_elems(*l) + array_elems(*r);
    proof {
        lemma_parts(imm, *l);
        lemma_parts(imm, *r);
    }
    let ls = root_parts(l);
    let rs = root_parts(r);
    if ls.len == 0 {
        proof {
            assert(all =~= array_elems(*r));
        }
        return r.clone();
    }
    if rs.len == 0 {
        proof {
            assert(all =~= array_elems(*l));
        }
        return l.clone();
    }
    proof {
        lemma_nil_is_no_object(ls.tail);
        lemma_nil_is_no_object(rs.head);
    }
    let (ltree, lshift) = if ls.tail.is_nil() {
        proof {
            lemma_no_elems(ls.tail);
            assert(elems(ls.tree) + elems(ls.tail) =~= elems(ls.tree));
        }
        (ls.tree.clone(), ls.shift)
    } else {
        tree_push_leaf(a, &ls.tree, ls.shift, &ls.tail, false, Ghost((ls.shift / 5) as nat))
    };
    let (rtree, rshift) = if rs.head.is_nil() {
        proof {
            lemma_no_elems(rs.head);
            assert(elems(rs.head) + elems(rs.tree) =~= elems(rs.tree));
        }
        (rs.tree.clone(), rs.shift)
    } else {
        tree_push_leaf(a, &rs.tree, rs.shift, &rs.head, true, Ghost((rs.shift / 5) as nat))
    };
    proof {
        lemma_tree_given(imm, ltree, lshift);
        lemma_tree_given(imm, rtree, rshift);
        assert(elems(ltree) =~= elems(ls.tree) + elems(ls.tail));
        assert(elems(rtree) =~= elems(rs.head) + elems(rs.tree));
    }
    let (tree, shift) = join_trees(a, ltree, lshift, rtree, rshift);
    let full = SeqBox {
        len: ls.len + rs.len,
        shift,
        head: ls.head.clone(),
        tree,
        tail: rs.tail.clone(),
    };
    proof {
        assert(root_elems(full) =~= all);
    }
    root_in(a, full)
}

/// A tree or a node is a tree.
proof fn lemma_tree_given(imm: bool, tree: Value, shift: usize)
    requires
        shift % 5 == 0,
        tree_ok(imm, tree, shift, (shift / 5) as nat) || usable(imm, tree, (shift / 5) as nat),
    ensures
        tree_ok(imm, tree, shift, (shift / 5) as nat),
{
    if usable(imm, tree, (shift / 5) as nat) {
        lemma_node(tree, (shift / 5) as nat);
    }
}

/// One tree of the elements of two.
fn join_trees<A: Arena>(
    a: &mut A,
    ltree: Value,
    lshift: usize,
    rtree: Value,
    rshift: usize,
) -> (r: (Value, usize))
    requires
        lshift % 5 == 0,
        rshift % 5 == 0,
        lshift <= MAX_SHIFT + 5,
        rshift <= MAX_SHIFT + 5,
        tree_ok(old(a).immortal(), ltree, lshift, (lshift / 5) as nat),
        tree_ok(old(a).immortal(), rtree, rshift, (rshift / 5) as nat),
        elems(ltree).len() + elems(rtree).len() <= usize::MAX,
    ensures
        final(a).immortal() == old(a).immortal(),
        r.1 % 5 == 0,
        tree_ok(old(a).immortal(), r.0, r.1, (r.1 / 5) as nat),
        elems(r.0) == elems(ltree) + elems(rtree),
{
    let ghost imm = a.immortal();
    let ghost hl = (lshift / 5) as nat;
    let ghost hr = (rshift / 5) as nat;
    proof {
        lemma_nil_is_no_object(ltree);
        lemma_nil_is_no_object(rtree);
    }
    let (tree, shift) = if ltree.is_nil() {
        proof {
            lemma_no_elems(ltree);
            assert(elems(ltree) + elems(rtree) =~= elems(rtree));
        }
        (rtree, rshift)
    } else if rtree.is_nil() {
        proof {
            lemma_no_elems(rtree);
            assert(elems(ltree) + elems(rtree) =~= elems(ltree));
        }
        (ltree, lshift)
    } else {
        let top = concat_sub(a, &ltree, lshift, &rtree, rshift, Ghost(hl), Ghost(hr));
        let taller: usize = if lshift > rshift {
            lshift
        } else {
            rshift
        };
        let ghost h: nat = if hl > hr {
            hl
        } else {
            hr
        };
        if top.len() == 1 {
            proof {
                assert(node(top@[0], h) && fits(imm, top@[0]));
                assert(top@ =~= seq![top@[0]]);
                lemma_elems_one(top@[0]);
            }
            collapse(top[0].clone(), taller, Ghost(imm), Ghost(h))
        } else {
            (branch_from(a, taller + BITS, top, Ghost(h)), taller + BITS)
        }
    };
    proof {
        lemma_tree_given(imm, tree, shift);
    }
    (tree, shift)
}

/// How many ints `start..end` holds: none when it runs backwards, and never
/// more than the largest int.
pub open spec fn range_length(start: int, end: int) -> int {
    if end <= start {
        0
    } else if end - start > i64::MAX {
        i64::MAX as int
    } else {
        end - start
    }
}

/// The one length that every operation on a range agrees on.
pub fn range_len(start: i64, end: i64) -> (r: i64)
    ensures
        r == range_length(start as int, end as int),
{
    if end <= start {
        0
    } else {
        match end.checked_sub(start) {
            Some(n) => n,
            None => i64::MAX,
        }
    }
}

/// An int value.
pub open spec fn is_int(v: Value, i: int) -> bool {
    &&& v.sound()
    &&& if SMALL_INT_MIN <= i <= SMALL_INT_MAX {
        word_kind(v.bits) is Int && int_of(v.bits) == i
    } else {
        word_kind(v.bits) is Object && v.body() == Some(Body::BigInt(i as i64))
    }
}

impl Value {
    /// An int: immediate when 48 bits hold it, boxed otherwise.
    pub fn int_in<A: Arena>(a: &mut A, i: i64) -> (r: Value)
        ensures
            is_int(r, i as int),
            r.obj matches Some(o) ==> o.immortal == old(a).immortal(),
            fits(old(a).immortal(), r),
            final(a).immortal() == old(a).immortal(),
    {
        if SMALL_INT_MIN <= i && i <= SMALL_INT_MAX {
            Value::small_int(i)
        } else {
            alloc_obj(a, Body::BigInt(i), 2)
        }
    }

    /// An array of the given elements.
    pub fn array_in<A: Arena>(a: &mut A, items: &[Value]) -> (r: Value)
        requires
            all_fit(old(a).immortal(), items@),
        ensures
            final(a).immortal() == old(a).immortal(),
            usable_array(old(a).immortal(), r),
            r.obj->Some_0.immortal == old(a).immortal(),
            array_elems(r) == items@,
    {
        from_slice(a, items)
    }
}

/// A leaf of consecutive ints.
fn int_leaf<A: Arena>(a: &mut A, lo: i64, hi: i64) -> (r: Value)
    requires
        1 <= hi - lo <= 32,
    ensures
        final(a).immortal() == old(a).immortal(),
        usable(old(a).immortal(), r, 0),
        elems(r).len() == hi - lo,
        forall|k: int| 0 <= k < hi - lo ==> is_int(#[trigger] elems(r)[k], lo + k),
{
    let ghost imm = a.immortal();
    let mut buf: Vec<Value> = Vec::new();
    let mut i: i64 = lo;
    while i < hi
        invariant
            lo <= i <= hi,
            hi - lo <= 32,
            a.immortal() == imm,
            buf@.len() == i - lo,
            all_fit(imm, buf@),
            forall|k: int| 0 <= k < i - lo ==> is_int(#[trigger] buf@[k], lo + k),
        decreases hi - i,
    {
        let v = Value::int_in(a, i);
        let ghost b0 = buf@;
        buf.push(v);
        proof {
            assert forall|k: int| 0 <= k < buf@.len() implies fits(imm, #[trigger] buf@[k])
                && is_int(buf@[k], lo + k) by {
                if k < b0.len() {
                    assert(fits(imm, b0[k]) && is_int(b0[k], lo + k));
                }
            }
        }
        i = i + 1;
    }
    leaf_from(a, buf)
}

/// The elements are the ints from `start` up.
pub open spec fn counts_from(vs: Seq<Value>, start: int) -> bool {
    forall|k: int| 0 <= k < vs.len() ==> is_int(#[trigger] vs[k], start + k)
}

/// Bulk build `start..end`, straight into leaves. The number of ints must be
/// one that a vector can have.
pub fn from_int_range<A: Arena>(a: &mut A, start: i64, end: i64) -> (r: Value)
    requires
        end - start <= i64::MAX,
        end - start <= usize::MAX,
    ensures
        final(a).immortal() == old(a).immortal(),
        usable_array(old(a).immortal(), r),
        array_elems(r).len() == range_length(start as int, end as int),
        counts_from(array_elems(r), start as int),
{
    let ghost imm = a.immortal();
    let n: usize = range_len(start, end) as usize;
    if n == 0 {
        return empty_in(a);
    }
    if n <= B {
        let tail = int_leaf(a, start, end);
        return one_leaf(a, n, tail);
    }
    let tail_len = bulk_tail_len(n);
    let body_end: i64 = end - tail_len as i64;
    let mut leaves: Vec<Value> = Vec::new();
    let mut i: i64 = start;
    proof {
        assert(elems_all(leaves@) =~= Seq::empty());
    }
    while i < body_end
        invariant
            start <= i <= body_end <= end,
            body_end - start >= 32,
            (body_end - start) % 32 == 0,
            (i - start) % 32 == 0,
            end - start <= usize::MAX,
            a.immortal() == imm,
            all_usable(imm, leaves@, 0),
            elems_all(leaves@).len() == i - start,
            counts_from(elems_all(leaves@), start as int),
            i > start ==> leaves@.len() >= 1,
        decreases body_end - i,
    {
        let hi: i64 = i + 32;
        let one = int_leaf(a, i, hi);
        let ghost o0 = one;
        let ghost l0 = leaves@;
        leaves.push(one);
        proof {
            lemma_pushed(imm, l0, o0, 0);
            assert(leaves@ =~= l0 + seq![o0]);
            let old_es = elems_all(l0);
            assert forall|k: int| 0 <= k < (old_es + elems(o0)).len() implies is_int(
                #[trigger] (old_es + elems(o0))[k],
                start + k,
            ) by {
                if k < old_es.len() {
                    assert(is_int(old_es[k], start + k));
                } else {
                    assert(is_int(elems(o0)[k - old_es.len()], i + (k - old_es.len())));
                }
            }
        }
        i = hi;
    }
    let ghost es = elems_all(leaves@);
    let (tree, shift) = pack_tree(a, leaves);
    let tail = int_leaf(a, body_end, end);
    let s = SeqBox { len: n, shift, head: Value::nil(), tree, tail };
    proof {
        lemma_no_elems(s.head);
        lemma_node(tree, (shift / 5) as nat);
        lemma_node(tail, 0);
        assert(root_elems(s) =~= es + elems(tail));
        assert forall|k: int| 0 <= k < (es + elems(tail)).len() implies is_int(
            #[trigger] (es + elems(tail))[k],
            start + k,
        ) by {
            if k < es.len() {
                assert(is_int(es[k], start + k));
            } else {
                assert(is_int(elems(tail)[k - es.len()], body_end + (k - es.len())));
            }
        }
    }
    root_of(a, s)
}

/// Taking a prefix and the rest apart and joining them gives the array back.
pub proof fn law_take_and_skip_join(all: Seq<Value>, n: int)
    requires
        0 <= n < all.len(),
    ensures
        all.take(n) + skipped(all, n) == all,
{
    assert(all.take(n) + skipped(all, n) =~= all);
}

/// What is pushed last is read last, and the elements before it are read as
/// they were.
pub proof fn law_push_reads_back(all: Seq<Value>, x: Value)
    ensures
        pushed(false, all, x).len() == all.len() + 1,
        pushed(false, all, x)[all.len() as int] == x,
        forall|i: int| 0 <= i < all.len() ==> #[trigger] pushed(false, all, x)[i] == all[i],
        pushed(true, all, x)[0] == x,
        forall|i: int| 0 <= i < all.len() ==> pushed(true, all, x)[i + 1] == #[trigger] all[i],
{
}

} // verus!
