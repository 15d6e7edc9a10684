//! `==`: structural equality of values. Child pairs go onto a worklist, so that
//! a deep chain of values takes no deep recursion.

use crate::small::{pair_seq, PairStack};
use crate::text::same_text;
use crate::vm::bytecode::hash::{hash_value, Surroundings};
use crate::vm::bytecode::norm::{
    Env, env_entries, hashed, lemma_ordered, norm, Norm, norm_body, norms, paired, pairs, pairs_all,
    range_items, text_of,
};
use crate::vm::bytecode::object::{Body, MapBox, Object, Value};
use crate::vm::bytecode::seq::{array, array_elems, lemma_array_user};
use crate::vm::bytecode::sound::{
    lemma_nil_is_no_object, Scene, slot_at, taken, trie, tries, user, user_body, users,
};
use crate::vm::bytecode::trie::{
    has_key, keyed, lemma_bag_same, lemma_find, lemma_rank, lemma_same_bag, lemma_slot,
    lemma_trie_keyed, rank, takes,
};
use crate::vm::bytecode::value::{MapRef, SeqRef, ValueView};
use crate::vm::bytecode::weight::{
    lemma_array_weight, lemma_weight_kids, lemma_weights_add, lemma_weights_at, lemma_weights_one,
    weight, weights,
};
use crate::vm::bytecode::word::HDR_NIL;
use std::rc::Rc;
use vstd::prelude::*;

verus! {

/// `Rc::ptr_eq`: whether two references are to one object, which is then equal
/// to itself. Nothing is said of when they are.
#[verifier::external_body]
fn same_object(a: &Rc<Object>, b: &Rc<Object>) -> (r: bool)
    ensures
        r ==> **a == **b,
{
    Rc::ptr_eq(a, b)
}

/// Pairs of user values.
pub open spec fn paired_users(ps: Seq<(Value, Value)>, sc: Scene) -> bool {
    forall|i: int|
        0 <= i < ps.len() ==> user((#[trigger] ps[i]).0, sc) && user(ps[i].1, sc)
}

/// Each pair is of values that mean the same.
pub open spec fn all_same(ps: Seq<(Value, Value)>, env: Env) -> bool {
    forall|i: int| 0 <= i < ps.len() ==> norm((#[trigger] ps[i]).0, env) == norm(ps[i].1, env)
}

/// What the first values of pairs weigh.
pub open spec fn load(ps: Seq<(Value, Value)>) -> nat
    decreases ps.len(),
{
    if ps.len() == 0 {
        0
    } else {
        load(ps.drop_last()) + weight(ps.last().0)
    }
}

/// No pair weighs more than `bound`.
pub open spec fn within(ps: Seq<(Value, Value)>, bound: nat) -> bool {
    forall|i: int|
        0 <= i < ps.len() ==> weight((#[trigger] ps[i]).0) + weight(ps[i].1) <= bound
}

proof fn lemma_load_add(a: Seq<(Value, Value)>, b: Seq<(Value, Value)>)
    ensures
        load(a + b) == load(a) + load(b),
    decreases b.len(),
{
    if b.len() == 0 {
        assert(a + b =~= a);
    } else {
        lemma_load_add(a, b.drop_last());
        assert((a + b).drop_last() =~= a + b.drop_last());
        assert((a + b).last() == b.last());
    }
}

proof fn lemma_load_reverse(a: Seq<(Value, Value)>)
    ensures
        load(a.reverse()) == load(a),
    decreases a.len(),
{
    if a.len() > 0 {
        lemma_load_reverse(a.drop_last());
        assert(a.reverse() =~= seq![a.last()] + a.drop_last().reverse());
        lemma_load_add(seq![a.last()], a.drop_last().reverse());
        assert(seq![a.last()].drop_last() =~= Seq::empty());
        assert(load(Seq::<(Value, Value)>::empty()) == 0);
        assert(load(seq![a.last()]) == weight(a.last().0));
    } else {
        assert(a.reverse() =~= a);
    }
}

/// The bits of a float with one zero.
fn float_key(bits: u64) -> (r: u64)
    ensures
        r == if bits == 0x8000_0000_0000_0000 {
            0
        } else {
            bits
        },
{
    if bits == 0x8000_0000_0000_0000 {
        0
    } else {
        bits
    }
}

/// Two of one kind that holds no values.
pub open spec fn flat_pair(x: Norm, y: Norm) -> bool {
    ||| x is Int && y is Int
    ||| x is Float && y is Float
    ||| x is Bool && y is Bool
    ||| x is Text && y is Text
    ||| x is Nil && y is Nil
}

/// Decide a pair without descending, if it can be.
fn decide_flat(x: &Value, y: &Value, Ghost(sc): Ghost<Scene>) -> (r: Option<bool>)
    requires
        user(*x, sc),
        user(*y, sc),
    ensures
        r matches Some(b) ==> b == (norm(*x, sc.env) == norm(*y, sc.env)),
        r is None ==> !flat_pair(norm(*x, sc.env), norm(*y, sc.env)),
{
    proof {
        lemma_nil_is_no_object(*x);
        lemma_nil_is_no_object(*y);
    }
    match (&x.obj, &y.obj) {
        (Some(a), Some(b)) => {
            if same_object(a, b) {
                return Some(true);
            }
        },
        (None, None) => {
            if x.bits == y.bits {
                return Some(true);
            }
        },
        _ => {},
    }
    match (x.kind(), y.kind()) {
        (ValueView::Int(a), ValueView::Int(b)) => Some(a == b),
        (ValueView::Float(a), ValueView::Float(b)) => Some(float_key(a) == float_key(b)),
        (ValueView::Bool(a), ValueView::Bool(b)) => Some(a == b),
        (ValueView::Str(a), ValueView::Str(b)) => Some(same_text(a, b)),
        (ValueView::Nil, ValueView::Nil) => Some(true),
        _ => None,
    }
}

/// A pair found equal, or kept.
pub open spec fn decided_or_kept(
    before: Seq<(Value, Value)>,
    after: Seq<(Value, Value)>,
    x: Value,
    y: Value,
    env: Env,
) -> bool {
    after == before && norm(x, env) == norm(y, env) || after == before.push((x, y))
}

/// Decide a child pair in place if it is flat, else keep it for later.
fn eq_defer(later: &mut Vec<(Value, Value)>, x: &Value, y: &Value, Ghost(sc): Ghost<Scene>) -> (r:
    bool)
    requires
        user(*x, sc),
        user(*y, sc),
    ensures
        r ==> decided_or_kept(old(later)@, final(later)@, *x, *y, sc.env),
        !r ==> norm(*x, sc.env) != norm(*y, sc.env),
{
    match decide_flat(x, y, Ghost(sc)) {
        Some(eq) => eq,
        None => {
            later.push((x.clone(), y.clone()));
            true
        },
    }
}

/// The pairs kept while two runs are compared: what is still open.
spec fn open_so_far(
    ps: Seq<(Value, Value)>,
    xs: Seq<Value>,
    ys: Seq<Value>,
    n: int,
    sc: Scene,
) -> bool {
    &&& paired_users(ps, sc)
    &&& all_same(ps, sc.env) <==> forall|i: int|
        0 <= i < n ==> norm(#[trigger] xs[i], sc.env) == norm(ys[i], sc.env)
    &&& load(ps) <= weights(xs.take(n))
    &&& within(ps, weights(xs) + weights(ys))
}

proof fn lemma_open_step(
    before: Seq<(Value, Value)>,
    after: Seq<(Value, Value)>,
    xs: Seq<Value>,
    ys: Seq<Value>,
    n: int,
    sc: Scene,
)
    requires
        open_so_far(before, xs, ys, n, sc),
        0 <= n < xs.len(),
        n < ys.len(),
        user(xs[n], sc),
        user(ys[n], sc),
        after == before && norm(xs[n], sc.env) == norm(ys[n], sc.env) || after == before.push(
            (xs[n], ys[n]),
        ),
    ensures
        open_so_far(after, xs, ys, n + 1, sc),
{
    assert(xs.take(n + 1).drop_last() =~= xs.take(n));
    assert(xs.take(n + 1).last() == xs[n]);
    lemma_weights_at(xs, n);
    lemma_weights_at(ys, n);
    if after == before.push((xs[n], ys[n])) {
        assert(after.drop_last() =~= before);
        assert forall|i: int| 0 <= i < after.len() implies user((#[trigger] after[i]).0, sc)
            && user(after[i].1, sc) && weight(after[i].0) + weight(after[i].1) <= weights(xs)
            + weights(ys) by {
            if i < before.len() {
                assert(after[i] == before[i]);
            }
        }
        if all_same(after, sc.env) {
            assert(norm(after[before.len() as int].0, sc.env) == norm(
                after[before.len() as int].1,
                sc.env,
            ));
            assert(all_same(before, sc.env)) by {
                assert forall|i: int| 0 <= i < before.len() implies norm(
                    (#[trigger] before[i]).0,
                    sc.env,
                ) == norm(before[i].1, sc.env) by {
                    assert(after[i] == before[i]);
                }
            }
        }
        if forall|i: int|
            0 <= i < n + 1 ==> norm(#[trigger] xs[i], sc.env) == norm(ys[i], sc.env) {
            assert(norm(xs[n], sc.env) == norm(ys[n], sc.env));
            assert forall|i: int| 0 <= i < after.len() implies norm(
                (#[trigger] after[i]).0,
                sc.env,
            ) == norm(after[i].1, sc.env) by {
                if i < before.len() {
                    assert(after[i] == before[i]);
                }
            }
        }
    } else {
        if all_same(after, sc.env) {
            assert forall|i: int| 0 <= i < n + 1 implies norm(#[trigger] xs[i], sc.env) == norm(
                ys[i],
                sc.env,
            ) by {
                if i < n {
                    assert(norm(xs[i], sc.env) == norm(ys[i], sc.env));
                }
            }
        }
    }
}

/// Keep the pairs for the worklist so that they are taken off in order.
fn push_later(pending: &mut PairStack, later: Vec<(Value, Value)>)
    ensures
        pair_seq(*final(pending)) == pair_seq(*old(pending)) + later@.reverse(),
{
    let mut later = later;
    let ghost all = later@;
    let ghost base = pair_seq(*pending);
    proof {
        assert(all.skip(all.len() as int).reverse() =~= Seq::empty());
        assert(base + all.skip(all.len() as int).reverse() =~= base);
        assert(all.take(all.len() as int) =~= all);
    }
    while later.len() > 0
        invariant
            later@.len() <= all.len(),
            later@ == all.take(later@.len() as int),
            pair_seq(*pending) == base + all.skip(later@.len() as int).reverse(),
        decreases later@.len(),
    {
        let ghost n = later@.len() as int;
        match later.pop() {
            Some(p) => {
                let (x, y) = p;
                pending.push(x, y);
                proof {
                    assert(all.skip(n - 1).reverse() =~= all.skip(n).reverse().push(all[n - 1]));
                    assert(later@ =~= all.take(n - 1));
                }
            },
            None => {},
        }
    }
    proof {
        assert(all.skip(0) =~= all);
    }
}

/// A comparison that goes on: the pairs added, all of which must be of equal
/// values for the two to be.
pub open spec fn goes_on(
    added: Seq<(Value, Value)>,
    same: bool,
    weight_a: nat,
    weight_b: nat,
    sc: Scene,
) -> bool {
    &&& paired_users(added, sc)
    &&& same <==> all_same(added, sc.env)
    &&& load(added) < weight_a
    &&& within(added, (weight_a + weight_b - 1) as nat)
}

/// A worklist with pairs added that a comparison goes on with.
pub open spec fn extended(
    before: Seq<(Value, Value)>,
    after: Seq<(Value, Value)>,
    same: bool,
    weight_a: nat,
    weight_b: nat,
    sc: Scene,
) -> bool {
    &&& before.len() <= after.len()
    &&& after.take(before.len() as int) == before
    &&& goes_on(after.skip(before.len() as int), same, weight_a, weight_b, sc)
}

proof fn lemma_extended(
    base: Seq<(Value, Value)>,
    added: Seq<(Value, Value)>,
    same: bool,
    wa: nat,
    wb: nat,
    sc: Scene,
)
    requires
        goes_on(added, same, wa, wb, sc),
    ensures
        extended(base, base + added, same, wa, wb, sc),
{
    assert((base + added).take(base.len() as int) =~= base);
    assert((base + added).skip(base.len() as int) =~= added);
}

proof fn lemma_reversed(ps: Seq<(Value, Value)>, same: bool, wa: nat, wb: nat, sc: Scene)
    requires
        goes_on(ps, same, wa, wb, sc),
    ensures
        goes_on(ps.reverse(), same, wa, wb, sc),
{
    lemma_load_reverse(ps);
    let rs = ps.reverse();
    assert forall|i: int| 0 <= i < rs.len() implies user((#[trigger] rs[i]).0, sc) && user(
        rs[i].1,
        sc,
    ) && weight(rs[i].0) + weight(rs[i].1) <= wa + wb - 1 by {
        assert(rs[i] == ps[ps.len() - 1 - i]);
    }
    if all_same(ps, sc.env) {
        assert forall|i: int| 0 <= i < rs.len() implies norm((#[trigger] rs[i]).0, sc.env) == norm(
            rs[i].1,
            sc.env,
        ) by {
            assert(rs[i] == ps[ps.len() - 1 - i]);
        }
    }
    if all_same(rs, sc.env) {
        assert forall|i: int| 0 <= i < ps.len() implies norm((#[trigger] ps[i]).0, sc.env) == norm(
            ps[i].1,
            sc.env,
        ) by {
            assert(ps[i] == rs[ps.len() - 1 - i]);
        }
    }
}

proof fn lemma_nothing_added(base: Seq<(Value, Value)>, wa: nat, wb: nat, sc: Scene)
    requires
        wa >= 1,
    ensures
        extended(base, base, true, wa, wb, sc),
{
    let none = Seq::<(Value, Value)>::empty();
    assert(goes_on(none, true, wa, wb, sc));
    lemma_extended(base, none, true, wa, wb, sc);
    assert(base + none =~= base);
}

/// Compare two runs of values in order: what is flat at once, the rest later.
fn push_pairs(
    pending: &mut PairStack,
    xs: &[Value],
    ys: &[Value],
    Ghost(wa): Ghost<nat>,
    Ghost(wb): Ghost<nat>,
    Ghost(sc): Ghost<Scene>,
) -> (r: bool)
    requires
        users(xs@, sc),
        users(ys@, sc),
        weights(xs@) < wa,
        weights(ys@) < wb,
    ensures
        r ==> extended(
            pair_seq(*old(pending)),
            pair_seq(*final(pending)),
                norms(xs@, sc.env) == norms(ys@, sc.env),
                wa,
                wb,
                sc,
            ),
        !r ==> norms(xs@, sc.env) != norms(ys@, sc.env),
{
    if xs.len() != ys.len() {
        proof {
            assert(norms(xs@, sc.env).len() != norms(ys@, sc.env).len());
        }
        return false;
    }
    let mut later: Vec<(Value, Value)> = Vec::new();
    let mut i: usize = 0;
    while i < xs.len()
        invariant
            i <= xs@.len(),
            xs@.len() == ys@.len(),
            users(xs@, sc),
            users(ys@, sc),
            open_so_far(later@, xs@, ys@, i as int, sc),
        decreases xs@.len() - i,
    {
        proof {
            assert(user(xs@[i as int], sc));
            assert(user(ys@[i as int], sc));
        }
        let ghost before = later@;
        if !eq_defer(&mut later, &xs[i], &ys[i], Ghost(sc)) {
            proof {
                assert(norms(xs@, sc.env)[i as int] != norms(ys@, sc.env)[i as int]);
            }
            return false;
        }
        proof {
            lemma_open_step(before, later@, xs@, ys@, i as int, sc);
        }
        i += 1;
    }
    let ghost ps = later@;
    let ghost base = pair_seq(*pending);
    push_later(pending, later);
    proof {
        lemma_norms_same(xs@, ys@, sc.env);
        assert(xs@.take(i as int) =~= xs@);
        assert(goes_on(ps, norms(xs@, sc.env) == norms(ys@, sc.env), wa, wb, sc));
        lemma_reversed(ps, norms(xs@, sc.env) == norms(ys@, sc.env), wa, wb, sc);
        lemma_extended(
            base,
            ps.reverse(),
            norms(xs@, sc.env) == norms(ys@, sc.env),
            wa,
            wb,
            sc,
        );
    }
    true
}

/// Runs mean the same when they are as long and each value does.
proof fn lemma_norms_same(xs: Seq<Value>, ys: Seq<Value>, env: Env)
    requires
        xs.len() == ys.len(),
    ensures
        norms(xs, env) == norms(ys, env) <==> forall|i: int|
            0 <= i < xs.len() ==> norm(#[trigger] xs[i], env) == norm(ys[i], env),
{
    if norms(xs, env) == norms(ys, env) {
        assert forall|i: int| 0 <= i < xs.len() implies norm(#[trigger] xs[i], env) == norm(
            ys[i],
            env,
        ) by {
            assert(norms(xs, env)[i] == norms(ys, env)[i]);
        }
    }
    if forall|i: int| 0 <= i < xs.len() ==> norm(#[trigger] xs[i], env) == norm(ys[i], env) {
        assert(norms(xs, env) =~= norms(ys, env));
    }
}

/// Compare two arrays, as [`push_pairs`] does.
fn push_arrays(
    pending: &mut PairStack,
    a: &SeqRef<'_>,
    b: &SeqRef<'_>,
    Ghost(wa): Ghost<nat>,
    Ghost(wb): Ghost<nat>,
    Ghost(sc): Ghost<Scene>,
) -> (r: bool)
    requires
        array(*a.root),
        array(*b.root),
        users(array_elems(*a.root), sc),
        users(array_elems(*b.root), sc),
        weights(array_elems(*a.root)) < wa,
        weights(array_elems(*b.root)) < wb,
    ensures
        r ==> extended(
            pair_seq(*old(pending)),
            pair_seq(*final(pending)),
                norms(array_elems(*a.root), sc.env) == norms(array_elems(*b.root), sc.env),
                wa,
                wb,
                sc,
            ),
        !r ==> norms(array_elems(*a.root), sc.env) != norms(array_elems(*b.root), sc.env),
{
    let ghost xs = array_elems(*a.root);
    let ghost ys = array_elems(*b.root);
    if a.len() != b.len() {
        proof {
            assert(norms(xs, sc.env).len() != norms(ys, sc.env).len());
        }
        return false;
    }
    let n: usize = a.len();
    let mut ia = a.iter();
    let mut ib = b.iter();
    let mut later: Vec<(Value, Value)> = Vec::new();
    let mut i: usize = 0;
    proof {
        assert(xs.skip(0) =~= xs);
        assert(ys.skip(0) =~= ys);
    }
    while i < n
        invariant
            i <= n,
            n == xs.len(),
            n == ys.len(),
            xs == array_elems(*a.root),
            ys == array_elems(*b.root),
            users(xs, sc),
            users(ys, sc),
            ia.ok(),
            ib.ok(),
            ia.rest() == xs.skip(i as int),
            ib.rest() == ys.skip(i as int),
            open_so_far(later@, xs, ys, i as int, sc),
        decreases n - i,
    {
        let ghost before = later@;
        match (ia.next(), ib.next()) {
            (Some(x), Some(y)) => {
                proof {
                    assert(x == xs[i as int]);
                    assert(y == ys[i as int]);
                    assert(user(xs[i as int], sc));
                    assert(user(ys[i as int], sc));
                    assert(xs.skip(i as int).skip(1) =~= xs.skip(i + 1));
                    assert(ys.skip(i as int).skip(1) =~= ys.skip(i + 1));
                }
                if !eq_defer(&mut later, &x, &y, Ghost(sc)) {
                    proof {
                        assert(norms(xs, sc.env)[i as int] != norms(ys, sc.env)[i as int]);
                    }
                    return false;
                }
                proof {
                    lemma_open_step(before, later@, xs, ys, i as int, sc);
                }
            },
            _ => {
                vstd::pervasive::unreached::<()>();
            },
        }
        i += 1;
    }
    let ghost ps = later@;
    let ghost base = pair_seq(*pending);
    push_later(pending, later);
    proof {
        lemma_norms_same(xs, ys, sc.env);
        assert(xs.take(i as int) =~= xs);
        assert(goes_on(ps, norms(xs, sc.env) == norms(ys, sc.env), wa, wb, sc));
        lemma_reversed(ps, norms(xs, sc.env) == norms(ys, sc.env), wa, wb, sc);
        lemma_extended(
            base,
            ps.reverse(),
            norms(xs, sc.env) == norms(ys, sc.env),
            wa,
            wb,
            sc,
        );
    }
    true
}

/// Whether two ranges hold the same ints: none, or from and to the same.
fn ranges_equal(a: i64, b: i64, c: i64, d: i64) -> (r: bool)
    ensures
        r == (range_items(a as int, b as int) == range_items(c as int, d as int)),
{
    let ghost x = range_items(a as int, b as int);
    let ghost y = range_items(c as int, d as int);
    proof {
        if x == y && x.len() > 0 {
            assert(x[0] == y[0]);
            assert(x[0] == Norm::Int(a as int));
            assert(y[0] == Norm::Int(c as int));
        }
        if b <= a && d <= c {
            assert(x =~= y);
        }
    }
    (b <= a && d <= c) || (a == c && b == d)
}

/// Whether an array holds just the ints of a range.
fn range_equals_array(start: i64, end: i64, arr: &SeqRef<'_>, Ghost(sc): Ghost<Scene>) -> (r: bool)
    requires
        array(*arr.root),
        users(array_elems(*arr.root), sc),
    ensures
        r == (range_items(start as int, end as int) == norms(array_elems(*arr.root), sc.env)),
{
    let ghost es = array_elems(*arr.root);
    let ghost ns = norms(es, sc.env);
    let ghost rs = range_items(start as int, end as int);
    let n: usize = arr.len();
    let len: i128 = if end > start {
        end as i128 - start as i128
    } else {
        0
    };
    if n as i128 != len {
        proof {
            assert(rs.len() != ns.len());
        }
        return false;
    }
    let mut it = arr.iter();
    let mut i: usize = 0;
    proof {
        assert(es.skip(0) =~= es);
    }
    while i < n
        invariant
            i <= n,
            n == es.len(),
            n == len,
            len == rs.len(),
            rs == range_items(start as int, end as int),
            es == array_elems(*arr.root),
            ns == norms(es, sc.env),
            users(es, sc),
            it.ok(),
            it.rest() == es.skip(i as int),
            forall|k: int| 0 <= k < i ==> #[trigger] rs[k] == ns[k],
        decreases n - i,
    {
        match it.next() {
            Some(v) => {
                proof {
                    assert(v == es[i as int]);
                    assert(user(es[i as int], sc));
                    lemma_nil_is_no_object(v);
                    assert(es.skip(i as int).skip(1) =~= es.skip(i + 1));
                    assert(rs[i as int] == Norm::Int(start + i));
                    assert(ns[i as int] == norm(v, sc.env));
                }
                match v.as_int() {
                    Some(x) => {
                        if x as i128 != start as i128 + i as i128 {
                            proof {
                                assert(rs[i as int] != ns[i as int]);
                            }
                            return false;
                        }
                    },
                    None => {
                        proof {
                            assert(rs[i as int] != ns[i as int]);
                        }
                        return false;
                    },
                }
            },
            None => {
                vstd::pervasive::unreached::<()>();
            },
        }
        i += 1;
    }
    proof {
        assert(rs =~= ns);
    }
    true
}

/// Whether two values are equal: they mean the same.
pub fn values_equal(a: &Value, b: &Value, s: &Surroundings) -> (r: bool)
    requires
        s.ok(),
        user(*a, s.scene()),
        user(*b, s.scene()),
    ensures
        r == (norm(*a, s.scene().env) == norm(*b, s.scene().env)),
    decreases weight(*a) + weight(*b), 4nat,
{
    let ghost sc = s.scene();
    let ghost env = sc.env;
    let ghost bound = weight(*a) + weight(*b);
    let ghost same = norm(*a, env) == norm(*b, env);
    let mut pending = PairStack::new();
    if !pair_equal(a, b, &mut pending, s) {
        return false;
    }
    proof {
        assert(pair_seq(pending).skip(0) =~= pair_seq(pending));
    }
    loop
        invariant
            s.ok(),
            sc == s.scene(),
            env == sc.env,
            bound == weight(*a) + weight(*b),
            paired_users(pair_seq(pending), sc),
            within(pair_seq(pending), bound),
            same <==> all_same(pair_seq(pending), env),
            same == (norm(*a, env) == norm(*b, env)),
        decreases load(pair_seq(pending)),
    {
        let ghost before = pair_seq(pending);
        match pending.pop() {
            None => {
                return true;
            },
            Some(p) => {
                let (x, y) = p;
                let ghost rest = before.drop_last();
                proof {
                    assert(before[before.len() - 1] == (x, y));
                    assert(user(x, sc) && user(y, sc));
                    assert(before =~= rest.push((x, y)));
                }
                let ghost here = norm(x, env) == norm(y, env);
                proof {
                    lemma_all_same_last(before, env);
                }
                if !pair_equal(&x, &y, &mut pending, s) {
                    return false;
                }
                proof {
                    let added = pair_seq(pending).skip(rest.len() as int);
                    assert(pair_seq(pending) =~= rest + added);
                    lemma_load_add(rest, added);
                    let now = rest + added;
                    assert forall|i: int| 0 <= i < now.len() implies user(
                        (#[trigger] now[i]).0,
                        sc,
                    ) && user(now[i].1, sc) && weight(now[i].0) + weight(now[i].1) <= bound by {
                        if i < rest.len() {
                            assert(now[i] == before[i]);
                        } else {
                            assert(now[i] == added[i - rest.len()]);
                        }
                    }
                    lemma_all_same_add(rest, added, env);
                }
            },
        }
    }
}

proof fn lemma_all_same_add(a: Seq<(Value, Value)>, b: Seq<(Value, Value)>, env: Env)
    ensures
        all_same(a + b, env) <==> all_same(a, env) && all_same(b, env),
{
    let s = a + b;
    if all_same(s, env) {
        assert forall|i: int| 0 <= i < a.len() implies norm((#[trigger] a[i]).0, env) == norm(
            a[i].1,
            env,
        ) by {
            assert(s[i] == a[i]);
        }
        assert forall|i: int| 0 <= i < b.len() implies norm((#[trigger] b[i]).0, env) == norm(
            b[i].1,
            env,
        ) by {
            assert(s[a.len() + i] == b[i]);
        }
    }
    if all_same(a, env) && all_same(b, env) {
        assert forall|i: int| 0 <= i < s.len() implies norm((#[trigger] s[i]).0, env) == norm(
            s[i].1,
            env,
        ) by {
            if i < a.len() {
                assert(s[i] == a[i]);
            } else {
                assert(s[i] == b[i - a.len()]);
            }
        }
    }
}

proof fn lemma_all_same_last(ps: Seq<(Value, Value)>, env: Env)
    requires
        ps.len() > 0,
    ensures
        all_same(ps, env) <==> all_same(ps.drop_last(), env) && norm(ps.last().0, env) == norm(
            ps.last().1,
            env,
        ),
{
    assert(ps =~= ps.drop_last() + seq![ps.last()]);
    lemma_all_same_add(ps.drop_last(), seq![ps.last()], env);
    let one = seq![ps.last()];
    if all_same(one, env) {
        assert(norm(one[0].0, env) == norm(one[0].1, env));
    }
}

/// One step of [`values_equal`]: decide the pair, or add its children to what
/// is pending.
#[verifier::rlimit(60)]
fn pair_equal(a: &Value, b: &Value, pending: &mut PairStack, s: &Surroundings) -> (r: bool)
    requires
        s.ok(),
        user(*a, s.scene()),
        user(*b, s.scene()),
    ensures
        r ==> extended(
            pair_seq(*old(pending)),
            pair_seq(*final(pending)),
                norm(*a, s.scene().env) == norm(*b, s.scene().env),
                weight(*a),
                weight(*b),
                s.scene(),
            ),
        !r ==> norm(*a, s.scene().env) != norm(*b, s.scene().env),
    decreases weight(*a) + weight(*b), 3nat,
{
    let ghost sc = s.scene();
    let ghost env = sc.env;
    let ghost wa = weight(*a);
    let ghost wb = weight(*b);
    let ghost base = pair_seq(*pending);
    proof {
        lemma_nil_is_no_object(*a);
        lemma_nil_is_no_object(*b);
        lemma_nothing_added(base, wa, wb, sc);
        if a.obj is Some {
            lemma_weight_kids(*a);
        }
        if b.obj is Some {
            lemma_weight_kids(*b);
        }
    }
    if let Some(eq) = decide_flat(a, b, Ghost(sc)) {
        return eq;
    }
    match (a.kind(), b.kind()) {
        (ValueView::Enum(x), ValueView::Enum(y)) => {
            let ha = x.stored_hash();
            let hb = y.stored_hash();
            if !(ha == 0 || hb == 0 || ha == hb) {
                return false;
            }
            if x.type_id() != y.type_id() {
                return false;
            }
            if !same_text(x.variant_name(), y.variant_name()) {
                return false;
            }
            proof {
                lemma_weights_add(
                    seq![x.e.enum_name, x.e.variant_name, x.e.labels],
                    x.e.payload@,
                );
                lemma_weights_add(
                    seq![y.e.enum_name, y.e.variant_name, y.e.labels],
                    y.e.payload@,
                );
            }
            push_pairs(pending, x.payload(), y.payload(), Ghost(wa), Ghost(wb), Ghost(sc))
        },
        (ValueView::Closure(x), ValueView::Closure(y)) => {
            if x.func_idx() != y.func_idx() {
                return false;
            }
            push_pairs(pending, x.captures(), y.captures(), Ghost(wa), Ghost(wb), Ghost(sc))
        },
        (ValueView::Tuple(x), ValueView::Tuple(y)) => push_pairs(
            pending,
            x,
            y,
            Ghost(wa),
            Ghost(wb),
            Ghost(sc),
        ),
        (ValueView::Array(x), ValueView::Array(y)) => {
            proof {
                lemma_array_user(*a, sc);
                lemma_array_user(*b, sc);
                lemma_array_weight(*a);
                lemma_array_weight(*b);
            }
            push_arrays(pending, &x, &y, Ghost(wa), Ghost(wb), Ghost(sc))
        },
        (ValueView::Range(x0, x1), ValueView::Range(y0, y1)) => ranges_equal(x0, x1, y0, y1),
        (ValueView::Range(x0, x1), ValueView::Array(y)) => {
            proof {
                lemma_array_user(*b, sc);
            }
            range_equals_array(x0, x1, &y, Ghost(sc))
        },
        (ValueView::Array(x), ValueView::Range(y0, y1)) => {
            proof {
                lemma_array_user(*a, sc);
            }
            range_equals_array(y0, y1, &x, Ghost(sc))
        },
        (ValueView::Binary(x), ValueView::Binary(y)) => x.bits_eq(&y),
        (ValueView::Socket(x), ValueView::Socket(y)) => x.id == y.id && x.kind == y.kind,
        (ValueView::Subject(x), ValueView::Subject(y)) => x == y,
        (ValueView::Pid(x), ValueView::Pid(y)) => x == y,
        (ValueView::MapView(x), ValueView::MapView(y)) => maps_equal(
            &x,
            &y,
            pending,
            s,
            Ghost(wa),
            Ghost(wb),
        ),
        _ => false,
    }
}

/// The entries of a map.
pub open spec fn map_entries(m: MapBox, env: Env) -> Seq<(Norm, Norm)> {
    match m {
        MapBox::Env => env_entries(env),
        MapBox::Hamt { size, root } => pairs(root, env),
    }
}

/// Maps mean the same when they have the same entries.
proof fn lemma_maps_mean(x: MapBox, y: MapBox, sc: Scene)
    requires
        user_body(Body::MapRoot(x), sc),
        user_body(Body::MapRoot(y), sc),
        keyed(env_entries(sc.env)),
    ensures
        keyed(map_entries(x, sc.env)),
        keyed(map_entries(y, sc.env)),
        norm_body(Body::MapRoot(x), sc.env) == norm_body(Body::MapRoot(y), sc.env) <==> map_entries(
            x,
            sc.env,
        ).to_multiset() == map_entries(y, sc.env).to_multiset(),
{
    lemma_map_keyed(x, sc);
    lemma_map_keyed(y, sc);
    lemma_ordered(map_entries(x, sc.env));
    lemma_ordered(map_entries(y, sc.env));
}

pub proof fn lemma_map_keyed(x: MapBox, sc: Scene)
    requires
        user_body(Body::MapRoot(x), sc),
        keyed(env_entries(sc.env)),
    ensures
        keyed(map_entries(x, sc.env)),
{
    match x {
        MapBox::Env => {},
        MapBox::Hamt { size, root } => {
            if root.bits == HDR_NIL {
                lemma_nil_is_no_object(root);
            } else {
                lemma_trie_keyed(root, Seq::empty(), sc);
            }
        },
    }
}

/// Compare two maps, whatever order they have their entries in.
fn maps_equal(
    x: &MapRef<'_>,
    y: &MapRef<'_>,
    pending: &mut PairStack,
    s: &Surroundings,
    Ghost(wa): Ghost<nat>,
    Ghost(wb): Ghost<nat>,
) -> (r: bool)
    requires
        s.ok(),
        user_body(Body::MapRoot(*x.m), s.scene()),
        user_body(Body::MapRoot(*y.m), s.scene()),
        wa >= 1,
        wb >= 1,
        *x.m is Hamt ==> weight((*x.m)->Hamt_root) < wa,
        *y.m is Hamt ==> weight((*y.m)->Hamt_root) < wb,
    ensures
        r ==> extended(
            pair_seq(*old(pending)),
            pair_seq(*final(pending)),
                norm_body(Body::MapRoot(*x.m), s.scene().env) == norm_body(
                    Body::MapRoot(*y.m),
                    s.scene().env,
                ),
                wa,
                wb,
                s.scene(),
            ),
        !r ==> norm_body(Body::MapRoot(*x.m), s.scene().env) != norm_body(
            Body::MapRoot(*y.m),
            s.scene().env,
        ),
    decreases wa + wb, 2nat,
{
    let ghost sc = s.scene();
    let ghost base = pair_seq(*pending);
    proof {
        lemma_maps_mean(*x.m, *y.m, sc);
        lemma_nothing_added(base, wa, wb, sc);
    }
    match (x.m, y.m) {
        (MapBox::Env, MapBox::Env) => true,
        (MapBox::Env, MapBox::Hamt { size, root }) => {
            proof {
                lemma_sizes(*y.m, sc);
            }
            env_equals(*size, root, s)
        },
        (MapBox::Hamt { size, root }, MapBox::Env) => {
            proof {
                lemma_sizes(*x.m, sc);
            }
            env_equals(*size, root, s)
        },
        (
            MapBox::Hamt { size: xn, root: xr },
            MapBox::Hamt { size: yn, root: yr },
        ) => {
            if *xn != *yn {
                proof {
                    lemma_sizes(*x.m, sc);
                    lemma_sizes(*y.m, sc);
                    if map_entries(*x.m, sc.env).to_multiset() == map_entries(
                        *y.m,
                        sc.env,
                    ).to_multiset() {
                        lemma_bag_same(map_entries(*x.m, sc.env), map_entries(*y.m, sc.env));
                    }
                }
                return false;
            }
            proof {
                lemma_sizes(*x.m, sc);
                lemma_sizes(*y.m, sc);
            }
            hamts_equal(xr, yr, pending, s, Ghost(wa), Ghost(wb))
        },
    }
}

proof fn lemma_sizes(m: MapBox, sc: Scene)
    requires
        user_body(Body::MapRoot(m), sc),
        m is Hamt,
    ensures
        m->Hamt_size == map_entries(m, sc.env).len(),
{
    match m {
        MapBox::Hamt { size, root } => {
            if root.bits == HDR_NIL {
                lemma_nil_is_no_object(root);
            }
        },
        _ => {},
    }
}

/// The entries under a trie root.
pub open spec fn root_ok(root: Value, sc: Scene) -> bool {
    root.sound() && (root.bits == HDR_NIL || trie(root, Seq::empty(), sc))
}

/// Entries as values.
pub open spec fn means(es: Seq<(Value, Value)>, ns: Seq<(Norm, Norm)>, env: Env) -> bool {
    &&& es.len() == ns.len()
    &&& forall|i: int|
        0 <= i < es.len() ==> ns[i] == (norm((#[trigger] es[i]).0, env), norm(es[i].1, env))
}

/// What the values of entries weigh, keys and all.
pub open spec fn entry_load(es: Seq<(Value, Value)>) -> nat
    decreases es.len(),
{
    if es.len() == 0 {
        0
    } else {
        entry_load(es.drop_last()) + weight(es.last().0) + weight(es.last().1)
    }
}

proof fn lemma_entry_load_add(a: Seq<(Value, Value)>, b: Seq<(Value, Value)>)
    ensures
        entry_load(a + b) == entry_load(a) + entry_load(b),
    decreases b.len(),
{
    if b.len() == 0 {
        assert(a + b =~= a);
    } else {
        lemma_entry_load_add(a, b.drop_last());
        assert((a + b).drop_last() =~= a + b.drop_last());
        assert((a + b).last() == b.last());
    }
}

proof fn lemma_entry_load_at(es: Seq<(Value, Value)>, i: int)
    requires
        0 <= i < es.len(),
    ensures
        weight(es[i].0) + weight(es[i].1) <= entry_load(es),
    decreases es.len(),
{
    if i < es.len() - 1 {
        lemma_entry_load_at(es.drop_last(), i);
        assert(es.drop_last()[i] == es[i]);
    }
}

/// The entries under a trie node, added to a list.
pub(crate) fn gather_entries(
    n: &Value,
    out: &mut Vec<(Value, Value)>,
    Ghost(path): Ghost<Seq<u64>>,
    Ghost(sc): Ghost<Scene>,
)
    requires
        trie(*n, path, sc),
    ensures
        exists|more: Seq<(Value, Value)>|
            final(out)@ == old(out)@ + more && #[trigger] means(more, pairs(*n, sc.env), sc.env)
                && paired_users(more, sc) && entry_load(more) <= weight(*n),
    decreases 14 - path.len(),
{
    let ghost base = out@;
    let ghost env = sc.env;
    proof {
        lemma_weight_kids(*n);
    }
    match &n.obj {
        Some(o) => match &o.body {
            Body::HamtEntry(k, x) => {
                out.push((k.clone(), x.clone()));
                proof {
                    let more = seq![(*k, *x)];
                    assert(out@ =~= base + more);
                    assert(more.drop_last() =~= Seq::empty());
                    assert(entry_load(Seq::<(Value, Value)>::empty()) == 0);
                    assert(entry_load(more) == weight(*k) + weight(*x));
                    lemma_weights_add(seq![*k], seq![*x]);
                    assert(seq![*k] + seq![*x] =~= seq![*k, *x]);
                    lemma_weights_one(*k);
                    lemma_weights_one(*x);
                    assert(means(more, pairs(*n, env), env));
                }
            },
            Body::HamtCollision(h, vs) => {
                let ghost ns = norms(vs@, env);
                let ghost mut more: Seq<(Value, Value)> = Seq::empty();
                let mut i: usize = 0;
                proof {
                    assert(base + more =~= base);
                    assert(vs@.take(0) =~= Seq::empty());
                    assert(vs@.len() == vs.len());
                }
                while i < vs.len()
                    invariant
                        i <= vs@.len(),
                        i % 2 == 0,
                        vs@.len() % 2 == 0,
                        vs@.len() <= usize::MAX,
                        users(vs@, sc),
                        ns == norms(vs@, env),
                        env == sc.env,
                        out@ == base + more,
                        more.len() == i / 2,
                        forall|j: int|
                            0 <= j < more.len() ==> (#[trigger] more[j]) == (
                                vs@[2 * j],
                                vs@[2 * j + 1],
                            ),
                        entry_load(more) == weights(vs@.take(i as int)),
                    decreases vs@.len() - i,
                {
                    let ghost before = more;
                    out.push((vs[i].clone(), vs[i + 1].clone()));
                    proof {
                        more = before.push((vs@[i as int], vs@[i + 1]));
                        assert(out@ =~= base + more);
                        assert(more.drop_last() =~= before);
                        assert(vs@.take(i + 2).drop_last() =~= vs@.take(i + 1));
                        assert(vs@.take(i + 1).drop_last() =~= vs@.take(i as int));
                        assert(vs@.take(i + 2).last() == vs@[i + 1]);
                        assert(vs@.take(i + 1).last() == vs@[i as int]);
                        assert(more.last() == (vs@[i as int], vs@[i + 1]));
                        assert(entry_load(more) == entry_load(before) + weight(vs@[i as int])
                            + weight(vs@[i + 1]));
                        assert(weights(vs@.take(i + 2)) == weights(vs@.take(i + 1)) + weight(
                            vs@[i + 1],
                        ));
                    }
                    i = i + 2;
                }
                proof {
                    assert(vs@.take(i as int) =~= vs@);
                    assert forall|j: int| 0 <= j < more.len() implies paired(ns)[j] == (
                        norm((#[trigger] more[j]).0, env),
                        norm(more[j].1, env),
                    ) && user(more[j].0, sc) && user(more[j].1, sc) by {
                        assert(user(vs@[2 * j], sc));
                        assert(user(vs@[2 * j + 1], sc));
                    }
                    assert(means(more, pairs(*n, env), env));
                }
            },
            Body::HamtBranch(bitmap, vs) => {
                let ghost slots = taken(*bitmap, 32);
                let ghost mut more: Seq<(Value, Value)> = Seq::empty();
                let mut i: usize = 0;
                proof {
                    assert(base + more =~= base);
                    assert(vs@.take(0) =~= Seq::empty());
                    assert(pairs_all(vs@.take(0), env) =~= Seq::empty());
                }
                while i < vs.len()
                    invariant
                        i <= vs@.len(),
                        tries(vs@, path, slots, sc),
                        path.len() < 13,
                        env == sc.env,
                        out@ == base + more,
                        means(more, pairs_all(vs@.take(i as int), env), env),
                        paired_users(more, sc),
                        entry_load(more) <= weights(vs@.take(i as int)),
                    decreases vs@.len() - i,
                {
                    let ghost before = more;
                    let ghost now = out@;
                    proof {
                        assert(trie(vs@[i as int], path.push(slots[i as int]), sc));
                    }
                    gather_entries(&vs[i], out, Ghost(path.push(slots[i as int])), Ghost(sc));
                    proof {
                        let add_on = choose|add_on: Seq<(Value, Value)>|
                            out@ == now + add_on && #[trigger] means(
                                add_on,
                                pairs(vs@[i as int], env),
                                env,
                            ) && paired_users(add_on, sc) && entry_load(add_on) <= weight(
                                vs@[i as int],
                            );
                        more = before + add_on;
                        assert(out@ =~= base + more);
                        assert(vs@.take(i + 1).drop_last() =~= vs@.take(i as int));
                        assert(vs@.take(i + 1).last() == vs@[i as int]);
                        lemma_entry_load_add(before, add_on);
                        let ps = pairs_all(vs@.take(i + 1), env);
                        assert forall|j: int| 0 <= j < more.len() implies ps[j] == (
                            norm((#[trigger] more[j]).0, env),
                            norm(more[j].1, env),
                        ) && user(more[j].0, sc) && user(more[j].1, sc) by {
                            if j < before.len() {
                                assert(more[j] == before[j]);
                            } else {
                                assert(more[j] == add_on[j - before.len()]);
                            }
                        }
                    }
                    i += 1;
                }
                proof {
                    assert(vs@.take(i as int) =~= vs@);
                    assert(means(more, pairs(*n, env), env));
                }
            },
            _ => vstd::pervasive::unreached(),
        },
        None => vstd::pervasive::unreached(),
    }
}

/// The entries of a trie, in the order of their hashes.
pub(crate) fn root_entries(root: &Value, Ghost(sc): Ghost<Scene>) -> (r: Vec<(Value, Value)>)
    requires
        root_ok(*root, sc),
    ensures
        means(r@, pairs(*root, sc.env), sc.env),
        paired_users(r@, sc),
        entry_load(r@) <= weight(*root),
{
    let mut out: Vec<(Value, Value)> = Vec::new();
    proof {
        lemma_nil_is_no_object(*root);
    }
    if root.is_nil() {
        proof {
            assert(pairs(*root, sc.env) =~= Seq::empty());
        }
        return out;
    }
    let ghost base = out@;
    gather_entries(root, &mut out, Ghost(Seq::empty()), Ghost(sc));
    proof {
        let more = choose|more: Seq<(Value, Value)>|
            out@ == base + more && #[trigger] means(more, pairs(*root, sc.env), sc.env)
                && paired_users(more, sc) && entry_load(more) <= weight(*root);
        assert(out@ =~= more);
    }
    out
}

/// Whether a map has just the environment's entries.
fn env_equals(size: usize, root: &Value, s: &Surroundings) -> (r: bool)
    requires
        s.ok(),
        root_ok(*root, s.scene()),
        size == pairs(*root, s.scene().env).len(),
    ensures
        r == (env_entries(s.scene().env).to_multiset() == pairs(
            *root,
            s.scene().env,
        ).to_multiset()),
{
    let ghost sc = s.scene();
    let ghost env = sc.env;
    let ghost ns = pairs(*root, env);
    let ghost vs = env_entries(env);
    proof {
        lemma_nil_is_no_object(*root);
        if root.bits != HDR_NIL {
            lemma_trie_keyed(*root, Seq::empty(), sc);
        } else {
            assert(ns =~= Seq::empty());
        }
        if vs.to_multiset() == ns.to_multiset() {
            lemma_bag_same(vs, ns);
        }
    }
    if size != s.vars.len() {
        return false;
    }
    let es = root_entries(root, Ghost(sc));
    let mut i: usize = 0;
    while i < es.len()
        invariant
            i <= es@.len(),
            s.ok(),
            sc == s.scene(),
            env == sc.env,
            ns == pairs(*root, env),
            vs == env_entries(env),
            means(es@, ns, env),
            paired_users(es@, sc),
            vs.to_multiset() == ns.to_multiset() ==> forall|e: (Norm, Norm)| #[trigger]
                vs.contains(e) <==> ns.contains(e),
            forall|k: int| 0 <= k < i ==> vs.contains(#[trigger] ns[k]),
        decreases es@.len() - i,
    {
        proof {
            assert(user(es@[i as int].0, sc));
            assert(ns.contains(ns[i as int]));
        }
        if !in_env(&es[i].0, &es[i].1, s) {
            return false;
        }
        i += 1;
    }
    proof {
        lemma_all_in(ns, vs);
        lemma_same_bag(vs, ns);
    }
    true
}

/// Whether an entry is one of the environment's.
fn in_env(k: &Value, v: &Value, s: &Surroundings) -> (r: bool)
    requires
        user(*k, s.scene()),
        user(*v, s.scene()),
    ensures
        r == env_entries(s.scene().env).contains(
            (norm(*k, s.scene().env), norm(*v, s.scene().env)),
        ),
{
    let ghost env = s.scene().env;
    let ghost vs = env_entries(env);
    let ghost e = (norm(*k, env), norm(*v, env));
    proof {
        lemma_nil_is_no_object(*k);
        lemma_nil_is_no_object(*v);
        lemma_text(*k, env);
        lemma_text(*v, env);
    }
    match (k.as_str(), v.as_str()) {
        (Some(a), Some(b)) => {
            let mut i: usize = 0;
            while i < s.vars.len()
                invariant
                    i <= s.vars@.len(),
                    env == s.scene().env,
                    vs == env_entries(env),
                    e == (Norm::Text(a@), Norm::Text(b@)),
                    e == (norm(*k, env), norm(*v, env)),
                    forall|j: int| 0 <= j < i ==> #[trigger] vs[j] != e,
                decreases s.vars@.len() - i,
            {
                proof {
                    assert(vs[i as int] == (Norm::Text(s.vars@[i as int].0@), Norm::Text(
                        s.vars@[i as int].1@,
                    )));
                }
                if same_text(s.vars[i].0.as_str(), a) && same_text(s.vars[i].1.as_str(), b) {
                    proof {
                        assert(vs[i as int] == e);
                    }
                    return true;
                }
                i += 1;
            }
            false
        },
        _ => {
            proof {
                if vs.contains(e) {
                    let j = choose|j: int| 0 <= j < vs.len() && vs[j] == e;
                    assert(vs[j] == (Norm::Text(env[j].0), Norm::Text(env[j].1)));
                }
            }
            false
        },
    }
}

/// Only strings mean texts.
proof fn lemma_text(v: Value, env: Env)
    requires
        v.sound(),
    ensures
        norm(v, env) is Text <==> v.body() is Some && v.body()->Some_0 is Str,
        norm(v, env) is Text ==> norm(v, env) == Norm::Text(text_of(v)),
{
    lemma_nil_is_no_object(v);
}

/// As many entries without a key twice, each of them in the other, are all of
/// the other's.
proof fn lemma_all_in(a: Seq<(Norm, Norm)>, b: Seq<(Norm, Norm)>)
    requires
        keyed(a),
        keyed(b),
        a.len() == b.len(),
        forall|k: int| 0 <= k < a.len() ==> b.contains(#[trigger] a[k]),
    ensures
        forall|e: (Norm, Norm)| #[trigger] a.contains(e) <==> b.contains(e),
{
    assert(a.no_duplicates()) by {
        assert forall|i: int, j: int| 0 <= i < a.len() && 0 <= j < a.len() && i != j implies a[i]
            != a[j] by {
            if i < j {
                assert(a[i].0 != a[j].0);
            } else {
                assert(a[j].0 != a[i].0);
            }
        }
    }
    assert(b.no_duplicates()) by {
        assert forall|i: int, j: int| 0 <= i < b.len() && 0 <= j < b.len() && i != j implies b[i]
            != b[j] by {
            if i < j {
                assert(b[i].0 != b[j].0);
            } else {
                assert(b[j].0 != b[i].0);
            }
        }
    }
    a.unique_seq_to_set();
    b.unique_seq_to_set();
    vstd::seq_lib::seq_to_set_is_finite(a);
    vstd::seq_lib::seq_to_set_is_finite(b);
    assert(a.to_set().subset_of(b.to_set())) by {
        assert forall|e: (Norm, Norm)| a.to_set().contains(e) implies b.to_set().contains(e) by {
            let k = choose|k: int| 0 <= k < a.len() && a[k] == e;
            assert(b.contains(a[k]));
        }
    }
    vstd::set_lib::lemma_subset_equality(a.to_set(), b.to_set());
    assert forall|e: (Norm, Norm)| #[trigger] a.contains(e) <==> b.contains(e) by {
        assert(a.to_set().contains(e) <==> b.to_set().contains(e));
    }
}

/// Compare two tries of as many entries: each entry of the first is looked up in
/// the second.
fn hamts_equal(
    xr: &Value,
    yr: &Value,
    pending: &mut PairStack,
    s: &Surroundings,
    Ghost(wa): Ghost<nat>,
    Ghost(wb): Ghost<nat>,
) -> (r: bool)
    requires
        s.ok(),
        root_ok(*xr, s.scene()),
        root_ok(*yr, s.scene()),
        pairs(*xr, s.scene().env).len() == pairs(*yr, s.scene().env).len(),
        weight(*xr) < wa,
        weight(*yr) < wb,
    ensures
        r ==> extended(
            pair_seq(*old(pending)),
            pair_seq(*final(pending)),
                pairs(*xr, s.scene().env).to_multiset() == pairs(
                    *yr,
                    s.scene().env,
                ).to_multiset(),
                wa,
                wb,
                s.scene(),
            ),
        !r ==> pairs(*xr, s.scene().env).to_multiset() != pairs(*yr, s.scene().env).to_multiset(),
    decreases wa + wb, 1nat,
{
    let ghost sc = s.scene();
    let ghost env = sc.env;
    let ghost xs = pairs(*xr, env);
    let ghost ys = pairs(*yr, env);
    let ghost same = xs.to_multiset() == ys.to_multiset();
    proof {
        lemma_nil_is_no_object(*xr);
        lemma_nil_is_no_object(*yr);
        if xr.bits != HDR_NIL {
            lemma_trie_keyed(*xr, Seq::empty(), sc);
        }
        if yr.bits != HDR_NIL {
            lemma_trie_keyed(*yr, Seq::empty(), sc);
        }
        if same {
            lemma_bag_same(xs, ys);
        }
    }
    let es = root_entries(xr, Ghost(sc));
    let mut later: Vec<(Value, Value)> = Vec::new();
    let mut i: usize = 0;
    proof {
        assert(es@.take(0) =~= Seq::empty());
    }
    while i < es.len()
        invariant
            i <= es@.len(),
            s.ok(),
            sc == s.scene(),
            env == sc.env,
            root_ok(*yr, sc),
            xs == pairs(*xr, env),
            ys == pairs(*yr, env),
            means(es@, xs, env),
            paired_users(es@, sc),
            entry_load(es@) <= weight(*xr),
            weight(*xr) < wa,
            weight(*yr) < wb,
            keyed(ys),
            yr.bits == HDR_NIL ==> ys.len() == 0,
            same == (xs.to_multiset() == ys.to_multiset()),
            same ==> forall|e: (Norm, Norm)| #[trigger] xs.contains(e) <==> ys.contains(e),
            paired_users(later@, sc),
            within(later@, (wa + wb - 1) as nat),
            load(later@) <= entry_load(es@.take(i as int)),
            all_same(later@, env) <==> forall|k: int|
                0 <= k < i ==> ys.contains(#[trigger] xs[k]),
        decreases es@.len() - i,
    {
        let k = &es[i].0;
        let v = &es[i].1;
        proof {
            assert(user(es@[i as int].0, sc) && user(es@[i as int].1, sc));
            assert(xs[i as int] == (norm(*k, env), norm(*v, env)));
            assert(xs.contains(xs[i as int]));
            lemma_entry_load_at(es@, i as int);
            assert(es@.take(i + 1).drop_last() =~= es@.take(i as int));
            assert(es@.take(i + 1).last() == es@[i as int]);
        }
        let h = hash_value(k, s);
        let found = if yr.is_nil() {
            proof {
                assert(ys =~= Seq::empty());
            }
            None
        } else {
            node_get(yr, k, h, 0, s, Ghost(Seq::empty()))
        };
        match found {
            Some(w) => {
                let ghost before = later@;
                proof {
                    lemma_entry_of(ys, norm(*k, env), norm(w, env), norm(*v, env));
                }
                if !eq_defer(&mut later, v, &w, Ghost(sc)) {
                    return false;
                }
                proof {
                    lemma_kept_step(before, later@, *v, w, xs, ys, i as int, sc);
                    if later@ != before {
                        assert(later@.drop_last() =~= before);
                        assert forall|j: int| 0 <= j < later@.len() implies weight(
                            (#[trigger] later@[j]).0,
                        ) + weight(later@[j].1) <= wa + wb - 1 by {
                            if j < before.len() {
                                assert(later@[j] == before[j]);
                            }
                        }
                    }
                }
            },
            None => {
                proof {
                    if same {
                        assert(ys.contains(xs[i as int]));
                        assert(has_key(ys, norm(*k, env)));
                    }
                }
                return false;
            },
        }
        i += 1;
    }
    let ghost ps = later@;
    let ghost base = pair_seq(*pending);
    push_later(pending, later);
    proof {
        assert(es@.take(i as int) =~= es@);
        if all_same(ps, env) {
            lemma_all_in(xs, ys);
            lemma_same_bag(xs, ys);
        }
        if same {
            assert forall|k: int| 0 <= k < i implies ys.contains(#[trigger] xs[k]) by {
                assert(xs.contains(xs[k]));
            }
        }
        assert(goes_on(ps, same, wa, wb, sc));
        lemma_reversed(ps, same, wa, wb, sc);
        lemma_extended(base, ps.reverse(), same, wa, wb, sc);
    }
    true
}

/// A key's entry is its only one.
proof fn lemma_entry_of(es: Seq<(Norm, Norm)>, k: Norm, x: Norm, y: Norm)
    requires
        keyed(es),
        es.contains((k, x)),
    ensures
        es.contains((k, y)) <==> x == y,
{
    if es.contains((k, y)) {
        let i = choose|i: int| 0 <= i < es.len() && es[i] == (k, x);
        let j = choose|j: int| 0 <= j < es.len() && es[j] == (k, y);
        if i < j {
            assert(es[i].0 != es[j].0);
        } else if j < i {
            assert(es[j].0 != es[i].0);
        }
    }
}

proof fn lemma_kept_step(
    before: Seq<(Value, Value)>,
    after: Seq<(Value, Value)>,
    v: Value,
    w: Value,
    xs: Seq<(Norm, Norm)>,
    ys: Seq<(Norm, Norm)>,
    n: int,
    sc: Scene,
)
    requires
        0 <= n < xs.len(),
        user(v, sc),
        user(w, sc),
        paired_users(before, sc),
        all_same(before, sc.env) <==> forall|k: int| 0 <= k < n ==> ys.contains(#[trigger] xs[k]),
        ys.contains(xs[n]) <==> norm(w, sc.env) == norm(v, sc.env),
        after == before && norm(v, sc.env) == norm(w, sc.env) || after == before.push((v, w)),
    ensures
        paired_users(after, sc),
        all_same(after, sc.env) <==> forall|k: int|
            0 <= k < n + 1 ==> ys.contains(#[trigger] xs[k]),
        load(after) <= load(before) + weight(v),
{
    let env = sc.env;
    if after == before.push((v, w)) {
        assert(after.drop_last() =~= before);
        assert(after.last() == (v, w));
        lemma_all_same_last(after, env);
        assert forall|i: int| 0 <= i < after.len() implies user((#[trigger] after[i]).0, sc)
            && user(after[i].1, sc) by {
            if i < before.len() {
                assert(after[i] == before[i]);
            }
        }
    }
    if all_same(after, env) {
        assert forall|k: int| 0 <= k < n + 1 implies ys.contains(#[trigger] xs[k]) by {
            if k < n {
                assert(ys.contains(xs[k]));
            }
        }
    }
    if forall|k: int| 0 <= k < n + 1 ==> ys.contains(#[trigger] xs[k]) {
        assert(ys.contains(xs[n]));
    }
}

/// A hash's five bits at a depth.
pub(crate) fn slot(hash: u64, shift: u64, Ghost(depth): Ghost<nat>) -> (r: u64)
    requires
        shift == 5 * depth,
        depth < 13,
    ensures
        r == slot_at(hash, depth),
        r < 32,
{
    proof {
        lemma_slot(hash, depth);
    }
    (hash >> shift) & 31
}

/// How many slots below one a bitmap takes.
pub(crate) fn compact(bitmap: u32, s: u64) -> (r: usize)
    requires
        s < 32,
    ensures
        r == rank(bitmap, s),
        r <= s,
{
    let mut n: usize = 0;
    let mut i: u64 = 0;
    while i < s
        invariant
            i <= s < 32,
            n == rank(bitmap, i),
            n <= i,
        decreases s - i,
    {
        if (bitmap >> (i as u32)) & 1 == 1 {
            n += 1;
        }
        i += 1;
    }
    n
}

/// The value of a key under a trie node.
pub(crate) fn node_get(
    n: &Value,
    key: &Value,
    hash: u64,
    shift: u64,
    s: &Surroundings,
    Ghost(path): Ghost<Seq<u64>>,
) -> (r: Option<Value>)
    requires
        s.ok(),
        user(*key, s.scene()),
        hash == hashed(norm(*key, s.scene().env)),
        trie(*n, path, s.scene()),
        shift == 5 * path.len(),
    ensures
        match r {
            Some(x) => {
                &&& user(x, s.scene())
                &&& pairs(*n, s.scene().env).contains(
                    (norm(*key, s.scene().env), norm(x, s.scene().env)),
                )
                &&& weight(x) <= weight(*n)
            },
            None => !has_key(pairs(*n, s.scene().env), norm(*key, s.scene().env)),
        },
    decreases weight(*n) + weight(*key), 5nat,
{
    let ghost sc = s.scene();
    let ghost env = sc.env;
    let ghost nk = norm(*key, env);
    proof {
        lemma_weight_kids(*n);
    }
    match &n.obj {
        Some(o) => match &o.body {
            Body::HamtEntry(k, x) => {
                proof {
                    lemma_weights_add(seq![*k], seq![*x]);
                    assert(seq![*k] + seq![*x] =~= seq![*k, *x]);
                    lemma_weights_one(*k);
                    lemma_weights_one(*x);
                    assert(pairs(*n, env) =~= seq![(norm(*k, env), norm(*x, env))]);
                    assert(pairs(*n, env)[0] == (norm(*k, env), norm(*x, env)));
                }
                if values_equal(k, key, s) {
                    Some(x.clone())
                } else {
                    None
                }
            },
            Body::HamtCollision(h, vs) => match collision_find(vs, key, s) {
                Some(i) => {
                    proof {
                        let ns = norms(vs@, env);
                        assert(user(vs@[i + 1], sc));
                        assert(paired(ns)[i as int / 2] == (ns[i as int], ns[i + 1]));
                        lemma_weights_at(vs@, i + 1);
                    }
                    Some(vs[i + 1].clone())
                },
                None => {
                    proof {
                        let ns = norms(vs@, env);
                        if has_key(paired(ns), nk) {
                            let x = choose|x: Norm| #[trigger] paired(ns).contains((nk, x));
                            let j = choose|j: int|
                                0 <= j < paired(ns).len() && paired(ns)[j] == (nk, x);
                            assert(norm(vs@[2 * j], env) == nk);
                        }
                    }
                    None
                },
            },
            Body::HamtBranch(bitmap, vs) => {
                let b = slot(hash, shift, Ghost(path.len()));
                proof {
                    assert forall|x: Norm| #[trigger]
                        pairs(*n, env).contains((nk, x)) <==> takes(*bitmap, b) && pairs(
                            vs@[rank(*bitmap, b) as int],
                            env,
                        ).contains((nk, x)) by {
                        lemma_find(*bitmap, vs@, path, sc, (nk, x));
                    }
                }
                if (*bitmap >> (b as u32)) & 1 != 1 {
                    return None;
                }
                let i = compact(*bitmap, b);
                proof {
                    lemma_rank(*bitmap, b, 32);
                    lemma_weights_at(vs@, i as int);
                    assert(trie(vs@[i as int], path.push(taken(*bitmap, 32)[i as int]), sc));
                }
                let r = node_get(&vs[i], key, hash, shift + 5, s, Ghost(path.push(b)));
                proof {
                    if r is None && has_key(pairs(*n, env), nk) {
                        let x = choose|x: Norm| #[trigger] pairs(*n, env).contains((nk, x));
                        assert(pairs(vs@[i as int], env).contains((nk, x)));
                    }
                }
                r
            },
            _ => vstd::pervasive::unreached(),
        },
        None => vstd::pervasive::unreached(),
    }
}

/// Where a key is among alternating keys and values.
pub(crate) fn collision_find(vs: &Vec<Value>, key: &Value, s: &Surroundings) -> (r: Option<usize>)
    requires
        s.ok(),
        user(*key, s.scene()),
        users(vs@, s.scene()),
        vs@.len() % 2 == 0,
    ensures
        match r {
            Some(i) => i + 1 < vs@.len() && i % 2 == 0 && norm(vs@[i as int], s.scene().env)
                == norm(*key, s.scene().env),
            None => forall|i: int|
                0 <= i < vs@.len() && i % 2 == 0 ==> norm(#[trigger] vs@[i], s.scene().env) != norm(
                    *key,
                    s.scene().env,
                ),
        },
    decreases weights(vs@) + weight(*key), 5nat,
{
    let ghost env = s.scene().env;
    let mut i: usize = 0;
    proof {
        assert(vs@.len() == vs.len());
    }
    while i < vs.len()
        invariant
            i <= vs@.len(),
            i % 2 == 0,
            vs@.len() % 2 == 0,
            vs@.len() <= usize::MAX,
            s.ok(),
            user(*key, s.scene()),
            users(vs@, s.scene()),
            env == s.scene().env,
            forall|j: int|
                0 <= j < i && j % 2 == 0 ==> norm(#[trigger] vs@[j], env) != norm(*key, env),
        decreases vs@.len() - i,
    {
        proof {
            assert(user(vs@[i as int], s.scene()));
            lemma_weights_at(vs@, i as int);
        }
        if values_equal(&vs[i], key, s) {
            return Some(i);
        }
        i = i + 2;
    }
    None
}

/// `==` on values is an equivalence: reflexive, symmetric and transitive.
pub proof fn law_equality_is_an_equivalence(a: Value, b: Value, c: Value, env: Env)
    ensures
        norm(a, env) == norm(a, env),
        norm(a, env) == norm(b, env) ==> norm(b, env) == norm(a, env),
        norm(a, env) == norm(b, env) && norm(b, env) == norm(c, env) ==> norm(a, env) == norm(
            c,
            env,
        ),
{
}

/// A range is equal to the array of its ints, and hashes like it.
pub proof fn law_range_is_its_array(
    r: Value,
    a: Value,
    start: i64,
    end: i64,
    env: Env,
    sc: Scene,
)
    requires
        r.sound(),
        r.body() == Some(Body::Range(start, end)),
        array(a),
        array_elems(a).len() == range_items(start as int, end as int).len(),
        crate::vm::bytecode::seq::counts_from(array_elems(a), start as int),
        sc.env == env,
    ensures
        norm(r, env) == norm(a, env),
        hashed(norm(r, env)) == hashed(norm(a, env)),
{
    lemma_nil_is_no_object(r);
    lemma_array_user(a, sc);
    let es = array_elems(a);
    assert forall|i: int| 0 <= i < es.len() implies norm(es[i], env) == range_items(
        start as int,
        end as int,
    )[i] by {
        assert(crate::vm::bytecode::seq::is_int(es[i], start + i));
        lemma_nil_is_no_object(es[i]);
    }
    assert(norms(es, env) =~= range_items(start as int, end as int));
}

} // verus!
