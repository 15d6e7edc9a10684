//! `==`: structural equality.
//!
//! Two values are equal when they hold the same thing. The walk is a list of
//! pairs still to compare rather than recursion, so two lists a million long
//! compare without overflowing the stack. It stops at the first pair that
//! differs.

use crate::vm::array::{elements, Items, range_count, range_len, seq_of};
use crate::vm::bigint::{int_of, Number};
use crate::vm::binary::{self, bits};
use crate::vm::cells::{all_ok, text_of};
use crate::vm::heap::Heap;
use crate::vm::meaning::{
    all_below, below, Data, lemma_meaning, lemma_values_in, lemma_weights_add, lemma_weights_one,
    lemma_weights_reverse, meaning, meanings, parts, range_data, weight, weights,
};
use crate::vm::nodes::{all_live, live};
use crate::vm::record::{Kind, Record};
use crate::vm::sound::{array, items, sound, valid};
use crate::vm::value::{Cell, law_one_word_each, Value};
use vstd::prelude::*;

verus! {

/// Every pair's values are the same.
pub open spec fn agree(r: Record, ps: Seq<(Value, Value)>) -> bool {
    forall|i: int| 0 <= i < ps.len() ==> same_pair(r, #[trigger] ps[i])
}

pub open spec fn same_pair(r: Record, p: (Value, Value)) -> bool {
    meaning(r, p.0) == meaning(r, p.1)
}

/// Pairs of values of live cells.
pub open spec fn usable(r: Record, ps: Seq<(Value, Value)>) -> bool {
    forall|i: int|
        0 <= i < ps.len() ==> {
            &&& (#[trigger] ps[i]).0.ok()
            &&& ps[i].1.ok()
            &&& live(r, ps[i].0)
            &&& live(r, ps[i].1)
        }
}

/// How much is left to compare.
pub open spec fn load(r: Record, ps: Seq<(Value, Value)>) -> nat {
    weights(Seq::new(ps.len(), |i: int| meaning(r, ps[i].0)))
}

/// `a` and `b` pairwise, the first pair last.
pub open spec fn zipped(a: Seq<Value>, b: Seq<Value>) -> Seq<(Value, Value)> {
    Seq::new(a.len(), |i: int| (a[a.len() - 1 - i], b[a.len() - 1 - i]))
}

proof fn lemma_zipped(r: Record, a: Seq<Value>, b: Seq<Value>)
    requires
        a.len() == b.len(),
        all_ok(a),
        all_ok(b),
        all_live(r, a),
        all_live(r, b),
    ensures
        agree(r, zipped(a, b)) <==> meanings(r, a) == meanings(r, b),
        usable(r, zipped(a, b)),
        load(r, zipped(a, b)) == weights(meanings(r, a)),
{
    let z = zipped(a, b);
    let n = a.len() as int;
    if agree(r, z) {
        assert forall|i: int| 0 <= i < n implies meanings(r, a)[i] == meanings(r, b)[i] by {
            assert(same_pair(r, z[n - 1 - i]));
        }
        assert(meanings(r, a) =~= meanings(r, b));
    }
    if meanings(r, a) == meanings(r, b) {
        assert forall|i: int| 0 <= i < z.len() implies same_pair(r, #[trigger] z[i]) by {
            assert(meanings(r, a)[n - 1 - i] == meanings(r, b)[n - 1 - i]);
        }
    }
    assert forall|i: int| 0 <= i < z.len() implies {
        &&& (#[trigger] z[i]).0.ok()
        &&& z[i].1.ok()
        &&& live(r, z[i].0)
        &&& live(r, z[i].1)
    } by {
        assert(a[n - 1 - i].ok() && b[n - 1 - i].ok());
        assert(live(r, a[n - 1 - i]) && live(r, b[n - 1 - i]));
    }
    assert(Seq::new(z.len(), |i: int| meaning(r, z[i].0)) =~= meanings(r, a).reverse());
    lemma_weights_reverse(meanings(r, a));
}

/// Queue `a` and `b` pairwise, first pair on top, or say they differ in length.
fn queue(todo: &mut Vec<(Value, Value)>, a: Vec<Value>, b: Vec<Value>) -> (r: bool)
    ensures
        r == (a@.len() == b@.len()),
        r ==> final(todo)@ == old(todo)@ + zipped(a@, b@),
        !r ==> final(todo)@ == old(todo)@,
{
    if a.len() != b.len() {
        return false;
    }
    let n: usize = a.len();
    let ghost start = todo@;
    let ghost z = zipped(a@, b@);
    let mut i: usize = 0;
    proof {
        assert(todo@ =~= start + z.take(0));
    }
    while i < n
        invariant
            n == a@.len(),
            n == b@.len(),
            i <= n,
            z == zipped(a@, b@),
            todo@ == start + z.take(i as int),
        decreases n - i,
    {
        todo.push((a[n - 1 - i], b[n - 1 - i]));
        proof {
            assert(z.take(i + 1) =~= z.take(i as int).push(z[i as int]));
            assert(todo@ =~= start + z.take(i + 1));
        }
        i += 1;
    }
    proof {
        assert(z.take(n as int) =~= z);
    }
    true
}

/// What comparing one pair leaves to do.
pub open spec fn decided(
    r: Record,
    before: Seq<(Value, Value)>,
    after: Seq<(Value, Value)>,
    a: Data,
    b: Data,
    res: bool,
) -> bool {
    if res {
        let more = after.skip(before.len() as int);
        &&& after.len() >= before.len()
        &&& after.take(before.len() as int) == before
        &&& usable(r, more)
        &&& agree(r, more) <==> a == b
        &&& load(r, more) < weight(a)
    } else {
        a != b
    }
}

proof fn lemma_decided_now(r: Record, ps: Seq<(Value, Value)>, a: Data, b: Data)
    requires
        a == b,
    ensures
        decided(r, ps, ps, a, b, true),
{
    let more = ps.skip(ps.len() as int);
    assert(more =~= Seq::empty());
    assert(ps.take(ps.len() as int) =~= ps);
    assert(Seq::new(more.len(), |i: int| meaning(r, more[i].0)) =~= Seq::empty());
    lemma_weights_one(a);
}

proof fn lemma_decided_queue(
    r: Record,
    before: Seq<(Value, Value)>,
    after: Seq<(Value, Value)>,
    x: Seq<Value>,
    y: Seq<Value>,
    a: Data,
    b: Data,
)
    requires
        x.len() == y.len(),
        after == before + zipped(x, y),
        all_ok(x),
        all_ok(y),
        all_live(r, x),
        all_live(r, y),
        a == b <==> meanings(r, x) == meanings(r, y),
        weight(a) == 1 + weights(meanings(r, x)),
    ensures
        decided(r, before, after, a, b, true),
{
    lemma_zipped(r, x, y);
    assert(after.take(before.len() as int) =~= before);
    assert(after.skip(before.len() as int) =~= zipped(x, y));
}

/// What was held before is usable.
pub proof fn lemma_below_usable(r: Record, vs: Seq<Value>, limit: nat)
    requires
        all_below(r, vs, limit),
    ensures
        all_ok(vs),
        all_live(r, vs),
{
    assert forall|i: int| 0 <= i < vs.len() implies (#[trigger] vs[i]).ok() && live(r, vs[i]) by {
        assert(below(r, vs[i], limit));
    }
}

/// Whether `a == b`.
pub fn equal(heap: &Heap, a: Value, b: Value) -> (r: bool)
    requires
        heap.wf(),
        sound(heap.record()),
        a.ok(),
        b.ok(),
        live(heap.record(), a),
        live(heap.record(), b),
    ensures
        r == (meaning(heap.record(), a) == meaning(heap.record(), b)),
{
    let ghost rec = heap.record();
    let mut todo: Vec<(Value, Value)> = Vec::new();
    todo.push((a, b));
    proof {
        heap.lemma_record_ok();
        assert(todo@[0] == (a, b));
        assert(same_pair(rec, todo@[0]) <==> meaning(rec, a) == meaning(rec, b));
    }
    while todo.len() > 0
        invariant
            heap.wf(),
            rec == heap.record(),
            rec.shaped(),
            sound(rec),
            usable(rec, todo@),
            agree(rec, todo@) <==> meaning(rec, a) == meaning(rec, b),
        decreases load(rec, todo@),
    {
        let ghost before = todo@;
        let n: usize = todo.len();
        let (x, y) = todo[n - 1];
        todo.truncate(n - 1);
        let ghost left = todo@;
        proof {
            assert(left =~= before.drop_last());
            assert(before[n - 1] == (x, y));
            assert(same_pair(rec, before[n - 1]) <==> meaning(rec, x) == meaning(rec, y));
            assert(usable(rec, left));
            lemma_load_split(rec, left, seq![(x, y)]);
            assert(left + seq![(x, y)] =~= before);
            lemma_weights_one(meaning(rec, x));
            assert(Seq::new(1, |i: int| meaning(rec, seq![(x, y)][i].0)) =~= seq![meaning(rec, x)]);
        }
        if !pair(heap, x, y, &mut todo) {
            proof {
                assert(!same_pair(rec, before[n - 1]));
            }
            return false;
        }
        proof {
            let more = todo@.skip(left.len() as int);
            assert(todo@ =~= left + more);
            lemma_load_split(rec, left, more);
            lemma_agree_split(rec, left, more);
            lemma_agree_split(rec, left, seq![(x, y)]);
            assert(agree(rec, seq![(x, y)]) <==> meaning(rec, x) == meaning(rec, y)) by {
                assert(same_pair(rec, seq![(x, y)][0]) <==> meaning(rec, x) == meaning(rec, y));
            }
            assert forall|i: int| 0 <= i < todo@.len() implies {
                &&& (#[trigger] todo@[i]).0.ok()
                &&& todo@[i].1.ok()
                &&& live(rec, todo@[i].0)
                &&& live(rec, todo@[i].1)
            } by {
                if i < left.len() {
                    assert(todo@[i] == left[i]);
                    assert(left[i].0.ok());
                } else {
                    assert(todo@[i] == more[i - left.len()]);
                    assert(more[i - left.len()].0.ok());
                }
            }
        }
    }
    true
}

proof fn lemma_load_split(r: Record, a: Seq<(Value, Value)>, b: Seq<(Value, Value)>)
    ensures
        load(r, a + b) == load(r, a) + load(r, b),
{
    let x = Seq::new(a.len(), |i: int| meaning(r, a[i].0));
    let y = Seq::new(b.len(), |i: int| meaning(r, b[i].0));
    lemma_weights_add(x, y);
    assert(Seq::new((a + b).len(), |i: int| meaning(r, (a + b)[i].0)) =~= x + y);
}

proof fn lemma_agree_split(r: Record, a: Seq<(Value, Value)>, b: Seq<(Value, Value)>)
    ensures
        agree(r, a + b) <==> agree(r, a) && agree(r, b),
{
    let all = a + b;
    if agree(r, all) {
        assert forall|i: int| 0 <= i < a.len() implies same_pair(r, #[trigger] a[i]) by {
            assert(same_pair(r, all[i]));
        }
        assert forall|i: int| 0 <= i < b.len() implies same_pair(r, #[trigger] b[i]) by {
            assert(same_pair(r, all[a.len() + i]));
        }
    }
    if agree(r, a) && agree(r, b) {
        assert forall|i: int| 0 <= i < all.len() implies same_pair(r, #[trigger] all[i]) by {
            if i < a.len() {
                assert(same_pair(r, a[i]));
            } else {
                assert(same_pair(r, b[i - a.len()]));
            }
        }
    }
}

/// Compare one pair: decide it now, or queue what it holds.
fn pair(heap: &Heap, a: Value, b: Value, todo: &mut Vec<(Value, Value)>) -> (r: bool)
    requires
        heap.wf(),
        sound(heap.record()),
        heap.record().shaped(),
        a.ok(),
        b.ok(),
        live(heap.record(), a),
        live(heap.record(), b),
    ensures
        decided(
            heap.record(),
            old(todo)@,
            final(todo)@,
            meaning(heap.record(), a),
            meaning(heap.record(), b),
            r,
        ),
{
    let ghost rec = heap.record();
    proof {
        lemma_meaning(rec, a);
        lemma_meaning(rec, b);
    }
    // Every value but a float has one form, so the same word is the same value.
    if a.bits() == b.bits() {
        proof {
            lemma_decided_now(rec, todo@, meaning(rec, a), meaning(rec, b));
        }
        return true;
    }
    match (a.view(), b.view()) {
        (crate::vm::value::View::Float(x), crate::vm::value::View::Float(y)) => {
            // A float compares as a number, so its two zeros are equal.
            let zeros = (x == 0 || x == 0x8000_0000_0000_0000) && (y == 0 || y
                == 0x8000_0000_0000_0000);
            proof {
                assert(x == a.bits && y == b.bits);
                if zeros {
                    lemma_decided_now(rec, todo@, meaning(rec, a), meaning(rec, b));
                }
            }
            zeros
        },
        (crate::vm::value::View::Cell(x), crate::vm::value::View::Cell(y)) => {
            proof {
                assert(a.spec_cell() == Some(x));
                assert(b.spec_cell() == Some(y));
                if x == y {
                    law_one_word_each(a.bits, b.bits);
                }
            }
            cells(heap, x, y, todo, Ghost(a), Ghost(b))
        },
        _ => {
            proof {
                lemma_differ(rec, a, b);
            }
            false
        },
    }
}

/// A cell's Int is in no word.
proof fn lemma_differ(r: Record, a: Value, b: Value)
    requires
        r.shaped(),
        sound(r),
        a.ok(),
        b.ok(),
        live(r, a),
        live(r, b),
        a.bits != b.bits,
        !(a.spec_view() is Float && b.spec_view() is Float),
        !(a.spec_view() is Cell && b.spec_view() is Cell),
    ensures
        meaning(r, a) != meaning(r, b),
{
    lemma_meaning(r, a);
    lemma_meaning(r, b);
    if a.spec_view() == b.spec_view() {
        law_one_word_each(a.bits, b.bits);
    }
    match a.spec_cell() {
        Some(c) => {
            assert(r.has(c));
            assert(valid(r, c));
        },
        None => {},
    }
    match b.spec_cell() {
        Some(c) => {
            assert(r.has(c));
            assert(valid(r, c));
        },
        None => {},
    }
}

/// Two cells that are not the same one.
fn cells(
    heap: &Heap,
    x: Cell,
    y: Cell,
    todo: &mut Vec<(Value, Value)>,
    Ghost(a): Ghost<Value>,
    Ghost(b): Ghost<Value>,
) -> (r: bool)
    requires
        heap.wf(),
        sound(heap.record()),
        heap.record().shaped(),
        a.ok(),
        b.ok(),
        a.spec_view() == crate::vm::value::View::Cell(x),
        b.spec_view() == crate::vm::value::View::Cell(y),
        heap.record().has(x),
        heap.record().has(y),
        x != y,
    ensures
        decided(
            heap.record(),
            old(todo)@,
            final(todo)@,
            meaning(heap.record(), a),
            meaning(heap.record(), b),
            r,
        ),
{
    let ghost rec = heap.record();
    let ghost before = todo@;
    let ghost ma = meaning(rec, a);
    let ghost mb = meaning(rec, b);
    proof {
        lemma_meaning(rec, a);
        lemma_meaning(rec, b);
        assert(valid(rec, x));
        assert(valid(rec, y));
        lemma_below_usable(rec, parts(rec, x), rec.rank[x]);
        lemma_below_usable(rec, parts(rec, y), rec.rank[y]);
    }
    match (crate::vm::array::seq(heap, x), crate::vm::array::seq(heap, y)) {
        (Some(s), Some(t)) => {
            return arrays(heap, s, t, todo, Ghost(a), Ghost(b), Ghost(x), Ghost(y));
        },
        _ => {},
    }
    match (bits(heap, x), bits(heap, y)) {
        (Some(s), Some(t)) => {
            // A slice equals a binary holding the same bits.
            let same = binary::equal(heap, s, t);
            proof {
                if same {
                    lemma_decided_now(rec, before, ma, mb);
                }
            }
            return same;
        },
        _ => {},
    }
    let kx = heap.kind(x);
    let ky = heap.kind(y);
    if kx != ky {
        return false;
    }
    match kx {
        Kind::String => {
            let mut text: Vec<u8> = Vec::new();
            heap.read_string(x, &mut text);
            let same = heap.string_is(y, text.as_slice());
            proof {
                assert(text@ =~= text_of(rec.cells[x]));
                if same {
                    lemma_decided_now(rec, before, ma, mb);
                }
            }
            same
        },
        Kind::BigInt => {
            let same = heap.read_big_int(x).same(&heap.read_big_int(y));
            proof {
                if same {
                    lemma_decided_now(rec, before, ma, mb);
                }
            }
            same
        },
        Kind::Ctor => {
            if heap.variant(x) != heap.variant(y) {
                return false;
            }
            let p = heap.fields(x);
            let q = heap.fields(y);
            proof {
                lemma_values_in(p@, rec.cells[x].data, 1);
                lemma_values_in(q@, rec.cells[y].data, 1);
            }
            let same = queue(todo, p, q);
            proof {
                if same {
                    lemma_decided_queue(rec, before, todo@, parts(rec, x), parts(rec, y), ma, mb);
                } else {
                    assert(meanings(rec, parts(rec, x)).len() != meanings(rec, parts(rec, y)).len());
                }
            }
            same
        },
        Kind::Closure => {
            if heap.closure_func(x) != heap.closure_func(y) {
                return false;
            }
            let p = heap.fields(x);
            let q = heap.fields(y);
            proof {
                lemma_values_in(p@, rec.cells[x].data, 1);
                lemma_values_in(q@, rec.cells[y].data, 1);
            }
            let same = queue(todo, p, q);
            proof {
                if same {
                    lemma_decided_queue(rec, before, todo@, parts(rec, x), parts(rec, y), ma, mb);
                } else {
                    assert(meanings(rec, parts(rec, x)).len() != meanings(rec, parts(rec, y)).len());
                }
            }
            same
        },
        Kind::Tuple => {
            let p = heap.elements(x);
            let q = heap.elements(y);
            proof {
                assert(rec.cells[x].data.skip(0) =~= rec.cells[x].data);
                assert(rec.cells[y].data.skip(0) =~= rec.cells[y].data);
                lemma_values_in(p@, rec.cells[x].data, 0);
                lemma_values_in(q@, rec.cells[y].data, 0);
            }
            let same = queue(todo, p, q);
            proof {
                if same {
                    lemma_decided_queue(rec, before, todo@, parts(rec, x), parts(rec, y), ma, mb);
                } else {
                    assert(meanings(rec, parts(rec, x)).len() != meanings(rec, parts(rec, y)).len());
                }
            }
            same
        },
        _ => false,
    }
}

/// Two arrays, either of which may be a range.
fn arrays(
    heap: &Heap,
    s: Items,
    t: Items,
    todo: &mut Vec<(Value, Value)>,
    Ghost(a): Ghost<Value>,
    Ghost(b): Ghost<Value>,
    Ghost(x): Ghost<Cell>,
    Ghost(y): Ghost<Cell>,
) -> (r: bool)
    requires
        heap.wf(),
        sound(heap.record()),
        heap.record().shaped(),
        a.ok(),
        b.ok(),
        a.spec_view() == crate::vm::value::View::Cell(x),
        b.spec_view() == crate::vm::value::View::Cell(y),
        heap.record().has(x),
        heap.record().has(y),
        seq_of(heap.record(), x) == Some(s),
        seq_of(heap.record(), y) == Some(t),
    ensures
        decided(
            heap.record(),
            old(todo)@,
            final(todo)@,
            meaning(heap.record(), a),
            meaning(heap.record(), b),
            r,
        ),
{
    let ghost rec = heap.record();
    let ghost before = todo@;
    let ghost ma = meaning(rec, a);
    let ghost mb = meaning(rec, b);
    proof {
        lemma_meaning(rec, a);
        lemma_meaning(rec, b);
        assert(valid(rec, x));
        assert(valid(rec, y));
        lemma_below_usable(rec, parts(rec, x), rec.rank[x]);
        lemma_below_usable(rec, parts(rec, y), rec.rank[y]);
        assert(ma is Array && mb is Array);
        assert(ma->Array_0.len() == s.count(rec));
        assert(mb->Array_0.len() == t.count(rec));
    }
    if s.len(heap) != t.len(heap) {
        return false;
    }
    match (s, t) {
        (Items::Range { start: p, end: pe }, Items::Range { start: q, end: qe }) => {
            let same = p == q || range_len(p, pe) == 0;
            proof {
                if same {
                    assert(ma->Array_0 =~= mb->Array_0);
                    lemma_decided_now(rec, before, ma, mb);
                } else {
                    assert(ma->Array_0[0] == Data::Int(p as int));
                    assert(mb->Array_0[0] == Data::Int(q as int));
                }
            }
            same
        },
        (Items::Tree(c), Items::Range { start, end }) => {
            let same = counts_up(heap, c, start, Ghost(mb->Array_0));
            proof {
                if same {
                    lemma_decided_now(rec, before, ma, mb);
                }
            }
            same
        },
        (Items::Range { start, end }, Items::Tree(c)) => {
            let same = counts_up(heap, c, start, Ghost(ma->Array_0));
            proof {
                if same {
                    lemma_decided_now(rec, before, ma, mb);
                }
            }
            same
        },
        (Items::Tree(c), Items::Tree(d)) => {
            let p = elements(heap, c);
            let q = elements(heap, d);
            let same = queue(todo, p, q);
            proof {
                lemma_decided_queue(rec, before, todo@, parts(rec, x), parts(rec, y), ma, mb);
            }
            same
        },
    }
}

/// Whether an array's elements are the Ints from `start` on.
fn counts_up(heap: &Heap, c: Cell, start: i64, Ghost(want): Ghost<Seq<Data>>) -> (r: bool)
    requires
        heap.wf(),
        sound(heap.record()),
        heap.record().shaped(),
        array(heap.record(), c),
        want.len() == items(heap.record(), c).len(),
        want == range_data(start as int, want.len() as int),
        all_ok(items(heap.record(), c)),
        all_live(heap.record(), items(heap.record(), c)),
    ensures
        r == (meanings(heap.record(), items(heap.record(), c)) == want),
{
    let ghost rec = heap.record();
    let vs = elements(heap, c);
    let ghost ms = meanings(rec, vs@);
    let mut i: usize = 0;
    while i < vs.len()
        invariant
            i <= vs@.len(),
            heap.wf(),
            rec == heap.record(),
            sound(rec),
            rec.shaped(),
            all_ok(vs@),
            all_live(rec, vs@),
            vs@ == items(rec, c),
            ms == meanings(rec, vs@),
            want.len() == vs@.len(),
            want == range_data(start as int, want.len() as int),
            forall|k: int| 0 <= k < i ==> ms[k] == #[trigger] want[k],
        decreases vs@.len() - i,
    {
        proof {
            assert(vs@[i as int].ok() && live(rec, vs@[i as int]));
            assert(vs@.len() == vs.len());
        }
        if !is_int(heap, vs[i], start as i128 + i as i128) {
            proof {
                assert(want[i as int] == Data::Int(start + i));
                assert(ms[i as int] == meaning(rec, vs@[i as int]));
                assert(ms[i as int] != want[i as int]);
            }
            return false;
        }
        i += 1;
    }
    proof {
        assert(ms =~= want);
    }
    true
}

/// Whether `v` is the Int `n`, small or big.
pub(crate) fn is_int(heap: &Heap, v: Value, n: i128) -> (r: bool)
    requires
        heap.wf(),
        sound(heap.record()),
        heap.record().shaped(),
        v.ok(),
        live(heap.record(), v),
    ensures
        r == (int_of(heap.record(), v) == Some(n as int)),
        r == (meaning(heap.record(), v) == Data::Int(n as int)),
{
    let ghost rec = heap.record();
    proof {
        lemma_meaning(rec, v);
    }
    match v.view() {
        crate::vm::value::View::Int(m) => m as i128 == n,
        crate::vm::value::View::Cell(cell) => {
            proof {
                assert(v.spec_cell() == Some(cell));
                assert(rec.has(cell));
                assert(valid(rec, cell));
            }
            if heap.kind(cell) == Kind::BigInt {
                heap.read_big_int(cell).same(&Number::from_i128(n))
            } else {
                false
            }
        },
        _ => false,
    }
}

/// Equality is an equivalence: it is what values are that is compared.
pub proof fn law_equality_is_an_equivalence(r: Record, a: Value, b: Value, c: Value)
    ensures
        meaning(r, a) == meaning(r, a),
        meaning(r, a) == meaning(r, b) ==> meaning(r, b) == meaning(r, a),
        meaning(r, a) == meaning(r, b) && meaning(r, b) == meaning(r, c) ==> meaning(r, a)
            == meaning(r, c),
{
}

/// A range equals the array of its Ints.
pub proof fn law_range_is_its_array(r: Record, v: Value, c: Cell, w: Value, d: Cell)
    requires
        r.shaped(),
        sound(r),
        v.ok(),
        w.ok(),
        v.spec_cell() == Some(c),
        w.spec_cell() == Some(d),
        r.has(c),
        r.has(d),
        r.cells[c].kind is Range,
        r.cells[d].kind is ArrayRoot,
    ensures
        meaning(r, v) == meaning(r, w) <==> meanings(r, items(r, d)) == range_data(
            crate::vm::sound::range_start(r.cells[c]) as int,
            range_count(
                crate::vm::sound::range_start(r.cells[c]) as int,
                crate::vm::sound::range_end(r.cells[c]) as int,
            ),
        ),
{
    lemma_meaning(r, v);
    lemma_meaning(r, w);
}

} // verus!
