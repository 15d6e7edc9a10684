//! What a value is, apart from the cells that hold it.

use crate::vm::array::range_count;
use crate::vm::binary::{Bits, bits_in};
use crate::vm::cells::{text_of, value_words};
use crate::vm::nodes::{elems, elems_all, lemma_child_ref, lemma_node, live, node, nodes, slots};
use crate::vm::record::{Kind, lemma_cells_at, lemma_ref_live, Record};
use crate::vm::sound::{big_value, items, range_end, range_start, root_of, sound, valid};
use crate::vm::tree::{tree, tree_elems};
use crate::vm::value::{canonical, Cell, FuncIdx, Value, variant_of, VariantRef};
use vstd::prelude::*;

verus! {

/// What a value is.
pub enum Data {
    Int(int),
    /// A float's bits. Its two zeros are one.
    Float(u64),
    Nil,
    Bool(bool),
    Func(FuncIdx),
    Nullary(VariantRef),
    Text(Seq<u8>),
    Ctor(VariantRef, Seq<Data>),
    Closure(FuncIdx, Seq<Data>),
    Tuple(Seq<Data>),
    /// A range is the array of its Ints.
    Array(Seq<Data>),
    Bits(Seq<bool>),
    /// A cell that is no value of its own.
    Inner(Cell),
}

/// The values in words from `from` on.
pub open spec fn values_in(d: Seq<u64>, from: int) -> Seq<Value> {
    Seq::new((d.len() - from) as nat, |i: int| Value { bits: d[from + i] })
}

/// Values are what their words are.
pub proof fn lemma_values_in(vs: Seq<Value>, d: Seq<u64>, from: int)
    requires
        0 <= from <= d.len(),
        value_words(vs) == d.skip(from),
    ensures
        vs == values_in(d, from),
{
    assert(vs.len() == value_words(vs).len());
    assert forall|i: int| 0 <= i < vs.len() implies vs[i] == values_in(d, from)[i] by {
        assert(value_words(vs)[i] == vs[i].bits);
        assert(d.skip(from)[i] == d[from + i]);
    }
    assert(vs =~= values_in(d, from));
}

/// The values that a cell holds.
pub open spec fn parts(r: Record, c: Cell) -> Seq<Value> {
    let b = r.cells[c];
    match b.kind {
        Kind::Ctor | Kind::Closure => values_in(b.data, 1),
        Kind::Tuple => values_in(b.data, 0),
        Kind::ArrayRoot => items(r, c),
        _ => Seq::empty(),
    }
}

pub open spec fn parts_of(r: Record, v: Value) -> Seq<Value> {
    match v.spec_cell() {
        Some(c) => parts(r, c),
        None => Seq::empty(),
    }
}

/// A float with its two zeros as one.
pub open spec fn one_zero(bits: u64) -> u64 {
    if bits == 0x8000_0000_0000_0000 {
        0
    } else {
        bits
    }
}

pub open spec fn range_data(start: int, n: int) -> Seq<Data> {
    Seq::new(n as nat, |i: int| Data::Int(start + i))
}

/// What a value is, from what it holds.
pub open spec fn shape(r: Record, v: Value, kids: Seq<Data>) -> Data {
    match v.spec_view() {
        crate::vm::value::View::Int(n) => Data::Int(n as int),
        crate::vm::value::View::Float(bits) => Data::Float(one_zero(bits)),
        crate::vm::value::View::Nil => Data::Nil,
        crate::vm::value::View::Bool(b) => Data::Bool(b),
        crate::vm::value::View::Func(f) => Data::Func(f),
        crate::vm::value::View::Nullary(n) => Data::Nullary(n),
        crate::vm::value::View::Cell(c) => shape_cell(r, c, kids),
    }
}

pub open spec fn shape_cell(r: Record, c: Cell, kids: Seq<Data>) -> Data {
    let b = r.cells[c];
    match b.kind {
        Kind::String => Data::Text(text_of(b)),
        Kind::BigInt => Data::Int(big_value(b)),
        Kind::Ctor => Data::Ctor(variant_of(b.data[0]), kids),
        Kind::Closure => Data::Closure(FuncIdx((b.data[0] % 0x1_0000_0000) as u32), kids),
        Kind::Tuple => Data::Tuple(kids),
        Kind::ArrayRoot => Data::Array(kids),
        Kind::Range => Data::Array(
            range_data(
                range_start(b) as int,
                range_count(range_start(b) as int, range_end(b) as int),
            ),
        ),
        Kind::Binary | Kind::BinarySlice => Data::Bits(bits_in(r, c).shown(r)),
        _ => Data::Inner(c),
    }
}

/// What a value is, to depth `n`.
pub open spec fn mean(r: Record, v: Value, n: nat) -> Data
    decreases n, 0nat,
{
    if n == 0 {
        shape(r, v, Seq::empty())
    } else {
        shape(r, v, mean_all(r, parts_of(r, v), (n - 1) as nat))
    }
}

pub open spec fn mean_all(r: Record, vs: Seq<Value>, n: nat) -> Seq<Data>
    decreases n, 1nat,
{
    Seq::new(vs.len(), |i: int| mean(r, vs[i], n))
}

/// How deep a value goes, at most.
pub open spec fn depth(r: Record, v: Value) -> nat {
    match v.spec_cell() {
        Some(c) => r.rank[c] + 1,
        None => 0,
    }
}

/// What a value is.
pub open spec fn meaning(r: Record, v: Value) -> Data {
    mean(r, v, depth(r, v))
}

pub open spec fn meanings(r: Record, vs: Seq<Value>) -> Seq<Data> {
    Seq::new(vs.len(), |i: int| meaning(r, vs[i]))
}

/// A value of a live cell that came before `limit`.
pub open spec fn below(r: Record, v: Value, limit: nat) -> bool {
    &&& v.ok()
    &&& v.spec_cell() matches Some(c) ==> r.has(c) && r.rank[c] < limit
}

pub open spec fn all_below(r: Record, vs: Seq<Value>, limit: nat) -> bool {
    forall|i: int| 0 <= i < vs.len() ==> below(r, #[trigger] vs[i], limit)
}

proof fn lemma_elems_below(r: Record, v: Value, h: nat, limit: nat)
    requires
        r.shaped(),
        node(r, v, h),
        below(r, v, limit),
    ensures
        all_below(r, elems(r, v, h), limit),
    decreases h, 0nat,
{
    let c = v.spec_cell()->Some_0;
    let b = r.cells[c];
    assert(r.has(c));
    lemma_node(r, v, h);
    let s = slots(r, v);
    assert forall|i: int| 0 <= i < s.len() implies below(r, #[trigger] s[i], limit) by {
        lemma_child_ref(b, i);
        assert(canonical(b.held()[i]));
        if s[i].spec_cell() is Some {
            lemma_ref_live(r, c, s[i].spec_cell()->Some_0);
            assert(r.has(s[i].spec_cell()->Some_0));
        }
    }
    if h > 0 {
        lemma_elems_all_below(r, s, (h - 1) as nat, limit);
    }
}

proof fn lemma_elems_all_below(r: Record, vs: Seq<Value>, h: nat, limit: nat)
    requires
        r.shaped(),
        nodes(r, vs, h),
        all_below(r, vs, limit),
    ensures
        all_below(r, elems_all(r, vs, h), limit),
    decreases h, vs.len() + 1,
{
    if vs.len() > 0 {
        let init = vs.drop_last();
        assert forall|i: int| 0 <= i < init.len() implies node(r, #[trigger] init[i], h) && below(
            r,
            init[i],
            limit,
        ) by {
            assert(node(r, vs[i], h));
            assert(below(r, vs[i], limit));
        }
        lemma_elems_all_below(r, init, h, limit);
        assert(node(r, vs[vs.len() - 1], h));
        assert(below(r, vs[vs.len() - 1], limit));
        lemma_elems_below(r, vs.last(), h, limit);
        lemma_below_add(r, elems_all(r, init, h), elems(r, vs.last(), h), limit);
    }
}

proof fn lemma_below_add(r: Record, a: Seq<Value>, b: Seq<Value>, limit: nat)
    requires
        all_below(r, a, limit),
        all_below(r, b, limit),
    ensures
        all_below(r, a + b, limit),
{
    let all = a + b;
    assert forall|i: int| 0 <= i < all.len() implies below(r, #[trigger] all[i], limit) by {
        if i < a.len() {
            assert(below(r, a[i], limit));
        } else {
            assert(below(r, b[i - a.len()], limit));
        }
    }
}

/// What a cell holds came before it.
pub proof fn lemma_parts_below(r: Record, c: Cell)
    requires
        r.shaped(),
        sound(r),
        r.has(c),
    ensures
        all_below(r, parts(r, c), r.rank[c]),
{
    let b = r.cells[c];
    let vs = parts(r, c);
    assert(valid(r, c));
    match b.kind {
        Kind::Ctor | Kind::Closure | Kind::Tuple => {
            assert forall|i: int| 0 <= i < vs.len() implies below(r, #[trigger] vs[i], r.rank[c]) by {
                assert(b.held()[i] == vs[i].bits);
                assert(canonical(b.held()[i]));
                if vs[i].spec_cell() is Some {
                    lemma_cells_at(b.held(), i);
                    lemma_ref_live(r, c, vs[i].spec_cell()->Some_0);
                    assert(r.has(vs[i].spec_cell()->Some_0));
                }
            }
        },
        Kind::ArrayRoot => {
            let t = root_of(b);
            assert(b.held() =~= seq![b.data[3], b.data[4], b.data[5]]);
            lemma_buffer_below(r, c, t.head, 0, 0);
            lemma_buffer_below(r, c, t.tree, 1, t.shift);
            lemma_buffer_below(r, c, t.tail, 2, 0);
            let front = elems(r, t.head, 0).skip(t.offset as int);
            assert(elems(r, t.head, 0) == tree_elems(r, t.head, 0));
            assert(elems(r, t.tail, 0) == tree_elems(r, t.tail, 0));
            assert forall|i: int| 0 <= i < front.len() implies below(
                r,
                #[trigger] front[i],
                r.rank[c],
            ) by {
                assert(below(r, elems(r, t.head, 0)[t.offset + i], r.rank[c]));
            }
            lemma_below_add(r, front, tree_elems(r, t.tree, t.shift), r.rank[c]);
            lemma_below_add(
                r,
                front + tree_elems(r, t.tree, t.shift),
                elems(r, t.tail, 0),
                r.rank[c],
            );
        },
        _ => {},
    }
}

proof fn lemma_buffer_below(r: Record, c: Cell, v: Value, k: int, shift: usize)
    requires
        r.shaped(),
        r.has(c),
        0 <= k < r.cells[c].held().len(),
        r.cells[c].held()[k] == v.bits,
        tree(r, v, shift),
    ensures
        all_below(r, tree_elems(r, v, shift), r.rank[c]),
{
    if v.spec_cell() is Some {
        let b = r.cells[c];
        lemma_cells_at(b.held(), k);
        lemma_ref_live(r, c, v.spec_cell()->Some_0);
        assert(r.has(v.spec_cell()->Some_0));
        lemma_elems_below(r, v, (shift / 5) as nat, r.rank[c]);
    }
}

/// Deep enough is deep enough.
pub proof fn lemma_fuel(r: Record, v: Value, n: nat, m: nat)
    requires
        r.shaped(),
        sound(r),
        v.ok(),
        live(r, v),
        n >= depth(r, v),
        m >= depth(r, v),
    ensures
        mean(r, v, n) == mean(r, v, m),
    decreases depth(r, v),
{
    match v.spec_cell() {
        Some(c) => {
            lemma_parts_below(r, c);
            let vs = parts(r, c);
            let a = mean_all(r, vs, (n - 1) as nat);
            let b = mean_all(r, vs, (m - 1) as nat);
            assert forall|i: int| 0 <= i < vs.len() implies a[i] == b[i] by {
                assert(below(r, vs[i], r.rank[c]));
                lemma_fuel(r, vs[i], (n - 1) as nat, (m - 1) as nat);
            }
            assert(a =~= b);
        },
        None => {
            assert(parts_of(r, v) =~= Seq::empty());
            assert(mean(r, v, n) == shape(r, v, Seq::empty()));
            assert(mean(r, v, m) == shape(r, v, Seq::empty()));
        },
    }
}

/// What a value is comes from what its parts are.
pub proof fn lemma_meaning(r: Record, v: Value)
    requires
        r.shaped(),
        sound(r),
        v.ok(),
        live(r, v),
    ensures
        meaning(r, v) == shape(r, v, meanings(r, parts_of(r, v))),
        v.spec_cell() matches Some(c) ==> all_below(r, parts(r, c), r.rank[c]),
{
    match v.spec_cell() {
        Some(c) => {
            lemma_parts_below(r, c);
            let vs = parts(r, c);
            let a = mean_all(r, vs, r.rank[c]);
            assert forall|i: int| 0 <= i < vs.len() implies a[i] == meaning(r, vs[i]) by {
                assert(below(r, vs[i], r.rank[c]));
                lemma_fuel(r, vs[i], r.rank[c], depth(r, vs[i]));
            }
            assert(a =~= meanings(r, vs));
        },
        None => {
            assert(meanings(r, parts_of(r, v)) =~= Seq::empty());
        },
    }
}

/// How much a value holds, counted once for each way to reach it.
pub open spec fn weight(d: Data) -> nat
    decreases d,
{
    match d {
        Data::Ctor(_, kids) | Data::Closure(_, kids) | Data::Tuple(kids) | Data::Array(kids) => 1
            + weights(kids),
        _ => 1,
    }
}

pub open spec fn weights(ds: Seq<Data>) -> nat
    decreases ds,
{
    if ds.len() == 0 {
        0
    } else {
        weights(ds.drop_last()) + weight(ds.last())
    }
}

pub proof fn lemma_weights_add(a: Seq<Data>, b: Seq<Data>)
    ensures
        weights(a + b) == weights(a) + weights(b),
    decreases b.len(),
{
    if b.len() == 0 {
        assert(a + b =~= a);
    } else {
        lemma_weights_add(a, b.drop_last());
        assert((a + b).drop_last() =~= a + b.drop_last());
        assert((a + b).last() == b.last());
    }
}

pub proof fn lemma_weights_one(d: Data)
    ensures
        weights(seq![d]) == weight(d),
        weight(d) >= 1,
{
    assert(seq![d].drop_last() =~= Seq::empty());
    assert(weights(Seq::<Data>::empty()) == 0);
    assert(seq![d].last() == d);
}

/// Running a list backwards weighs the same.
pub proof fn lemma_weights_reverse(a: Seq<Data>)
    ensures
        weights(a.reverse()) == weights(a),
    decreases a.len(),
{
    if a.len() > 0 {
        let init = a.drop_last();
        lemma_weights_reverse(init);
        assert(a.reverse() =~= seq![a.last()] + init.reverse());
        lemma_weights_add(seq![a.last()], init.reverse());
        lemma_weights_one(a.last());
    }
}

} // verus!
