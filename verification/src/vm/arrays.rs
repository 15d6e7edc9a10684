//! What the instructions over arrays do, told by what values are. A range is the
//! array of its Ints.

use crate::vm::array::Items;
use crate::vm::bigint::int_of;
use crate::vm::code::Abi;
use crate::vm::compute_array::{gives_array, only_field, over_arrays, stops_array, wraps};
use crate::vm::exec::{
    computes, Event, gives, heap_moved, Machine, stepped, stop_of, stops, target,
};
use crate::vm::instr::{Instr, Reg};
use crate::vm::list::{list_of, listed};
use crate::vm::meaning::{below, Data, lemma_meaning, meaning, meanings, parts};
use crate::vm::nodes::live;
use crate::vm::scene::{nil_value, Stop};
use crate::vm::sense::{
    lemma_look, lemma_look_all, lemma_same, lemma_variant_word, lemma_wrote, locals, look,
    look_all, put, shared, steps, went_on,
};
use crate::vm::sound::{array, items, lemma_array_keep_live, valid};
use crate::vm::value::{SMALL_MAX, Value, VariantRef};
use vstd::prelude::*;

verus! {

/// The Ints from `p` up to `q`.
pub open spec fn counting(p: int, q: int) -> Seq<Data> {
    Seq::new(
        (if p < q {
            q - p
        } else {
            0
        }) as nat,
        |i: int| Data::Int(p + i),
    )
}

/// A position that a program can name: one that is no larger than a small Int
/// and than the machine's own sizes.
pub open spec fn namable(i: int) -> bool {
    0 <= i <= SMALL_MAX && i <= usize::MAX
}

/// What an instruction over arrays comes to, from what the registers hold, or
/// `None` when what it reads is not what it works on.
pub open spec fn lists_to(i: Instr, env: Seq<Data>, abi: Abi) -> Option<Data> {
    match i {
        Instr::Array { dst, elements } => Some(Data::Array(look_all(env, elements@))),
        Instr::Range { dst, start, end } => match (look(env, start), look(env, end)) {
            (Data::Int(p), Data::Int(q)) => Some(Data::Array(counting(p, q))),
            _ => None,
        },
        Instr::ArrayLen { dst, src } => match look(env, src) {
            Data::Array(ds) => Some(Data::Int(ds.len() as int)),
            _ => None,
        },
        Instr::ArrayElem { dst, src, index } => match look(env, src) {
            Data::Array(ds) => if index < ds.len() {
                Some(ds[index as int])
            } else {
                None
            },
            _ => None,
        },
        Instr::ArrayDrop { dst, src, n } => match (look(env, src), look(env, n)) {
            (Data::Array(ds), Data::Int(k)) => Some(
                Data::Array(
                    if k <= ds.len() {
                        ds.skip(k)
                    } else {
                        Seq::empty()
                    },
                ),
            ),
            _ => None,
        },
        Instr::ArrayPrepend { dst, front, rest } => match look(env, rest) {
            Data::Array(ds) => Some(Data::Array(look_all(env, front@) + ds)),
            _ => None,
        },
        Instr::ArrayAppend { dst, rest, back } => match look(env, rest) {
            Data::Array(ds) => Some(Data::Array(ds + look_all(env, back@))),
            _ => None,
        },
        Instr::ArrayConcat { dst, a, b } => match (look(env, a), look(env, b)) {
            (Data::Array(ds), Data::Array(es)) => Some(Data::Array(ds + es)),
            _ => None,
        },
        Instr::ArraySlice { dst, src, start, end } => match (
            look(env, src),
            look(env, start),
            look(env, end),
        ) {
            (Data::Array(ds), Data::Int(p), Data::Int(q)) => Some(
                if namable(p) && namable(q) && p <= q <= ds.len() {
                    Data::Ctor(abi.ok, seq![Data::Array(ds.subrange(p, q))])
                } else {
                    Data::Ctor(abi.err, seq![Data::Nil])
                },
            ),
            _ => None,
        },
        Instr::ArrayIndex { dst, src, index } => match (look(env, src), look(env, index)) {
            (Data::Array(ds), Data::Int(k)) => Some(
                if namable(k) && k < ds.len() {
                    Data::Ctor(abi.some, seq![ds[k]])
                } else {
                    Data::Nullary(abi.none)
                },
            ),
            _ => None,
        },
        Instr::ArrayIndexOr { dst, src, index, default } => match (
            look(env, src),
            look(env, index),
        ) {
            (Data::Array(ds), Data::Int(k)) => Some(
                if namable(k) && k < ds.len() {
                    ds[k]
                } else {
                    look(env, default)
                },
            ),
            _ => None,
        },
        _ => None,
    }
}

/// The register that an instruction over arrays writes.
pub open spec fn lists_into(i: Instr) -> Reg {
    match i {
        Instr::Array { dst, .. } => dst,
        Instr::Range { dst, .. } => dst,
        Instr::ArrayLen { dst, .. } => dst,
        Instr::ArrayElem { dst, .. } => dst,
        Instr::ArrayDrop { dst, .. } => dst,
        Instr::ArrayPrepend { dst, .. } => dst,
        Instr::ArrayAppend { dst, .. } => dst,
        Instr::ArrayConcat { dst, .. } => dst,
        Instr::ArraySlice { dst, .. } => dst,
        Instr::ArrayIndex { dst, .. } => dst,
        Instr::ArrayIndexOr { dst, .. } => dst,
        _ => Reg(0),
    }
}

/// A value that is made, before and after cells are given up.
pub open spec fn settled(a: Machine, b: Machine, v: Value) -> bool {
    &&& a.wf()
    &&& b.wf()
    &&& a.frames@.len() > 0
    &&& heap_moved(a, b)
    &&& v.ok()
    &&& live(b.heap.record(), v)
}

/// An Int that was made is that Int.
pub proof fn lemma_made_int(a: Machine, b: Machine, v: Value)
    requires
        settled(a, b, v),
    ensures
        int_of(b.made@, v) matches Some(n) ==> meaning(b.heap.record(), v) == Data::Int(n),
{
    let y = b.heap.record();
    b.heap.lemma_record_ok();
    lemma_meaning(y, v);
    if let Some(c) = v.spec_cell() {
        assert(y.has(c));
        assert(y.cells[c] == b.made@.cells[c]);
    }
}

/// What an array that was there holds.
pub proof fn lemma_list(a: Machine, x: Value)
    requires
        a.wf(),
        x.ok(),
        live(a.heap.record(), x),
    ensures
        match list_of(a.heap.record(), x) {
            Some(Items::Tree(c)) => {
                &&& meaning(a.heap.record(), x) == Data::Array(
                    meanings(a.heap.record(), items(a.heap.record(), c)),
                )
                &&& forall|i: int|
                    0 <= i < items(a.heap.record(), c).len() ==> (#[trigger] items(
                        a.heap.record(),
                        c,
                    )[i]).ok() && live(a.heap.record(), items(a.heap.record(), c)[i])
            },
            Some(Items::Range { start, end }) => meaning(a.heap.record(), x) == Data::Array(
                counting(start as int, end as int),
            ),
            None => !(meaning(a.heap.record(), x) is Array),
        },
        list_of(a.heap.record(), x) matches Some(l) ==> meaning(
            a.heap.record(),
            x,
        )->Array_0.len() == l.count(a.heap.record()),
{
    let r = a.heap.record();
    a.heap.lemma_record_ok();
    lemma_meaning(r, x);
    if let Some(c) = x.spec_cell() {
        assert(valid(r, c));
        if let Some(Items::Tree(d)) = list_of(r, x) {
            assert forall|i: int| 0 <= i < items(r, c).len() implies (#[trigger] items(
                r,
                c,
            )[i]).ok() && live(r, items(r, c)[i]) by {
                assert(below(r, parts(r, c)[i], r.rank[c]));
            }
        }
        if let Some(Items::Range { start, end }) = list_of(r, x) {
            assert(meaning(r, x)->Array_0 =~= counting(start as int, end as int));
        }
    }
}

/// An array that was made is the array of what its elements are.
proof fn lemma_made_array(a: Machine, b: Machine, v: Value, c: crate::vm::value::Cell)
    requires
        settled(a, b, v),
        v.spec_cell() == Some(c),
        array(b.made@, c),
    ensures
        meaning(b.heap.record(), v) == Data::Array(
            meanings(b.heap.record(), items(b.made@, c)),
        ),
        forall|i: int|
            0 <= i < items(b.made@, c).len() ==> (#[trigger] items(b.made@, c)[i]).ok() && live(
                b.heap.record(),
                items(b.made@, c)[i],
            ),
{
    let y = b.heap.record();
    b.heap.lemma_record_ok();
    assert(y.has(c));
    assert(b.made@.has(c));
    lemma_array_keep_live(b.made@, y, c);
    assert(y.cells[c] == b.made@.cells[c]);
    lemma_meaning(y, v);
    assert forall|i: int| 0 <= i < items(y, c).len() implies (#[trigger] items(y, c)[i]).ok()
        && live(y, items(y, c)[i]) by {
        assert(below(y, parts(y, c)[i], y.rank[c]));
    }
}

/// A range that was made is the array of its Ints.
proof fn lemma_made_range(a: Machine, b: Machine, v: Value, p: int, q: int)
    requires
        settled(a, b, v),
        crate::vm::list::new_range(a.heap.record(), b.made@, v, p, q),
    ensures
        meaning(b.heap.record(), v) == Data::Array(counting(p, q)),
{
    let y = b.heap.record();
    b.heap.lemma_record_ok();
    let c = v.spec_cell()->Some_0;
    assert(y.has(c));
    assert(y.cells[c] == b.made@.cells[c]);
    lemma_meaning(y, v);
    assert(meaning(y, v)->Array_0 =~= counting(p, q));
}

/// The elements of an array that was there, listed anew, are what they were.
proof fn lemma_listed(a: Machine, b: Machine, x: Value, vs: Seq<Value>)
    requires
        a.wf(),
        b.wf(),
        a.frames@.len() > 0,
        heap_moved(a, b),
        x.ok(),
        live(a.heap.record(), x),
        list_of(a.heap.record(), x) matches Some(l) && listed(a.heap.record(), b.made@, l, vs),
        forall|i: int|
            0 <= i < vs.len() ==> (#[trigger] vs[i]).ok() && live(b.heap.record(), vs[i]),
    ensures
        meaning(a.heap.record(), x) == Data::Array(meanings(b.heap.record(), vs)),
{
    let (r, y) = (a.heap.record(), b.heap.record());
    lemma_list(a, x);
    let ds = meaning(r, x)->Array_0;
    assert forall|i: int| 0 <= i < vs.len() implies meaning(y, vs[i]) == ds[i] by {
        assert(vs[i].ok() && live(y, vs[i]));
        match list_of(r, x)->Some_0 {
            Items::Tree(c) => {
                assert(items(r, c)[i].ok());
                lemma_same(a, b, vs[i]);
            },
            Items::Range { start, end } => {
                assert(int_of(b.made@, vs[i]) == Some(start + i));
                lemma_made_int(a, b, vs[i]);
            },
        }
    }
    assert(meanings(y, vs) =~= ds);
}

/// The values of registers, listed anew, are what the registers hold.
proof fn lemma_taken(a: Machine, b: Machine, rs: Seq<Reg>)
    requires
        a.wf(),
        b.wf(),
        a.frames@.len() > 0,
        heap_moved(a, b),
        forall|i: int|
            0 <= i < rs.len() ==> live(b.heap.record(), #[trigger] a.scene().all_at(rs)[i]),
    ensures
        meanings(b.heap.record(), a.scene().all_at(rs)) == look_all(locals(a), rs),
{
    let vs = a.scene().all_at(rs);
    lemma_look_all(a, rs);
    assert forall|i: int| 0 <= i < vs.len() implies meaning(b.heap.record(), vs[i]) == meaning(
        a.heap.record(),
        vs[i],
    ) by {
        lemma_look(a, rs[i]);
        assert(live(b.heap.record(), vs[i]));
        lemma_same(a, b, vs[i]);
    }
    assert(meanings(b.heap.record(), vs) =~= meanings(a.heap.record(), vs));
}

/// A constructor made over one value.
proof fn lemma_wrapped(a: Machine, b: Machine, v: Value, variant: VariantRef, w: Value)
    requires
        settled(a, b, v),
        wraps(a.heap.record(), b.made@, v, variant, w),
    ensures
        only_field(b.made@, v) == w,
        w.ok(),
        live(b.heap.record(), w),
        meaning(b.heap.record(), v) == Data::Ctor(variant, seq![meaning(b.heap.record(), w)]),
{
    let y = b.heap.record();
    b.heap.lemma_record_ok();
    let c = v.spec_cell()->Some_0;
    assert(y.has(c));
    assert(y.cells[c] == b.made@.cells[c]);
    lemma_meaning(y, v);
    lemma_variant_word(variant);
    let data = crate::vm::cells::ctor_data(variant, seq![w]);
    assert(data.len() == 2 && data[1] == w.bits);
    assert(parts(y, c) =~= seq![w]);
    assert(below(y, parts(y, c)[0], y.rank[c]));
    assert(meanings(y, parts(y, c)) =~= seq![meaning(y, w)]);
}

/// An element that was read out is what it was in the array.
proof fn lemma_read(a: Machine, b: Machine, x: Value, i: int, v: Value)
    requires
        settled(a, b, v),
        x.ok(),
        live(a.heap.record(), x),
        list_of(a.heap.record(), x) matches Some(l) && 0 <= i < l.count(a.heap.record())
            && crate::vm::list::is_item(a.heap.record(), b.made@, l, i, v),
    ensures
        meaning(a.heap.record(), x) matches Data::Array(ds) && i < ds.len() && ds[i] == meaning(
            b.heap.record(),
            v,
        ),
{
    let r = a.heap.record();
    lemma_list(a, x);
    match list_of(r, x)->Some_0 {
        Items::Tree(c) => {
            assert(items(r, c)[i].ok());
            lemma_same(a, b, v);
        },
        Items::Range { start, end } => {
            lemma_made_int(a, b, v);
        },
    }
}

/// A position that is named is its Int.
proof fn lemma_place(a: Machine, v: Value)
    requires
        a.wf(),
        v.ok(),
        live(a.heap.record(), v),
    ensures
        int_of(a.heap.record(), v) matches Some(k) ==> {
            &&& meaning(a.heap.record(), v) == Data::Int(k)
            &&& crate::vm::list::place_of(a.heap.record(), v) == if namable(k) {
                Some(k)
            } else {
                None
            }
        },
        crate::vm::compute_array::drop_count(v) matches Some(k) ==> k >= 0 && int_of(
            a.heap.record(),
            v,
        ) == Some(k),
{
    let r = a.heap.record();
    a.heap.lemma_record_ok();
    lemma_meaning(r, v);
    if let Some(c) = v.spec_cell() {
        assert(valid(r, c));
    }
}

/// An array or a range that is made, and an array's length.
proof fn lemma_new_lists_to(a: Machine, b: Machine, v: Value)
    requires
        settled(a, b, v),
        a.top().pc < a.top().body.instrs@.len(),
        stop_of(a) is None,
        gives(a.instr(), a.scene(), a.heap.record(), b.made@, v),
        a.instr() is Array || a.instr() is Range || a.instr() is ArrayLen,
    ensures
        lists_to(a.instr(), locals(a), a.code.abi) == Some(meaning(b.heap.record(), v)),
{
    let (r, m, y) = (a.heap.record(), b.made@, b.heap.record());
    let s = a.scene();
    assert(gives_array(a.instr(), s, r, m, v)) by {
        reveal(gives);
    }
    assert(stops_array(a.instr(), s, r) is None) by {
        reveal(stop_of);
        reveal(stops);
        reveal(computes);
    }
    lemma_look(a, Reg(0));
    b.heap.lemma_record_ok();
    match a.instr() {
        Instr::Array { dst, elements } => {
            let c = v.spec_cell()->Some_0;
            lemma_made_array(a, b, v, c);
            assert forall|i: int| 0 <= i < elements@.len() implies live(
                y,
                #[trigger] s.all_at(elements@)[i],
            ) by {
                assert(items(m, c)[i] == s.all_at(elements@)[i]);
            }
            lemma_taken(a, b, elements@);
        },
        Instr::Range { dst, start, end } => {
            lemma_look(a, start);
            lemma_look(a, end);
            lemma_place(a, s.at(start));
            lemma_place(a, s.at(end));
            lemma_made_range(
                a,
                b,
                v,
                int_of(r, s.at(start))->Some_0,
                int_of(r, s.at(end))->Some_0,
            );
        },
        Instr::ArrayLen { dst, src } => {
            lemma_look(a, src);
            lemma_list(a, s.at(src));
            lemma_made_int(a, b, v);
        },
        _ => {},
    }
}

/// An element that is read, and an array without its first elements.
proof fn lemma_part_lists_to(a: Machine, b: Machine, v: Value)
    requires
        settled(a, b, v),
        a.top().pc < a.top().body.instrs@.len(),
        stop_of(a) is None,
        gives(a.instr(), a.scene(), a.heap.record(), b.made@, v),
        a.instr() is ArrayElem || a.instr() is ArrayDrop,
    ensures
        lists_to(a.instr(), locals(a), a.code.abi) == Some(meaning(b.heap.record(), v)),
{
    let (r, m, y) = (a.heap.record(), b.made@, b.heap.record());
    let s = a.scene();
    assert(gives_array(a.instr(), s, r, m, v)) by {
        reveal(gives);
    }
    assert(stops_array(a.instr(), s, r) is None) by {
        reveal(stop_of);
        reveal(stops);
        reveal(computes);
    }
    lemma_look(a, Reg(0));
    b.heap.lemma_record_ok();
    match a.instr() {
        Instr::ArrayElem { dst, src, index } => {
            lemma_look(a, src);
            lemma_read(a, b, s.at(src), index as int, v);
        },
        Instr::ArrayDrop { dst, src, n } => {
            lemma_look(a, src);
            lemma_look(a, n);
            lemma_place(a, s.at(n));
            lemma_list(a, s.at(src));
            let k = crate::vm::compute_array::drop_count(s.at(n))->Some_0;
            let ds = meaning(r, s.at(src))->Array_0;
            let left = if k <= ds.len() {
                ds.skip(k)
            } else {
                Seq::empty()
            };
            match list_of(r, s.at(src))->Some_0 {
                Items::Tree(c) => {
                    let d = v.spec_cell()->Some_0;
                    lemma_made_array(a, b, v, d);
                    let vs = items(m, d);
                    assert forall|i: int| 0 <= i < vs.len() implies meaning(y, vs[i])
                        == left[i] by {
                        assert(vs[i].ok() && live(y, vs[i]));
                        assert(vs[i] == items(r, c)[k + i]);
                        lemma_same(a, b, vs[i]);
                    }
                    assert(meanings(y, vs) =~= left);
                },
                Items::Range { start, end } => {
                    let n = crate::vm::array::range_count(start as int, end as int);
                    let from = start + (if k <= n {
                        k
                    } else {
                        n
                    });
                    lemma_made_range(a, b, v, from, end as int);
                    assert(counting(from, end as int) =~= left);
                },
            }
        },
        _ => {},
    }
}

/// An array with elements before it.
#[verifier::rlimit(40)]
proof fn lemma_prepend_lists_to(a: Machine, b: Machine, v: Value)
    requires
        settled(a, b, v),
        a.top().pc < a.top().body.instrs@.len(),
        stop_of(a) is None,
        gives(a.instr(), a.scene(), a.heap.record(), b.made@, v),
        a.instr() is ArrayPrepend,
    ensures
        lists_to(a.instr(), locals(a), a.code.abi) == Some(meaning(b.heap.record(), v)),
{
    let (r, m, y) = (a.heap.record(), b.made@, b.heap.record());
    let s = a.scene();
    assert(gives_array(a.instr(), s, r, m, v)) by {
        reveal(gives);
    }
    assert(stops_array(a.instr(), s, r) is None) by {
        reveal(stop_of);
        reveal(stops);
        reveal(computes);
    }
    lemma_look(a, Reg(0));
    b.heap.lemma_record_ok();
    let c = v.spec_cell()->Some_0;
    lemma_made_array(a, b, v, c);
    let vs = items(m, c);
    match a.instr() {
        Instr::ArrayPrepend { dst, front, rest } => {
            lemma_look(a, rest);
            lemma_list(a, s.at(rest));
            let n = front@.len() as int;
            assert forall|i: int| 0 <= i < n implies live(y, #[trigger] s.all_at(front@)[i]) by {
                assert(vs.take(n)[i] == vs[i]);
            }
            lemma_taken(a, b, front@);
            assert forall|i: int| 0 <= i < vs.skip(n).len() implies (#[trigger] vs.skip(n)[i]).ok()
                && live(y, vs.skip(n)[i]) by {
                assert(vs.skip(n)[i] == vs[n + i]);
            }
            lemma_listed(a, b, s.at(rest), vs.skip(n));
            assert(meanings(y, vs) =~= meanings(y, vs.take(n)) + meanings(y, vs.skip(n)));
        },
        _ => {},
    }
}

/// An array with elements behind it.
#[verifier::rlimit(40)]
proof fn lemma_append_lists_to(a: Machine, b: Machine, v: Value)
    requires
        settled(a, b, v),
        a.top().pc < a.top().body.instrs@.len(),
        stop_of(a) is None,
        gives(a.instr(), a.scene(), a.heap.record(), b.made@, v),
        a.instr() is ArrayAppend,
    ensures
        lists_to(a.instr(), locals(a), a.code.abi) == Some(meaning(b.heap.record(), v)),
{
    let (r, m, y) = (a.heap.record(), b.made@, b.heap.record());
    let s = a.scene();
    assert(gives_array(a.instr(), s, r, m, v)) by {
        reveal(gives);
    }
    assert(stops_array(a.instr(), s, r) is None) by {
        reveal(stop_of);
        reveal(stops);
        reveal(computes);
    }
    lemma_look(a, Reg(0));
    b.heap.lemma_record_ok();
    let c = v.spec_cell()->Some_0;
    lemma_made_array(a, b, v, c);
    let vs = items(m, c);
    match a.instr() {
        Instr::ArrayAppend { dst, rest, back } => {
            lemma_look(a, rest);
            lemma_list(a, s.at(rest));
            let n = list_of(r, s.at(rest))->Some_0.count(r);
            assert forall|i: int| 0 <= i < back@.len() implies live(
                y,
                #[trigger] s.all_at(back@)[i],
            ) by {
                assert(vs.skip(n)[i] == vs[n + i]);
            }
            lemma_taken(a, b, back@);
            assert forall|i: int| 0 <= i < vs.take(n).len() implies (#[trigger] vs.take(n)[i]).ok()
                && live(y, vs.take(n)[i]) by {
                assert(vs.take(n)[i] == vs[i]);
            }
            lemma_listed(a, b, s.at(rest), vs.take(n));
            assert(meanings(y, vs) =~= meanings(y, vs.take(n)) + meanings(y, vs.skip(n)));
        },
        _ => {},
    }
}

/// Two arrays joined.
#[verifier::rlimit(40)]
proof fn lemma_concat_lists_to(a: Machine, b: Machine, v: Value)
    requires
        settled(a, b, v),
        a.top().pc < a.top().body.instrs@.len(),
        stop_of(a) is None,
        gives(a.instr(), a.scene(), a.heap.record(), b.made@, v),
        a.instr() is ArrayConcat,
    ensures
        lists_to(a.instr(), locals(a), a.code.abi) == Some(meaning(b.heap.record(), v)),
{
    let (r, m, y) = (a.heap.record(), b.made@, b.heap.record());
    let s = a.scene();
    assert(gives_array(a.instr(), s, r, m, v)) by {
        reveal(gives);
    }
    assert(stops_array(a.instr(), s, r) is None) by {
        reveal(stop_of);
        reveal(stops);
        reveal(computes);
    }
    lemma_look(a, Reg(0));
    b.heap.lemma_record_ok();
    let c = v.spec_cell()->Some_0;
    lemma_made_array(a, b, v, c);
    let vs = items(m, c);
    match a.instr() {
        Instr::ArrayConcat { dst, a: p, b: q } => {
            lemma_look(a, p);
            lemma_look(a, q);
            lemma_list(a, s.at(p));
            lemma_list(a, s.at(q));
            let n = list_of(r, s.at(p))->Some_0.count(r);
            assert forall|i: int| 0 <= i < vs.take(n).len() implies (#[trigger] vs.take(n)[i]).ok()
                && live(y, vs.take(n)[i]) by {
                assert(vs.take(n)[i] == vs[i]);
            }
            assert forall|i: int| 0 <= i < vs.skip(n).len() implies (#[trigger] vs.skip(n)[i]).ok()
                && live(y, vs.skip(n)[i]) by {
                assert(vs.skip(n)[i] == vs[n + i]);
            }
            lemma_listed(a, b, s.at(p), vs.take(n));
            lemma_listed(a, b, s.at(q), vs.skip(n));
            assert(meanings(y, vs) =~= meanings(y, vs.take(n)) + meanings(y, vs.skip(n)));
        },
        _ => {},
    }
}

/// A slice of an array.
#[verifier::rlimit(40)]
proof fn lemma_slice_lists_to(a: Machine, b: Machine, v: Value)
    requires
        settled(a, b, v),
        a.top().pc < a.top().body.instrs@.len(),
        stop_of(a) is None,
        gives(a.instr(), a.scene(), a.heap.record(), b.made@, v),
        a.instr() is ArraySlice,
    ensures
        lists_to(a.instr(), locals(a), a.code.abi) == Some(meaning(b.heap.record(), v)),
{
    let (r, m, y) = (a.heap.record(), b.made@, b.heap.record());
    let s = a.scene();
    assert(gives_array(a.instr(), s, r, m, v)) by {
        reveal(gives);
    }
    assert(stops_array(a.instr(), s, r) is None) by {
        reveal(stop_of);
        reveal(stops);
        reveal(computes);
    }
    lemma_look(a, Reg(0));
    b.heap.lemma_record_ok();
    if let Instr::ArraySlice { dst, src, start, end } = a.instr() {
        lemma_look(a, src);
        lemma_look(a, start);
        lemma_look(a, end);
        lemma_list(a, s.at(src));
        lemma_place(a, s.at(start));
        lemma_place(a, s.at(end));
        let p = int_of(r, s.at(start))->Some_0;
        let q = int_of(r, s.at(end))->Some_0;
        let ds = meaning(r, s.at(src))->Array_0;
        if namable(p) && namable(q) && p <= q <= ds.len() {
            let w = only_field(m, v);
            lemma_wrapped(a, b, v, s.abi.ok, w);
            match list_of(r, s.at(src))->Some_0 {
                Items::Tree(c) => {
                    let d = w.spec_cell()->Some_0;
                    lemma_made_array(a, b, w, d);
                    let vs = items(m, d);
                    assert forall|i: int| 0 <= i < vs.len() implies meaning(y, vs[i])
                        == ds.subrange(p, q)[i] by {
                        assert(vs[i].ok() && live(y, vs[i]));
                        assert(vs[i] == items(r, c)[p + i]);
                        lemma_same(a, b, vs[i]);
                    }
                    assert(meanings(y, vs) =~= ds.subrange(p, q));
                },
                Items::Range { start: from, end: to } => {
                    lemma_made_range(a, b, w, from + p, from + q);
                    assert(counting(from + p, from + q) =~= ds.subrange(p, q));
                },
            }
        } else {
            lemma_wrapped(a, b, v, s.abi.err, nil_value());
            lemma_meaning(y, nil_value());
        }
    }
}

/// An element by its position.
proof fn lemma_index_lists_to(a: Machine, b: Machine, v: Value)
    requires
        settled(a, b, v),
        a.top().pc < a.top().body.instrs@.len(),
        stop_of(a) is None,
        gives(a.instr(), a.scene(), a.heap.record(), b.made@, v),
        a.instr() is ArrayIndex || a.instr() is ArrayIndexOr,
    ensures
        lists_to(a.instr(), locals(a), a.code.abi) == Some(meaning(b.heap.record(), v)),
{
    let (r, m, y) = (a.heap.record(), b.made@, b.heap.record());
    let s = a.scene();
    assert(gives_array(a.instr(), s, r, m, v)) by {
        reveal(gives);
    }
    assert(stops_array(a.instr(), s, r) is None) by {
        reveal(stop_of);
        reveal(stops);
        reveal(computes);
    }
    lemma_look(a, Reg(0));
    b.heap.lemma_record_ok();
    match a.instr() {
        Instr::ArrayIndex { dst, src, index } => {
            lemma_look(a, src);
            lemma_look(a, index);
            lemma_list(a, s.at(src));
            lemma_place(a, s.at(index));
            lemma_meaning(y, v);
            let k = int_of(r, s.at(index))->Some_0;
            if namable(k) && k < meaning(r, s.at(src))->Array_0.len() {
                let w = only_field(m, v);
                lemma_wrapped(a, b, v, s.abi.some, w);
                lemma_read(a, b, s.at(src), k, w);
            }
        },
        Instr::ArrayIndexOr { dst, src, index, default } => {
            lemma_look(a, src);
            lemma_look(a, index);
            lemma_look(a, default);
            lemma_list(a, s.at(src));
            lemma_place(a, s.at(index));
            let k = int_of(r, s.at(index))->Some_0;
            if namable(k) && k < meaning(r, s.at(src))->Array_0.len() {
                lemma_read(a, b, s.at(src), k, v);
            } else {
                lemma_same(a, b, v);
            }
        },
        _ => {},
    }
}

/// An instruction over arrays does what it says: it puts in its register what it
/// comes to, from what the registers hold, and the function goes on behind it
/// with everything else as it was.
pub proof fn law_an_array_instruction_does_what_it_says(a: Machine, b: Machine, ev: Event)
    requires
        steps(a, b, Ok::<Event, Stop>(ev)),
        over_arrays(a.instr()),
        lists_into(a.instr()).0 < locals(a).len(),
    ensures
        ev == Event::Going,
        b.wf(),
        lists_to(a.instr(), locals(a), a.code.abi) matches Some(d) && went_on(
            a,
            b,
            a.top().pc + 1,
            put(locals(a), lists_into(a.instr()), d),
            shared(a),
        ),
{
    let i = a.instr();
    let dst = lists_into(i);
    assert(target(i) == dst) by {
        reveal(target);
    }
    assert(computes(i)) by {
        reveal(computes);
    }
    reveal(stepped);
    let at = a.top().base + dst.0;
    lemma_look(a, dst);
    lemma_look(b, dst);
    let v = b.regs@[at];
    assert(v.ok() && live(b.heap.record(), v));
    lemma_wrote(a, b, dst, v);
    if i is Array || i is Range || i is ArrayLen {
        lemma_new_lists_to(a, b, v);
    } else if i is ArrayElem || i is ArrayDrop {
        lemma_part_lists_to(a, b, v);
    } else if i is ArraySlice {
        lemma_slice_lists_to(a, b, v);
    } else if i is ArrayIndex || i is ArrayIndexOr {
        lemma_index_lists_to(a, b, v);
    } else if i is ArrayPrepend {
        lemma_prepend_lists_to(a, b, v);
    } else if i is ArrayAppend {
        lemma_append_lists_to(a, b, v);
    } else {
        lemma_concat_lists_to(a, b, v);
    }
}

} // verus!
