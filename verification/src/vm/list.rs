//! Arrays as values: a tree of elements, or a range of Ints.

use crate::vm::array::{self, out_of_room, Items, range_count, range_len, seq_of};
use crate::vm::bigint::{int_of, lemma_not_huge, Number};
use crate::vm::cells::{all_ok, handles};
use crate::vm::compute::{ends, int_value};
use crate::vm::heap::Heap;
use crate::vm::nodes::{handle, lemma_handle_one, lemma_handles_add, lemma_no_handles, live};
use crate::vm::record::{Kind, part_of, Record};
use crate::vm::scene::{Fault, gave, share, Stop};
use crate::vm::sound::{array, items, lemma_array_keep, range_end, range_start, sound, valid};
use crate::vm::value::{Cell, Value};
use vstd::multiset::Multiset;
use vstd::prelude::*;

verus! {

/// The array that a value is.
pub open spec fn list_of(r: Record, v: Value) -> Option<Items> {
    match v.spec_cell() {
        Some(c) => seq_of(r, c),
        None => None,
    }
}

/// An operand that should be an array and is none.
pub open spec fn no_list(r: Record, v: Value) -> Option<Stop> {
    if list_of(r, v) is None {
        Some(Stop::BadProgram(Fault::NotAnArray(v)))
    } else {
        None
    }
}

/// The array that a value is, a tree that is one.
pub(crate) fn read_list(heap: &Heap, v: Value) -> (r: Result<Items, Stop>)
    requires
        heap.wf(),
        sound(heap.record()),
        live(heap.record(), v),
    ensures
        match r {
            Ok(l) => list_of(heap.record(), v) == Some(l) && l.is(heap.record()),
            Err(e) => no_list(heap.record(), v) == Some(e),
        },
{
    match v.as_cell() {
        Some(c) => {
            proof {
                assert(heap.record().has(c));
                assert(valid(heap.record(), c));
            }
            match array::seq(heap, c) {
                Some(l) => Ok(l),
                None => Err(Stop::BadProgram(Fault::NotAnArray(v))),
            }
        },
        None => Err(Stop::BadProgram(Fault::NotAnArray(v))),
    }
}

/// How many elements an array has, as a value.
pub(crate) fn length(heap: &mut Heap, v: Value) -> (r: Result<Value, Stop>)
    requires
        old(heap).wf(),
        sound(old(heap).record()),
        live(old(heap).record(), v),
    ensures
        r matches Err(Stop::HeapFull) ==> out_of_room(*final(heap)),
        final(heap).wf(),
        ends(
            old(heap).record(),
            final(heap).record(),
            r,
            no_list(old(heap).record(), v),
        ),
        r matches Ok(w) ==> (list_of(old(heap).record(), v) matches Some(l) && int_of(
            final(heap).record(),
            w,
        ) == Some(l.count(old(heap).record()))),
{
    let l = read_list(heap, v)?;
    let n = l.len(heap);
    proof {
        lemma_not_huge(n as int);
    }
    int_value(heap, Number::from_i128(n as i128))
}

/// Element `i` of an array is `v`: of a tree, the element itself; of a range, an
/// Int made from its start.
pub open spec fn is_item(a: Record, b: Record, l: Items, i: int, v: Value) -> bool {
    match l {
        Items::Tree(c) => v == items(a, c)[i],
        Items::Range { start, end } => int_of(b, v) == Some(start + i),
    }
}

/// Element `i`, with its own reference, or `None` past the end.
pub(crate) fn element(heap: &mut Heap, l: Items, i: usize) -> (r: Result<Option<Value>, Stop>)
    requires
        old(heap).wf(),
        sound(old(heap).record()),
        l.is(old(heap).record()),
    ensures
        r matches Err(Stop::HeapFull) ==> out_of_room(*final(heap)),
        final(heap).wf(),
        part_of(old(heap).record(), final(heap).record()),
        sound(final(heap).record()),
        match r {
            Ok(Some(v)) => {
                &&& i < l.count(old(heap).record())
                &&& gave(old(heap).record(), final(heap).record(), v)
                &&& is_item(old(heap).record(), final(heap).record(), l, i as int, v)
            },
            Ok(None) => final(heap).record() == old(heap).record() && i >= l.count(
                old(heap).record(),
            ),
            Err(e) => e == Stop::HeapFull,
        },
{
    let ghost a = heap.record();
    match l {
        Items::Tree(c) => match array::get(heap, c, i) {
            Some(v) => {
                let w = share(heap, v)?;
                proof {
                    assert(live(heap.record(), v));
                }
                Ok(Some(w))
            },
            None => Ok(None),
        },
        Items::Range { start, end } => {
            if (i as u64) < range_len(start, end) {
                proof {
                    lemma_not_huge(start + i);
                }
                let v = int_value(heap, Number::from_i128(start as i128 + i as i128))?;
                Ok(Some(v))
            } else {
                Ok(None)
            }
        },
    }
}

/// An array's elements are `vs`, each of a range's an Int.
pub open spec fn listed(a: Record, b: Record, l: Items, vs: Seq<Value>) -> bool {
    &&& vs.len() == l.count(a)
    &&& match l {
        Items::Tree(c) => vs == items(a, c),
        Items::Range { start, end } => forall|i: int|
            0 <= i < vs.len() ==> int_of(b, #[trigger] vs[i]) == Some(start + i),
    }
}

/// An Int stays what it is where cells stay.
proof fn lemma_int_keep(a: Record, b: Record, v: Value)
    requires
        part_of(a, b),
        int_of(a, v) is Some,
    ensures
        int_of(b, v) == int_of(a, v),
{
}

/// An array as a tree, with one reference: the tree itself, or a range's Ints
/// built into one.
pub(crate) fn as_tree(heap: &mut Heap, l: Items) -> (r: Result<Cell, Stop>)
    requires
        old(heap).wf(),
        sound(old(heap).record()),
        l.is(old(heap).record()),
    ensures
        r matches Err(Stop::HeapFull) ==> out_of_room(*final(heap)),
        final(heap).wf(),
        part_of(old(heap).record(), final(heap).record()),
        sound(final(heap).record()),
        match r {
            Ok(c) => {
                &&& array(final(heap).record(), c)
                &&& listed(
                    old(heap).record(),
                    final(heap).record(),
                    l,
                    items(final(heap).record(), c),
                )
                &&& final(heap).record().ext == old(heap).record().ext.insert(c)
            },
            Err(e) => e == Stop::HeapFull,
        },
{
    let ghost a = heap.record();
    match l {
        Items::Tree(c) => {
            proof {
                heap.lemma_record_ok();
                assert(a.has(c));
            }
            let v = Value::cell(c);
            let w = share(heap, v)?;
            proof {
                lemma_array_keep(a, heap.record(), c);
                assert(heap.record().ext =~= a.ext.insert(c));
            }
            Ok(c)
        },
        Items::Range { start, end } => {
            let n = range_len(start, end);
            let mut vs: Vec<Value> = Vec::new();
            let mut i: u64 = 0;
            proof {
                lemma_no_handles();
                assert(a.ext.add(Multiset::empty()) =~= a.ext);
            }
            while i < n
                invariant
                    i <= n,
                    n == range_count(start as int, end as int),
                    heap.wf(),
                    a == old(heap).record(),
                    sound(heap.record()),
                    part_of(a, heap.record()),
                    vs@.len() == i,
                    all_ok(vs@),
                    heap.record().ext == a.ext.add(handles(vs@)),
                    forall|k: int|
                        0 <= k < i ==> int_of(heap.record(), #[trigger] vs@[k]) == Some(start + k),
                decreases n - i,
            {
                let ghost now = heap.record();
                let ghost before = vs@;
                proof {
                    lemma_not_huge(start + i);
                }
                let v = int_value(heap, Number::from_i128(start as i128 + i as i128))?;
                vs.push(v);
                proof {
                    let next = heap.record();
                    assert(vs@ =~= before + seq![v]);
                    lemma_handles_add(before, seq![v]);
                    lemma_handle_one(v);
                    assert(next.ext =~= a.ext.add(handles(vs@)));
                    assert forall|k: int| 0 <= k < i + 1 implies int_of(next, #[trigger] vs@[k])
                        == Some(start + k) by {
                        if k < i {
                            assert(vs@[k] == before[k]);
                            assert(int_of(now, before[k]) == Some(start + k));
                            lemma_int_keep(now, next, before[k]);
                        }
                    }
                    assert forall|k: int| 0 <= k < vs@.len() implies (#[trigger] vs@[k]).ok() by {
                        if k < i {
                            assert(vs@[k] == before[k]);
                            assert(before[k].ok());
                        }
                    }
                }
                i += 1;
            }
            let ghost now = heap.record();
            proof {
                assert(handles(vs@).subset_of(now.ext));
            }
            match array::from_values(heap, vs.as_slice()) {
                Ok(c) => {
                    proof {
                        let next = heap.record();
                        assert(next.ext =~= a.ext.insert(c));
                        assert forall|k: int| 0 <= k < vs@.len() implies int_of(
                            next,
                            #[trigger] vs@[k],
                        ) == Some(start + k) by {
                            assert(int_of(now, vs@[k]) == Some(start + k));
                            lemma_int_keep(now, next, vs@[k]);
                        }
                    }
                    Ok(c)
                },
                Err(_) => Err(Stop::HeapFull),
            }
        },
    }
}

/// A position in an array: `None` for an Int that names none, negative or past
/// the end of any array.
pub open spec fn place_of(r: Record, v: Value) -> Option<int> {
    match v.spec_view() {
        crate::vm::value::View::Int(n) => if 0 <= n <= usize::MAX {
            Some(n as int)
        } else {
            None
        },
        _ => None,
    }
}

pub open spec fn no_place(r: Record, v: Value) -> Option<Stop> {
    if int_of(r, v) is None {
        Some(Stop::BadProgram(Fault::Position(v)))
    } else {
        None
    }
}

/// The Int `v` as a position in an array.
pub(crate) fn position(heap: &Heap, v: Value) -> (r: Result<Option<usize>, Stop>)
    requires
        heap.wf(),
        live(heap.record(), v),
    ensures
        match r {
            Ok(Some(i)) => place_of(heap.record(), v) == Some(i as int) && no_place(
                heap.record(),
                v,
            ) is None,
            Ok(None) => place_of(heap.record(), v) is None && no_place(heap.record(), v) is None,
            Err(e) => no_place(heap.record(), v) == Some(e),
        },
{
    match v.view() {
        crate::vm::value::View::Int(n) => {
            if n >= 0 && n as u64 <= usize::MAX as u64 {
                Ok(Some(n as usize))
            } else {
                Ok(None)
            }
        },
        crate::vm::value::View::Cell(c) => {
            proof {
                assert(v.spec_cell() == Some(c));
            }
            if heap.kind(c) == Kind::BigInt {
                Ok(None)
            } else {
                Err(Stop::BadProgram(Fault::Position(v)))
            }
        },
        _ => Err(Stop::BadProgram(Fault::Position(v))),
    }
}

/// What stops a range with this end.
pub open spec fn no_end(r: Record, v: Value) -> Option<Stop> {
    match int_of(r, v) {
        Some(n) => if i64::MIN <= n <= i64::MAX {
            None
        } else {
            Some(Stop::NotBuiltYet(Fault::RangePast64))
        },
        None => Some(Stop::BadProgram(Fault::RangeEnd(v))),
    }
}

/// A range's end as an `i64`.
pub(crate) fn read_end(heap: &Heap, v: Value) -> (r: Result<i64, Stop>)
    requires
        heap.wf(),
        sound(heap.record()),
        live(heap.record(), v),
    ensures
        match r {
            Ok(n) => int_of(heap.record(), v) == Some(n as int) && no_end(heap.record(), v) is None,
            Err(e) => no_end(heap.record(), v) == Some(e),
        },
{
    match v.view() {
        crate::vm::value::View::Int(n) => Ok(n),
        crate::vm::value::View::Cell(c) => {
            proof {
                assert(v.spec_cell() == Some(c));
                assert(heap.record().has(c));
                assert(valid(heap.record(), c));
            }
            if heap.kind(c) == Kind::BigInt {
                match heap.read_big_int(c).to_i64() {
                    Some(n) => Ok(n),
                    None => Err(Stop::NotBuiltYet(Fault::RangePast64)),
                }
            } else {
                Err(Stop::BadProgram(Fault::RangeEnd(v)))
            }
        },
        _ => Err(Stop::BadProgram(Fault::RangeEnd(v))),
    }
}

/// A new range as a value.
pub open spec fn new_range(a: Record, b: Record, v: Value, start: int, end: int) -> bool {
    v.spec_cell() matches Some(c) && !a.has(c) && b.has(c) && b.cells[c].kind is Range
        && b.cells[c].data.len() == 2 && range_start(b.cells[c]) == start && range_end(b.cells[c])
        == end
}

pub(crate) fn range_value(heap: &mut Heap, start: i64, end: i64) -> (r: Result<Value, Stop>)
    requires
        old(heap).wf(),
        sound(old(heap).record()),
    ensures
        r matches Err(Stop::HeapFull) ==> out_of_room(*final(heap)),
        final(heap).wf(),
        ends(old(heap).record(), final(heap).record(), r, None),
        r matches Ok(v) ==> new_range(
            old(heap).record(),
            final(heap).record(),
            v,
            start as int,
            end as int,
        ),
{
    let ghost a = heap.record();
    match array::range(heap, start, end) {
        Ok(c) => {
            let v = Value::cell(c);
            proof {
                assert(heap.record().ext =~= a.ext.add(handle(v)));
            }
            Ok(v)
        },
        Err(_) => Err(Stop::HeapFull),
    }
}

/// An array's cell as a value.
pub(crate) fn tree_value(heap: &Heap, c: Cell, Ghost(a): Ghost<Record>) -> (v: Value)
    requires
        heap.wf(),
        array(heap.record(), c),
        heap.record().ext == a.ext.insert(c),
    ensures
        v.spec_cell() == Some(c),
        gave(a, heap.record(), v),
{
    proof {
        heap.lemma_record_ok();
        assert(heap.record().has(c));
    }
    let v = Value::cell(c);
    proof {
        assert(heap.record().ext =~= a.ext.add(handle(v)));
    }
    v
}

} // verus!
