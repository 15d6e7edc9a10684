//! The instructions over arrays.

use crate::vm::array::{self, out_of_room, Items, lemma_array_live, range_count, range_len};
use crate::vm::bigint::int_of;
use crate::vm::cells::{all_ok, ctor_data, handles, value_words};
use crate::vm::compute::{ends, first_stop, new_cell};
use crate::vm::heap::Heap;
use crate::vm::instr::{Instr, Reg};
use crate::vm::join::lemma_still_live_after;
use crate::vm::list::{
    as_tree, element, is_item, length, list_of, listed, new_range, no_end, no_list, no_place, place_of,
    position, range_value, read_end, read_list, tree_value,
};
use crate::vm::nodes::{
    all_live, handle, lemma_handle_one, lemma_handles_add, lemma_no_handles, live,
};
use crate::vm::record::{Body, keeps, Kind, part_of, Record};
use crate::vm::scene::{Fault, gave, lemma_gave_word, nil_value, Scene, share, Stop};
use crate::vm::sound::{
    array, items, lemma_array_keep, lemma_array_keep_live, lemma_sound_part, lemma_sound_release,
    sound,
};
use crate::vm::tree::End;
use crate::vm::value::{Cell, Value, VariantRef};
use vstd::prelude::*;

verus! {

/// The Ints among some values are the same in both.
pub open spec fn ints_kept(a: Record, b: Record, vs: Seq<Value>) -> bool {
    forall|i: int|
        0 <= i < vs.len() ==> (int_of(a, #[trigger] vs[i]) is Some ==> int_of(b, vs[i]) == int_of(
            a,
            vs[i],
        ))
}

proof fn lemma_ints_part(a: Record, b: Record, vs: Seq<Value>)
    requires
        part_of(a, b),
    ensures
        ints_kept(a, b, vs),
{
    assert forall|i: int| 0 <= i < vs.len() implies (int_of(a, #[trigger] vs[i]) is Some ==> int_of(
        b,
        vs[i],
    ) == int_of(a, vs[i])) by {
        match vs[i].spec_cell() {
            Some(c) => {
                if a.has(c) {
                    assert(b.has(c));
                }
            },
            None => {},
        }
    }
}

proof fn lemma_ints_release(a: Record, b: Record, vs: Seq<Value>)
    requires
        keeps(a, b),
        all_live(b, vs),
    ensures
        ints_kept(a, b, vs),
{
    assert forall|i: int| 0 <= i < vs.len() implies (int_of(a, #[trigger] vs[i]) is Some ==> int_of(
        b,
        vs[i],
    ) == int_of(a, vs[i])) by {
        assert(live(b, vs[i]));
        match vs[i].spec_cell() {
            Some(c) => {
                if a.has(c) {
                    assert(b.has(c));
                }
            },
            None => {},
        }
    }
}

proof fn lemma_ints_then(a: Record, b: Record, c: Record, vs: Seq<Value>)
    requires
        ints_kept(a, b, vs),
        ints_kept(b, c, vs),
    ensures
        ints_kept(a, c, vs),
{
    assert forall|i: int| 0 <= i < vs.len() implies (int_of(a, #[trigger] vs[i]) is Some ==> int_of(
        c,
        vs[i],
    ) == int_of(a, vs[i])) by {
        if int_of(a, vs[i]) is Some {
            assert(int_of(b, vs[i]) == int_of(a, vs[i]));
        }
    }
}

/// What a list was, it is still.
proof fn lemma_listed_kept(a: Record, m: Record, b: Record, l: Items, vs: Seq<Value>)
    requires
        listed(a, m, l, vs),
        ints_kept(m, b, vs),
    ensures
        listed(a, b, l, vs),
{
    match l {
        Items::Range { start, end } => {
            assert forall|i: int| 0 <= i < vs.len() implies int_of(b, #[trigger] vs[i]) == Some(
                start + i,
            ) by {
                assert(int_of(m, vs[i]) == Some(start + i));
            }
        },
        Items::Tree(_) => {},
    }
}

/// Some of a list's values.
proof fn lemma_ints_some(a: Record, b: Record, all: Seq<Value>, from: int, vs: Seq<Value>)
    requires
        ints_kept(a, b, all),
        0 <= from,
        from + vs.len() <= all.len(),
        vs == all.subrange(from, from + vs.len()),
    ensures
        ints_kept(a, b, vs),
{
    assert forall|i: int| 0 <= i < vs.len() implies (int_of(a, #[trigger] vs[i]) is Some ==> int_of(
        b,
        vs[i],
    ) == int_of(a, vs[i])) by {
        assert(vs[i] == all[from + i]);
    }
}

/// `pushed` of `vs` at an end, in order: those done are the last at the front,
/// and the first at the back.
pub open spec fn pushed(end: End, vs: Seq<Value>, k: int, rest: Seq<Value>) -> Seq<Value> {
    match end {
        End::Front => vs.skip(vs.len() - k) + rest,
        End::Back => rest + vs.take(k),
    }
}

/// The ones still to push.
pub open spec fn unpushed(end: End, vs: Seq<Value>, k: int) -> Seq<Value> {
    match end {
        End::Front => vs.take(vs.len() - k),
        End::Back => vs.skip(k),
    }
}

/// The owned array `a` with each of the owned `vs` pushed at `end`, so that they
/// stand there in order.
#[verifier::rlimit(40)]
fn push_all(heap: &mut Heap, a: Cell, vs: &Vec<Value>, end: End, Ghost(base): Ghost<Record>) -> (r: Result<
    Cell,
    Stop,
>)
    requires
        old(heap).wf(),
        sound(old(heap).record()),
        base.ok(),
        part_of(base, old(heap).record()),
        array(old(heap).record(), a),
        all_ok(vs@),
        old(heap).record().ext == base.ext.insert(a).add(handles(vs@)),
    ensures
        r matches Err(Stop::HeapFull) ==> out_of_room(*final(heap)),
        final(heap).wf(),
        sound(final(heap).record()),
        part_of(base, final(heap).record()),
        match r {
            Ok(c) => {
                &&& array(final(heap).record(), c)
                &&& items(final(heap).record(), c) == pushed(
                    end,
                    vs@,
                    vs@.len() as int,
                    items(old(heap).record(), a),
                )
                &&& ints_kept(
                    old(heap).record(),
                    final(heap).record(),
                    items(old(heap).record(), a),
                )
                &&& final(heap).record().ext == base.ext.insert(c)
            },
            Err(e) => e == Stop::HeapFull,
        },
{
    let ghost first = heap.record();
    let ghost old_items = items(first, a);
    let n: usize = vs.len();
    let mut cur = a;
    let mut k: usize = 0;
    proof {
        assert(unpushed(end, vs@, 0) =~= vs@);
        assert(pushed(end, vs@, 0, old_items) =~= old_items);
        lemma_ints_part(first, first, old_items);
    }
    while k < n
        invariant
            n == vs@.len(),
            k <= n,
            heap.wf(),
            sound(heap.record()),
            first == old(heap).record(),
            old_items == items(first, a),
            base.ok(),
            part_of(base, heap.record()),
            array(heap.record(), cur),
            all_ok(vs@),
            items(heap.record(), cur) == pushed(end, vs@, k as int, old_items),
            ints_kept(first, heap.record(), old_items),
            heap.record().ext == base.ext.insert(cur).add(handles(unpushed(end, vs@, k as int))),
        decreases n - k,
    {
        let ghost now = heap.record();
        let x = match end {
            End::Front => vs[n - 1 - k],
            End::Back => vs[k],
        };
        proof {
            lemma_unpushed(end, vs@, k as int);
            assert(handle(x).subset_of(now.ext));
        }
        let next = match array::push(heap, cur, x, end) {
            Ok(c) => c,
            Err(_) => {
                return Err(Stop::HeapFull);
            },
        };
        let ghost mid = heap.record();
        proof {
            assert(mid.ext.count(cur) > 0);
        }
        heap.release(cur);
        proof {
            let after = heap.record();
            heap.lemma_record_ok();
            assert(after.ext =~= base.ext.insert(next).add(handles(unpushed(end, vs@, k + 1))));
            assert(after.ext.count(next) > 0);
            assert(after.has(next));
            lemma_array_keep_live(mid, after, next);
            lemma_sound_release(mid, after);
            assert(part_of(base, mid));
            lemma_still_live_after(base, mid, after);
            assert(items(after, next) =~= pushed(end, vs@, k + 1, old_items));
            lemma_array_live(after, next);
            lemma_rest_live(after, end, vs@, k + 1, old_items);
            lemma_ints_part(now, mid, old_items);
            lemma_ints_release(mid, after, old_items);
            lemma_ints_then(first, now, mid, old_items);
            lemma_ints_then(first, mid, after, old_items);
        }
        cur = next;
        k += 1;
    }
    proof {
        assert(unpushed(end, vs@, n as int) =~= Seq::empty());
        lemma_no_handles();
        assert(heap.record().ext =~= base.ext.insert(cur));
    }
    Ok(cur)
}

proof fn lemma_rest_live(r: Record, end: End, vs: Seq<Value>, k: int, rest: Seq<Value>)
    requires
        0 <= k <= vs.len(),
        all_live(r, pushed(end, vs, k, rest)),
    ensures
        all_live(r, rest),
{
    let all = pushed(end, vs, k, rest);
    assert forall|i: int| 0 <= i < rest.len() implies live(r, #[trigger] rest[i]) by {
        match end {
            End::Front => {
                assert(all[k + i] == rest[i]);
            },
            End::Back => {
                assert(all[i] == rest[i]);
            },
        }
    }
}

proof fn lemma_unpushed(end: End, vs: Seq<Value>, k: int)
    requires
        0 <= k < vs.len(),
    ensures
        ({
            let x = match end {
                End::Front => vs[vs.len() - 1 - k],
                End::Back => vs[k],
            };
            handles(unpushed(end, vs, k)) == handles(unpushed(end, vs, k + 1)).add(handle(x))
        }),
{
    match end {
        End::Front => {
            let x = vs[vs.len() - 1 - k];
            assert(unpushed(end, vs, k) =~= unpushed(end, vs, k + 1) + seq![x]);
            lemma_handles_add(unpushed(end, vs, k + 1), seq![x]);
            lemma_handle_one(x);
        },
        End::Back => {
            let x = vs[k];
            assert(unpushed(end, vs, k) =~= seq![x] + unpushed(end, vs, k + 1));
            lemma_handles_add(seq![x], unpushed(end, vs, k + 1));
            lemma_handle_one(x);
            assert(handles(unpushed(end, vs, k)) =~= handles(unpushed(end, vs, k + 1)).add(handle(x)));
        },
    }
}

/// An array with the values of registers at one end.
#[verifier::rlimit(60)]
#[verifier::spinoff_prover]
fn extended(heap: &mut Heap, s: &Scene, src: Reg, more: &Vec<Reg>, end: End) -> (r: Result<
    Value,
    Stop,
>)
    requires
        old(heap).wf(),
        sound(old(heap).record()),
        s.ok(old(heap).record()),
    ensures
        r matches Err(Stop::HeapFull) ==> out_of_room(*final(heap)),
        final(heap).wf(),
        ends(
            old(heap).record(),
            final(heap).record(),
            r,
            no_list(old(heap).record(), s.at(src)),
        ),
        r matches Ok(v) ==> gives_extended(
            s.at(src),
            s.all_at(more@),
            end,
            old(heap).record(),
            final(heap).record(),
            v,
        ),
{
    let ghost a = heap.record();
    proof {
        heap.lemma_record_ok();
        s.lemma_at(a, src);
    }
    let l = read_list(heap, s.get(src))?;
    let t = as_tree(heap, l)?;
    let ghost one = heap.record();
    proof {
        s.lemma_keep(a, one);
    }
    let vs = s.args(heap, more)?;
    let ghost two = heap.record();
    proof {
        s.lemma_all_at(a, more@);
        lemma_array_keep(one, two, t);
        assert(two.ext =~= a.ext.insert(t).add(handles(vs@)));
        lemma_ints_part(one, two, items(one, t));
    }
    let c = push_all(heap, t, &vs, end, Ghost(a))?;
    let v = tree_value(heap, c, Ghost(a));
    proof {
        let b = heap.record();
        let old_items = items(one, t);
        lemma_ints_then(one, two, b, old_items);
        lemma_listed_kept(a, one, b, l, old_items);
        let all = items(b, c);
        let n = vs@.len() as int;
        match end {
            End::Front => {
                assert(all.skip(n) =~= old_items);
                assert(all.take(n) =~= vs@);
            },
            End::Back => {
                assert(all.take(old_items.len() as int) =~= old_items);
                assert(all.skip(old_items.len() as int) =~= vs@);
            },
        }
    }
    Ok(v)
}

/// An array that has `vs` at `end` of the array `src`.
pub open spec fn gives_extended(
    src: Value,
    vs: Seq<Value>,
    end: End,
    a: Record,
    b: Record,
    v: Value,
) -> bool {
    list_of(a, src) matches Some(l) && v.spec_cell() matches Some(c) && array(b, c) && {
        let all = items(b, c);
        let n = match end {
            End::Front => vs.len() as int,
            End::Back => l.count(a),
        };
        &&& all.len() == vs.len() + l.count(a)
        &&& match end {
            End::Front => all.take(n) == vs && listed(a, b, l, all.skip(n)),
            End::Back => listed(a, b, l, all.take(n)) && all.skip(n) == vs,
        }
    }
}

/// A joined array, once the two that it was joined from are given up.
#[verifier::rlimit(60)]
proof fn lemma_joined(
    a: Record,
    one: Record,
    two: Record,
    three: Record,
    four: Record,
    b: Record,
    l: Items,
    m: Items,
    p: Cell,
    q: Cell,
    c: Cell,
)
    requires
        b.ok(),
        four.ok(),
        sound(four),
        l.is(a),
        m.is(a),
        part_of(a, one),
        part_of(one, two),
        part_of(two, three),
        part_of(four, three),
        keeps(three, four),
        part_of(b, four),
        keeps(four, b),
        a.ok(),
        b.ext == a.ext.insert(c),
        array(one, p),
        array(two, p),
        array(two, q),
        array(three, c),
        array(four, c),
        items(two, p) == items(one, p),
        items(three, c) == items(two, p) + items(two, q),
        items(four, c) == items(three, c),
        listed(a, one, l, items(one, p)),
        listed(one, two, m, items(two, q)),
        m.count(one) == m.count(a),
    ensures
        part_of(a, b),
        sound(b),
        array(b, c),
        b.has(c),
        ({
            let all = items(b, c);
            &&& all.len() == l.count(a) + m.count(a)
            &&& listed(a, b, l, all.take(l.count(a)))
            &&& listed(a, b, m, all.skip(l.count(a)))
        }),
{
    assert(b.ext.count(c) > 0);
    assert(b.has(c));
    lemma_sound_release(four, b);
    lemma_array_keep_live(four, b, c);
    lemma_array_live(b, c);
    let ps = items(two, p);
    let qs = items(two, q);
    let all = items(b, c);
    assert(all == ps + qs);
    lemma_ints_part(two, three, all);
    lemma_array_live(four, c);
    lemma_ints_release(three, four, all);
    lemma_ints_release(four, b, all);
    lemma_ints_then(two, three, four, all);
    lemma_ints_then(two, four, b, all);
    assert(all.subrange(0, ps.len() as int) =~= ps);
    assert(all.subrange(ps.len() as int, (ps.len() + qs.len()) as int) =~= qs);
    lemma_ints_some(two, b, all, 0, ps);
    lemma_ints_some(two, b, all, ps.len() as int, qs);
    lemma_ints_part(one, two, items(one, p));
    lemma_listed_kept(a, one, two, l, ps);
    lemma_listed_kept(a, two, b, l, ps);
    lemma_listed_over(a, one, two, m, qs);
    lemma_listed_kept(a, two, b, m, qs);
    assert(all.take(l.count(a)) =~= ps);
    assert(all.skip(l.count(a)) =~= qs);
    assert(part_of(a, three));
    assert forall|d: Cell| #[trigger] a.ext.count(d) > 0 implies b.has(d) by {
        assert(b.ext.count(d) > 0);
        assert(b.has(d));
    }
    assert forall|d: Cell| #[trigger] a.has(d) && b.has(d) implies b.cells[d] == a.cells[d] by {
        assert(three.has(d));
        assert(four.has(d));
    }
    crate::vm::nodes::lemma_still_live(a, b);
}

/// Two arrays joined.
fn joined(heap: &mut Heap, x: Value, y: Value) -> (r: Result<Value, Stop>)
    requires
        old(heap).wf(),
        sound(old(heap).record()),
        x.ok(),
        y.ok(),
        live(old(heap).record(), x),
        live(old(heap).record(), y),
    ensures
        r matches Err(Stop::HeapFull) ==> out_of_room(*final(heap)),
        final(heap).wf(),
        ends(
            old(heap).record(),
            final(heap).record(),
            r,
            first_stop(no_list(old(heap).record(), x), no_list(old(heap).record(), y)),
        ),
        r matches Ok(v) ==> gives_joined(x, y, old(heap).record(), final(heap).record(), v),
{
    let ghost a = heap.record();
    proof {
        heap.lemma_record_ok();
    }
    let l = read_list(heap, x)?;
    let m = read_list(heap, y)?;
    let p = as_tree(heap, l)?;
    let ghost one = heap.record();
    proof {
        lemma_list_keep(a, one, m);
    }
    let q = as_tree(heap, m)?;
    let ghost two = heap.record();
    proof {
        lemma_array_keep(one, two, p);
    }
    let made = array::concat(heap, p, q);
    let ghost three = heap.record();
    let c = match made {
        Ok(c) => c,
        Err(_) => {
            return Err(Stop::HeapFull);
        },
    };
    proof {
        assert(three.ext =~= a.ext.insert(p).insert(q).insert(c));
        assert(three.ext.count(p) > 0);
    }
    heap.release(p);
    let ghost four = heap.record();
    proof {
        heap.lemma_record_ok();
        assert(four.ext =~= a.ext.insert(q).insert(c));
        assert(four.ext.count(q) > 0);
        assert(four.ext.count(c) > 0);
        assert(four.has(c));
        lemma_sound_release(three, four);
        lemma_array_keep_live(three, four, c);
    }
    heap.release(q);
    proof {
        heap.lemma_record_ok();
        assert(heap.record().ext =~= a.ext.insert(c));
        lemma_joined(a, one, two, three, four, heap.record(), l, m, p, q, c);
    }
    Ok(tree_value(heap, c, Ghost(a)))
}

/// A list that is one stays one.
proof fn lemma_list_keep(a: Record, b: Record, l: Items)
    requires
        part_of(a, b),
        l.is(a),
    ensures
        l.is(b),
        l.count(b) == l.count(a),
{
    match l {
        Items::Tree(c) => {
            lemma_array_keep(a, b, c);
        },
        Items::Range { .. } => {},
    }
}

/// A list seen before more was made.
proof fn lemma_listed_over(a: Record, m: Record, b: Record, l: Items, vs: Seq<Value>)
    requires
        part_of(a, m),
        l.is(a),
        listed(m, b, l, vs),
    ensures
        listed(a, b, l, vs),
{
    match l {
        Items::Tree(c) => {
            lemma_array_keep(a, m, c);
        },
        Items::Range { .. } => {},
    }
}

/// An array of `x`'s elements, then `y`'s.
pub open spec fn gives_joined(x: Value, y: Value, a: Record, b: Record, v: Value) -> bool {
    list_of(a, x) matches Some(l) && list_of(a, y) matches Some(m) && v.spec_cell() matches Some(c)
        && array(b, c) && {
        let all = items(b, c);
        &&& all.len() == l.count(a) + m.count(a)
        &&& listed(a, b, l, all.take(l.count(a)))
        &&& listed(a, b, m, all.skip(l.count(a)))
    }
}

/// How many elements to drop.
pub open spec fn drop_count(v: Value) -> Option<int> {
    match v.spec_view() {
        crate::vm::value::View::Int(n) => if n >= 0 {
            Some(n as int)
        } else {
            None
        },
        _ => None,
    }
}

/// An array without its first elements.
pub open spec fn gives_dropped(x: Value, n: int, a: Record, b: Record, v: Value) -> bool {
    match list_of(a, x) {
        Some(Items::Tree(c)) => v.spec_cell() matches Some(d) && array(b, d) && items(b, d) == if n
            <= items(a, c).len() {
            items(a, c).skip(n)
        } else {
            Seq::empty()
        },
        Some(Items::Range { start, end }) => new_range(
            a,
            b,
            v,
            start + (if n <= range_count(start as int, end as int) {
                n
            } else {
                range_count(start as int, end as int)
            }),
            end as int,
        ),
        None => false,
    }
}

fn dropped(heap: &mut Heap, x: Value, count: Value) -> (r: Result<Value, Stop>)
    requires
        old(heap).wf(),
        sound(old(heap).record()),
        x.ok(),
        live(old(heap).record(), x),
    ensures
        r matches Err(Stop::HeapFull) ==> out_of_room(*final(heap)),
        final(heap).wf(),
        ends(
            old(heap).record(),
            final(heap).record(),
            r,
            first_stop(
                no_list(old(heap).record(), x),
                if drop_count(count) is None {
                    Some(Stop::BadProgram(Fault::DropCount(count)))
                } else {
                    None
                },
            ),
        ),
        r matches Ok(v) ==> (drop_count(count) matches Some(n) && gives_dropped(
            x,
            n,
            old(heap).record(),
            final(heap).record(),
            v,
        )),
{
    let ghost a = heap.record();
    let l = read_list(heap, x)?;
    let n: i64 = match count.view() {
        crate::vm::value::View::Int(n) => {
            if n < 0 {
                return Err(Stop::BadProgram(Fault::DropCount(count)));
            }
            n
        },
        _ => {
            return Err(Stop::BadProgram(Fault::DropCount(count)));
        },
    };
    match l {
        Items::Tree(c) => {
            let few: usize = if n as u64 <= usize::MAX as u64 {
                n as usize
            } else {
                usize::MAX
            };
            let size = array::len(heap, c);
            match array::skip(heap, c, few) {
                Ok(d) => {
                    proof {
                        let all = items(a, c);
                        assert(all.len() <= usize::MAX);
                        if few < n {
                            assert(all.len() == few ==> all.skip(few as int) =~= Seq::empty());
                        }
                    }
                    Ok(tree_value(heap, d, Ghost(a)))
                },
                Err(_) => Err(Stop::HeapFull),
            }
        },
        Items::Range { start, end } => {
            let size = range_len(start, end);
            let few: u64 = if n as u64 <= size {
                n as u64
            } else {
                size
            };
            range_value(heap, (start as i128 + few as i128) as i64, end)
        },
    }
}

/// A constructor over one owned value.
fn wrapped(heap: &mut Heap, variant: VariantRef, w: Value, Ghost(a): Ghost<Record>) -> (r: Result<
    Value,
    Stop,
>)
    requires
        old(heap).wf(),
        sound(old(heap).record()),
        part_of(a, old(heap).record()),
        gave(a, old(heap).record(), w),
    ensures
        r matches Err(Stop::HeapFull) ==> out_of_room(*final(heap)),
        final(heap).wf(),
        part_of(old(heap).record(), final(heap).record()),
        ends(a, final(heap).record(), r, None),
        r matches Ok(v) ==> new_cell(
            a,
            final(heap).record(),
            v,
            Kind::Ctor,
            ctor_data(variant, seq![w]),
        ),
{
    let ghost m = heap.record();
    let fields: Vec<Value> = vec![w];
    proof {
        assert(fields@ =~= seq![w]);
        lemma_handle_one(w);
        assert(handles(fields@).subset_of(m.ext));
        crate::vm::cells::lemma_held(
            Kind::Ctor,
            crate::vm::value::variant_bits(variant),
            fields@,
        );
    }
    match heap.ctor(variant, fields.as_slice()) {
        Ok(c) => {
            let v = Value::cell(c);
            proof {
                let b = heap.record();
                let body = Body { kind: Kind::Ctor, data: ctor_data(variant, fields@) };
                assert(b.cells[c] == body);
                assert(body.refs().to_multiset() == handle(w));
                assert forall|d: Cell| #[trigger] m.has(d) implies b.has(d) && m.cells[d]
                    == b.cells[d] by {}
                lemma_sound_part(m, b);
                assert(b.ext =~= a.ext.add(handle(v)));
                if a.has(c) {
                    assert(m.has(c));
                }
            }
            Ok(v)
        },
        Err(_) => Err(Stop::HeapFull),
    }
}

/// A part of an array that is inside it.
pub open spec fn inside(a: Record, l: Items, start: Option<int>, end: Option<int>) -> bool {
    start matches Some(p) && end matches Some(q) && p <= q <= l.count(a)
}

/// What is held by a constructor of one field.
pub open spec fn wraps(a: Record, b: Record, v: Value, variant: VariantRef, w: Value) -> bool {
    new_cell(a, b, v, Kind::Ctor, ctor_data(variant, seq![w]))
}

/// The value in a new constructor's one field.
pub open spec fn only_field(b: Record, v: Value) -> Value {
    Value { bits: crate::vm::compute::body_of(b, v).data[1] }
}

/// A slice: `Ok` of it, or `Err` when it is not inside the array.
pub open spec fn gives_slice(s: Scene, x: Value, p: Value, q: Value, a: Record, b: Record, v: Value) -> bool {
    let from = place_of(a, p);
    let to = place_of(a, q);
    list_of(a, x) matches Some(l) && if inside(a, l, from, to) {
        let w = only_field(b, v);
        &&& wraps(a, b, v, s.abi.ok, w)
        &&& match l {
            Items::Tree(c) => w.spec_cell() matches Some(d) && array(b, d) && items(b, d) == items(
                a,
                c,
            ).subrange(from->Some_0, to->Some_0),
            Items::Range { start, end } => new_range(
                a,
                b,
                w,
                start + from->Some_0,
                start + to->Some_0,
            ),
        }
    } else {
        wraps(a, b, v, s.abi.err, nil_value())
    }
}

proof fn lemma_only_field(b: Record, v: Value, variant: VariantRef, w: Value, a: Record)
    requires
        wraps(a, b, v, variant, w),
    ensures
        only_field(b, v) == w,
{
    let d = ctor_data(variant, seq![w]);
    assert(d[1] == value_words(seq![w])[0]);
}

fn sliced(heap: &mut Heap, s: &Scene, x: Value, p: Value, q: Value) -> (r: Result<Value, Stop>)
    requires
        old(heap).wf(),
        sound(old(heap).record()),
        x.ok(),
        live(old(heap).record(), x),
        live(old(heap).record(), p),
        live(old(heap).record(), q),
    ensures
        r matches Err(Stop::HeapFull) ==> out_of_room(*final(heap)),
        final(heap).wf(),
        ends(
            old(heap).record(),
            final(heap).record(),
            r,
            first_stop(
                no_list(old(heap).record(), x),
                first_stop(no_place(old(heap).record(), p), no_place(old(heap).record(), q)),
            ),
        ),
        r matches Ok(v) ==> gives_slice(
            *s,
            x,
            p,
            q,
            old(heap).record(),
            final(heap).record(),
            v,
        ),
{
    let ghost a = heap.record();
    let l = read_list(heap, x)?;
    let from = position(heap, p)?;
    let to = position(heap, q)?;
    let cut: Option<Value> = match (l, from, to) {
        (Items::Tree(c), Some(i), Some(j)) => match array::slice(heap, c, i, j) {
            Ok(Some(d)) => Some(tree_value(heap, d, Ghost(a))),
            Ok(None) => None,
            Err(_) => {
                return Err(Stop::HeapFull);
            },
        },
        (Items::Range { start, end }, Some(i), Some(j)) => {
            if i <= j && j as u64 <= range_len(start, end) {
                Some(
                    range_value(
                        heap,
                        (start as i128 + i as i128) as i64,
                        (start as i128 + j as i128) as i64,
                    )?,
                )
            } else {
                None
            }
        },
        _ => None,
    };
    let ghost m = heap.record();
    match cut {
        Some(w) => {
            let r = wrapped(heap, s.abi.ok, w, Ghost(a))?;
            proof {
                let b = heap.record();
                lemma_only_field(b, r, s.abi.ok, w, a);
                match l {
                    Items::Tree(_) => {
                        lemma_array_keep(m, b, w.spec_cell()->Some_0);
                    },
                    Items::Range { .. } => {
                        assert(m.has(w.spec_cell()->Some_0));
                    },
                }
            }
            Ok(r)
        },
        None => {
            let nil = Value { bits: 0xFFFA_0000_0000_0000 };
            proof {
                lemma_gave_word(a, nil);
            }
            wrapped(heap, s.abi.err, nil, Ghost(a))
        },
    }
}

/// An element by its position.
pub open spec fn found(a: Record, b: Record, x: Value, p: Value, w: Value) -> bool {
    list_of(a, x) matches Some(l) && place_of(a, p) matches Some(i) && i < l.count(a) && is_item(
        a,
        b,
        l,
        i,
        w,
    )
}

pub open spec fn not_there(a: Record, x: Value, p: Value) -> bool {
    list_of(a, x) matches Some(l) && (place_of(a, p) matches Some(i) ==> i >= l.count(a))
}

/// Element `p` of the array `x`, with its own reference, or `None` when it has
/// none.
fn indexed(heap: &mut Heap, x: Value, p: Value) -> (r: Result<Option<Value>, Stop>)
    requires
        old(heap).wf(),
        sound(old(heap).record()),
        x.ok(),
        live(old(heap).record(), x),
        live(old(heap).record(), p),
    ensures
        r matches Err(Stop::HeapFull) ==> out_of_room(*final(heap)),
        final(heap).wf(),
        sound(final(heap).record()),
        part_of(old(heap).record(), final(heap).record()),
        match r {
            Ok(Some(w)) => {
                &&& gave(old(heap).record(), final(heap).record(), w)
                &&& found(old(heap).record(), final(heap).record(), x, p, w)
                &&& first_stop(
                    no_list(old(heap).record(), x),
                    no_place(old(heap).record(), p),
                ) is None
            },
            Ok(None) => {
                &&& final(heap).record() == old(heap).record()
                &&& not_there(old(heap).record(), x, p)
                &&& first_stop(
                    no_list(old(heap).record(), x),
                    no_place(old(heap).record(), p),
                ) is None
            },
            Err(e) => e == Stop::HeapFull || first_stop(
                no_list(old(heap).record(), x),
                no_place(old(heap).record(), p),
            ) == Some(e),
        },
{
    let l = read_list(heap, x)?;
    match position(heap, p)? {
        Some(i) => element(heap, l, i),
        None => Ok(None),
    }
}

pub open spec fn over_arrays(i: Instr) -> bool {
    i is Array || i is Range || i is ArrayLen || i is ArrayElem || i is ArrayDrop || i is ArrayPrepend
        || i is ArrayAppend || i is ArrayConcat || i is ArraySlice || i is ArrayIndex
        || i is ArrayIndexOr
}

pub open spec fn gives_array(i: Instr, s: Scene, a: Record, b: Record, v: Value) -> bool {
    match i {
        Instr::Array { dst, elements } => v.spec_cell() matches Some(c) && array(b, c) && items(b, c)
            == s.all_at(elements@),
        Instr::Range { dst, start, end } => int_of(a, s.at(start)) matches Some(p) && int_of(
            a,
            s.at(end),
        ) matches Some(q) && new_range(a, b, v, p, q),
        Instr::ArrayLen { dst, src } => list_of(a, s.at(src)) matches Some(l) && int_of(b, v)
            == Some(l.count(a)),
        Instr::ArrayElem { dst, src, index } => list_of(a, s.at(src)) matches Some(l) && index
            < l.count(a) && is_item(a, b, l, index as int, v),
        Instr::ArrayDrop { dst, src, n } => drop_count(s.at(n)) matches Some(k) && gives_dropped(
            s.at(src),
            k,
            a,
            b,
            v,
        ),
        Instr::ArrayPrepend { dst, front, rest } => gives_extended(
            s.at(rest),
            s.all_at(front@),
            End::Front,
            a,
            b,
            v,
        ),
        Instr::ArrayAppend { dst, rest, back } => gives_extended(
            s.at(rest),
            s.all_at(back@),
            End::Back,
            a,
            b,
            v,
        ),
        Instr::ArrayConcat { dst, a: x, b: y } => gives_joined(s.at(x), s.at(y), a, b, v),
        Instr::ArraySlice { dst, src, start, end } => gives_slice(
            s,
            s.at(src),
            s.at(start),
            s.at(end),
            a,
            b,
            v,
        ),
        Instr::ArrayIndex { dst, src, index } => if not_there(a, s.at(src), s.at(index)) {
            v.spec_view() == crate::vm::value::View::Nullary(s.abi.none)
        } else {
            wraps(a, b, v, s.abi.some, only_field(b, v)) && found(
                a,
                b,
                s.at(src),
                s.at(index),
                only_field(b, v),
            )
        },
        Instr::ArrayIndexOr { dst, src, index, default } => if not_there(
            a,
            s.at(src),
            s.at(index),
        ) {
            v == s.at(default)
        } else {
            found(a, b, s.at(src), s.at(index), v)
        },
        _ => false,
    }
}

pub open spec fn stops_array(i: Instr, s: Scene, a: Record) -> Option<Stop> {
    match i {
        Instr::Range { dst, start, end } => first_stop(no_end(a, s.at(start)), no_end(a, s.at(end))),
        Instr::ArrayLen { dst, src } => no_list(a, s.at(src)),
        Instr::ArrayElem { dst, src, index } => match list_of(a, s.at(src)) {
            Some(l) => if index < l.count(a) {
                None
            } else {
                Some(Stop::BadProgram(Fault::NoItem(index)))
            },
            None => Some(Stop::BadProgram(Fault::NotAnArray(s.at(src)))),
        },
        Instr::ArrayDrop { dst, src, n } => first_stop(
            no_list(a, s.at(src)),
            if drop_count(s.at(n)) is None {
                Some(Stop::BadProgram(Fault::DropCount(s.at(n))))
            } else {
                None
            },
        ),
        Instr::ArrayPrepend { dst, front, rest } => no_list(a, s.at(rest)),
        Instr::ArrayAppend { dst, rest, back } => no_list(a, s.at(rest)),
        Instr::ArrayConcat { dst, a: x, b: y } => first_stop(
            no_list(a, s.at(x)),
            no_list(a, s.at(y)),
        ),
        Instr::ArraySlice { dst, src, start, end } => first_stop(
            no_list(a, s.at(src)),
            first_stop(no_place(a, s.at(start)), no_place(a, s.at(end))),
        ),
        Instr::ArrayIndex { dst, src, index } => first_stop(
            no_list(a, s.at(src)),
            no_place(a, s.at(index)),
        ),
        Instr::ArrayIndexOr { dst, src, index, default } => first_stop(
            no_list(a, s.at(src)),
            no_place(a, s.at(index)),
        ),
        _ => None,
    }
}

/// An array of the values of registers.
fn gathered(heap: &mut Heap, s: &Scene, elements: &Vec<Reg>) -> (r: Result<Value, Stop>)
    requires
        old(heap).wf(),
        sound(old(heap).record()),
        s.ok(old(heap).record()),
    ensures
        r matches Err(Stop::HeapFull) ==> out_of_room(*final(heap)),
        final(heap).wf(),
        ends(old(heap).record(), final(heap).record(), r, None),
        r matches Ok(v) ==> (v.spec_cell() matches Some(c) && array(final(heap).record(), c)
            && items(final(heap).record(), c) == s.all_at(elements@)),
{
    let ghost a = heap.record();
    let vs = s.args(heap, elements)?;
    let ghost m = heap.record();
    proof {
        s.lemma_all_at(a, elements@);
        assert(handles(vs@).subset_of(m.ext));
    }
    match array::from_values(heap, vs.as_slice()) {
        Ok(c) => {
            proof {
                assert(heap.record().ext =~= a.ext.insert(c));
            }
            Ok(tree_value(heap, c, Ghost(a)))
        },
        Err(_) => Err(Stop::HeapFull),
    }
}

/// Run an instruction over arrays.
pub(crate) fn compute_array(heap: &mut Heap, s: &Scene, i: &Instr) -> (r: Result<Value, Stop>)
    requires
        old(heap).wf(),
        sound(old(heap).record()),
        s.ok(old(heap).record()),
        over_arrays(*i),
    ensures
        r matches Err(Stop::HeapFull) ==> out_of_room(*final(heap)),
        final(heap).wf(),
        ends(
            old(heap).record(),
            final(heap).record(),
            r,
            stops_array(*i, *s, old(heap).record()),
        ),
        r matches Ok(v) ==> gives_array(*i, *s, old(heap).record(), final(heap).record(), v),
{
    let ghost a = heap.record();
    match i {
        Instr::Array { dst, elements } => gathered(heap, s, elements),
        Instr::Range { dst, start, end } => {
            proof {
                s.lemma_at(a, *start);
                s.lemma_at(a, *end);
            }
            let p = read_end(heap, s.get(*start))?;
            let q = read_end(heap, s.get(*end))?;
            range_value(heap, p, q)
        },
        Instr::ArrayLen { dst, src } => {
            proof {
                s.lemma_at(a, *src);
            }
            length(heap, s.get(*src))
        },
        Instr::ArrayElem { dst, src, index } => {
            proof {
                s.lemma_at(a, *src);
            }
            let l = read_list(heap, s.get(*src))?;
            match element(heap, l, *index as usize)? {
                Some(v) => Ok(v),
                None => Err(Stop::BadProgram(Fault::NoItem(*index))),
            }
        },
        Instr::ArrayDrop { dst, src, n } => {
            proof {
                s.lemma_at(a, *src);
                s.lemma_at(a, *n);
            }
            dropped(heap, s.get(*src), s.get(*n))
        },
        Instr::ArrayPrepend { dst, front, rest } => extended(heap, s, *rest, front, End::Front),
        Instr::ArrayAppend { dst, rest, back } => extended(heap, s, *rest, back, End::Back),
        Instr::ArrayConcat { dst, a: x, b: y } => {
            proof {
                s.lemma_at(a, *x);
                s.lemma_at(a, *y);
            }
            joined(heap, s.get(*x), s.get(*y))
        },
        Instr::ArraySlice { dst, src, start, end } => {
            proof {
                s.lemma_at(a, *src);
                s.lemma_at(a, *start);
                s.lemma_at(a, *end);
            }
            sliced(heap, s, s.get(*src), s.get(*start), s.get(*end))
        },
        Instr::ArrayIndex { dst, src, index } => {
            proof {
                s.lemma_at(a, *src);
                s.lemma_at(a, *index);
            }
            match indexed(heap, s.get(*src), s.get(*index))? {
                Some(w) => {
                    let ghost m = heap.record();
                    let v = wrapped(heap, s.abi.some, w, Ghost(a))?;
                    proof {
                        let b = heap.record();
                        lemma_only_field(b, v, s.abi.some, w, a);
                        lemma_ints_part(m, b, seq![w]);
                        assert(int_of(m, seq![w][0]) is Some ==> int_of(b, w) == int_of(m, w));
                    }
                    Ok(v)
                },
                None => {
                    let v = Value::nullary(s.abi.none);
                    proof {
                        lemma_gave_word(a, v);
                    }
                    Ok(v)
                },
            }
        },
        Instr::ArrayIndexOr { dst, src, index, default } => {
            proof {
                s.lemma_at(a, *src);
                s.lemma_at(a, *index);
                s.lemma_at(a, *default);
            }
            match indexed(heap, s.get(*src), s.get(*index))? {
                Some(w) => Ok(w),
                None => {
                    let w = share(heap, s.get(*default))?;
                    proof {
                        assert(live(heap.record(), w));
                    }
                    Ok(w)
                },
            }
        },
        _ => vstd::pervasive::unreached(),
    }
}

} // verus!
