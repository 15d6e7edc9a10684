//! The instructions that compute a value: what each gives, and what stops it.

use crate::vm::array::out_of_room;
use crate::vm::bigint::{self, Answer, huge, Int, int_of, Number};
use crate::vm::cells::{closure_data, ctor_data, handles, is_text, text_of, too_long, value_words};
use crate::vm::eq;
use crate::vm::heap::{Heap, MAX_CELL_WORDS};
use crate::vm::instr::{Instr, Reg};
use crate::vm::meaning::meaning;
use crate::vm::nodes::{handle, live, owning};
use crate::vm::record::{Body, Kind, lemma_cells_at, lemma_ref_live, part_of, Record, with_cell};
use crate::vm::scene::{Fault, gave, lemma_gave_word, read_at, Scene, share, Stop, value_at};
use crate::vm::sound::{lemma_sound_part, sound, valid};
use crate::vm::value::{Cell, FuncIdx, Value, variant_of, VariantRef};
use vstd::prelude::*;

verus! {

/// The kind of cell that a value names.
pub open spec fn kind_of(r: Record, v: Value) -> Option<Kind> {
    match v.spec_cell() {
        Some(c) => Some(r.cells[c].kind),
        None => None,
    }
}

/// The cell that a value names.
pub open spec fn body_of(r: Record, v: Value) -> Body {
    r.cells[v.spec_cell()->Some_0]
}

/// The texts of strings, joined.
pub open spec fn joined_texts(r: Record, vs: Seq<Value>) -> Seq<u8>
    decreases vs.len(),
{
    if vs.len() == 0 {
        Seq::empty()
    } else {
        joined_texts(r, vs.drop_last()) + text_of(body_of(r, vs.last()))
    }
}

/// The first of some values that is no string.
pub open spec fn not_text(r: Record, vs: Seq<Value>) -> Option<Value>
    decreases vs.len(),
{
    if vs.len() == 0 {
        None
    } else {
        match not_text(r, vs.drop_last()) {
            Some(v) => Some(v),
            None => if kind_of(r, vs.last()) == Some(Kind::String) {
                None
            } else {
                Some(vs.last())
            },
        }
    }
}

/// A new cell of `kind` holding `data`.
pub open spec fn new_cell(a: Record, b: Record, v: Value, kind: Kind, data: Seq<u64>) -> bool {
    v.spec_cell() matches Some(c) && !a.has(c) && b.has(c) && b.cells[c] == (Body { kind, data })
}

/// A new string.
pub open spec fn new_text(a: Record, b: Record, v: Value, text: Seq<u8>) -> bool {
    v.spec_cell() matches Some(c) && !a.has(c) && b.has(c) && is_text(b.cells[c]) && text_of(
        b.cells[c],
    ) == text
}

/// What an Int operation gave.
pub open spec fn answers(r: Record, v: Value, ans: Answer) -> bool {
    match ans {
        Answer::Truth(t) => v.spec_view() == crate::vm::value::View::Bool(t),
        Answer::Number(n) => int_of(r, v) == Some(n),
    }
}

pub open spec fn as_bool(v: Value) -> Option<bool> {
    match v.spec_view() {
        crate::vm::value::View::Bool(b) => Some(b),
        _ => None,
    }
}

/// An Int operand that is none.
pub open spec fn no_int(r: Record, v: Value) -> Option<Stop> {
    if int_of(r, v) is None {
        Some(Stop::NotBuiltYet(Fault::IntOf(v)))
    } else {
        None
    }
}

pub open spec fn first_stop(a: Option<Stop>, b: Option<Stop>) -> Option<Stop> {
    match a {
        Some(s) => Some(s),
        None => b,
    }
}

/// A value that is an Int, read out.
pub(crate) fn read_int(heap: &Heap, v: Value) -> (r: Result<Int, Stop>)
    requires
        heap.wf(),
        sound(heap.record()),
        live(heap.record(), v),
    ensures
        match r {
            Ok(i) => i.ok() && int_of(heap.record(), v) == Some(i.value()),
            Err(e) => no_int(heap.record(), v) == Some(e),
        },
{
    match v.view() {
        crate::vm::value::View::Int(n) => Ok(Int::Small(n)),
        crate::vm::value::View::Cell(c) => {
            proof {
                assert(v.spec_cell() == Some(c));
                assert(heap.record().has(c));
                assert(valid(heap.record(), c));
            }
            if heap.kind(c) == Kind::BigInt {
                Ok(Int::Big(heap.read_big_int(c)))
            } else {
                Err(Stop::NotBuiltYet(Fault::IntOf(v)))
            }
        },
        _ => Err(Stop::NotBuiltYet(Fault::IntOf(v))),
    }
}

/// Whether a value is a string.
pub(crate) fn is_string(heap: &Heap, v: Value) -> (r: bool)
    requires
        heap.wf(),
        live(heap.record(), v),
    ensures
        r == (kind_of(heap.record(), v) == Some(Kind::String)),
{
    match v.as_cell() {
        Some(c) => heap.kind(c) == Kind::String,
        None => false,
    }
}

/// Whether a value is a constructor, with fields or without.
pub open spec fn is_variant_of(r: Record, v: Value, variant: VariantRef) -> bool {
    match v.spec_view() {
        crate::vm::value::View::Nullary(n) => n == variant,
        crate::vm::value::View::Cell(c) => r.cells[c].kind is Ctor && variant_of(
            r.cells[c].data[0],
        ) == variant,
        _ => false,
    }
}

pub(crate) fn is_variant(heap: &Heap, v: Value, variant: VariantRef) -> (r: bool)
    requires
        heap.wf(),
        sound(heap.record()),
        live(heap.record(), v),
    ensures
        r == is_variant_of(heap.record(), v, variant),
{
    match v.view() {
        crate::vm::value::View::Nullary(n) => n == variant,
        crate::vm::value::View::Cell(c) => {
            proof {
                assert(v.spec_cell() == Some(c));
                assert(heap.record().has(c));
                assert(valid(heap.record(), c));
            }
            heap.kind(c) == Kind::Ctor && heap.variant(c) == variant
        },
        _ => false,
    }
}

/// The words that a cell of values has from `from` on.
pub open spec fn held_at(r: Record, v: Value, from: int, i: int) -> Option<Value> {
    let d = body_of(r, v).data;
    if from + i < d.len() {
        Some(Value { bits: d[from + i] })
    } else {
        None
    }
}

/// A field that is there.
pub open spec fn field_of(r: Record, v: Value, i: int) -> Option<Value> {
    if kind_of(r, v) == Some(Kind::Ctor) {
        held_at(r, v, 1, i)
    } else {
        None
    }
}

pub open spec fn capture_of(r: Record, v: Value, i: int) -> Option<Value> {
    if kind_of(r, v) == Some(Kind::Closure) {
        held_at(r, v, 1, i)
    } else {
        None
    }
}

pub open spec fn element_of(r: Record, v: Value, i: int) -> Option<Value> {
    if kind_of(r, v) == Some(Kind::Tuple) {
        held_at(r, v, 0, i)
    } else {
        None
    }
}

/// What is read out of a cell is a value of a live cell.
proof fn lemma_held_live(r: Record, c: Cell, from: int, i: int)
    requires
        r.shaped(),
        r.has(c),
        r.cells[c].kind is Ctor && from == 1 || r.cells[c].kind is Closure && from == 1
            || r.cells[c].kind is Tuple && from == 0,
        0 <= i,
        from + i < r.cells[c].data.len(),
    ensures
        (Value { bits: r.cells[c].data[from + i] }).ok(),
        live(r, (Value { bits: r.cells[c].data[from + i] })),
{
    let b = r.cells[c];
    let v = Value { bits: b.data[from + i] };
    assert(b.held()[i] == v.bits);
    assert(crate::vm::value::canonical(b.held()[i]));
    if v.spec_cell() is Some {
        lemma_cells_at(b.held(), i);
        lemma_ref_live(r, c, v.spec_cell()->Some_0);
    }
}

/// How a computation ends: with a value, or with what stops it. A full heap can
/// stop any.
pub open spec fn ends(a: Record, b: Record, r: Result<Value, Stop>, stop: Option<Stop>) -> bool {
    &&& part_of(a, b)
    &&& sound(b)
    &&& match r {
        Ok(v) => gave(a, b, v) && stop is None,
        Err(e) => e == Stop::HeapFull || stop == Some(e),
    }
}

/// A value that was there, shared.
fn shared(heap: &mut Heap, v: Value) -> (r: Result<Value, Stop>)
    requires
        old(heap).wf(),
        sound(old(heap).record()),
        v.ok(),
        live(old(heap).record(), v),
    ensures
        r matches Err(Stop::HeapFull) ==> out_of_room(*final(heap)),
        final(heap).wf(),
        ends(old(heap).record(), final(heap).record(), r, None),
        r matches Ok(w) ==> w == v,
{
    let ghost a = heap.record();
    let w = share(heap, v)?;
    proof {
        assert(live(heap.record(), v));
    }
    Ok(w)
}

/// A new string.
pub(crate) fn text_value(heap: &mut Heap, text: &[u8]) -> (r: Result<Value, Stop>)
    requires
        old(heap).wf(),
        sound(old(heap).record()),
    ensures
        r matches Err(Stop::HeapFull) ==> out_of_room(*final(heap)) || too_long(text@),
        final(heap).wf(),
        ends(old(heap).record(), final(heap).record(), r, None),
        r matches Ok(v) ==> new_text(old(heap).record(), final(heap).record(), v, text@),
{
    let ghost a = heap.record();
    match heap.string(text) {
        Ok(c) => {
            let v = Value::cell(c);
            proof {
                let b = heap.record();
                let body = Body {
                    kind: Kind::String,
                    data: crate::vm::cells::text_data(text@),
                };
                assert(b.cells[c] == body);
                assert(body.held() =~= Seq::empty());
                crate::vm::cells::lemma_no_refs_needed(body, a.ext);
                assert(b.ext =~= a.ext.add(handle(v)));
                assert forall|d: Cell| #[trigger] a.has(d) implies b.has(d) && a.cells[d]
                    == b.cells[d] by {}
                lemma_sound_part(a, b);
            }
            Ok(v)
        },
        Err(_) => Err(Stop::HeapFull),
    }
}

/// The number `n` as a value.
pub(crate) fn int_value(heap: &mut Heap, n: Number) -> (r: Result<Value, Stop>)
    requires
        old(heap).wf(),
        sound(old(heap).record()),
        n.ok(),
    ensures
        r matches Err(Stop::HeapFull) ==> out_of_room(*final(heap)) || huge(n.value()),
        final(heap).wf(),
        ends(old(heap).record(), final(heap).record(), r, None),
        r matches Ok(v) ==> int_of(final(heap).record(), v) == Some(n.value()),
{
    match bigint::value(heap, n) {
        Ok(v) => Ok(v),
        Err(_) => Err(Stop::HeapFull),
    }
}

/// After a cell took values over.
proof fn lemma_made(a: Record, m: Record, b: Record, c: Cell, kind: Kind, data: Seq<u64>, vs: Seq<Value>)
    requires
        sound(a),
        sound(m),
        owning(a, m, handles(vs)),
        !m.has(c),
        b == with_cell(m, c, (Body { kind, data })),
        (Body { kind, data }).refs().to_multiset() == handles(vs),
        kind is Ctor || kind is Closure || kind is Tuple,
        kind is Ctor || kind is Closure ==> data.len() >= 1,
    ensures
        part_of(a, b),
        sound(b),
        b.has(c),
        !a.has(c),
        b.ext == a.ext.insert(c),
{
    assert forall|d: Cell| #[trigger] m.has(d) implies b.has(d) && m.cells[d] == b.cells[d] by {}
    lemma_sound_part(m, b);
    assert(b.ext =~= a.ext.insert(c));
    if a.has(c) {
        assert(m.has(c));
    }
    assert forall|d: Cell| #[trigger] a.has(d) implies b.has(d) && a.cells[d] == b.cells[d] by {
        assert(m.has(d));
    }
}

/// A new constructor over the values of registers.
fn ctor(heap: &mut Heap, s: &Scene, variant: VariantRef, fields: &Vec<Reg>) -> (r: Result<
    Value,
    Stop,
>)
    requires
        old(heap).wf(),
        sound(old(heap).record()),
        s.ok(old(heap).record()),
    ensures
        r matches Err(Stop::HeapFull) ==> out_of_room(*final(heap)) || fields@.len() + 2 > MAX_CELL_WORDS,
        final(heap).wf(),
        ends(old(heap).record(), final(heap).record(), r, None),
        r matches Ok(v) ==> new_cell(
            old(heap).record(),
            final(heap).record(),
            v,
            Kind::Ctor,
            ctor_data(variant, s.all_at(fields@)),
        ),
{
    let ghost a = heap.record();
    let vs = s.args(heap, fields)?;
    let ghost m = heap.record();
    proof {
        s.lemma_all_at(a, fields@);
        assert(handles(vs@).subset_of(m.ext));
        crate::vm::cells::lemma_held(Kind::Ctor, crate::vm::value::variant_bits(variant), vs@);
    }
    match heap.ctor(variant, vs.as_slice()) {
        Ok(c) => {
            let v = Value::cell(c);
            proof {
                let b = heap.record();
                lemma_made(a, m, b, c, Kind::Ctor, ctor_data(variant, vs@), vs@);
                assert(b.ext =~= a.ext.add(handle(v)));
            }
            Ok(v)
        },
        Err(_) => Err(Stop::HeapFull),
    }
}

/// A new closure over the values of registers.
fn closure(heap: &mut Heap, s: &Scene, func: FuncIdx, captures: &Vec<Reg>) -> (r: Result<
    Value,
    Stop,
>)
    requires
        old(heap).wf(),
        sound(old(heap).record()),
        s.ok(old(heap).record()),
    ensures
        r matches Err(Stop::HeapFull) ==> out_of_room(*final(heap)) || captures@.len() + 2 > MAX_CELL_WORDS,
        final(heap).wf(),
        ends(old(heap).record(), final(heap).record(), r, None),
        r matches Ok(v) ==> new_cell(
            old(heap).record(),
            final(heap).record(),
            v,
            Kind::Closure,
            closure_data(func, s.all_at(captures@)),
        ),
{
    let ghost a = heap.record();
    let vs = s.args(heap, captures)?;
    let ghost m = heap.record();
    proof {
        s.lemma_all_at(a, captures@);
        assert(handles(vs@).subset_of(m.ext));
        crate::vm::cells::lemma_held(Kind::Closure, func.0 as u64, vs@);
    }
    match heap.closure(func, vs.as_slice()) {
        Ok(c) => {
            let v = Value::cell(c);
            proof {
                let b = heap.record();
                lemma_made(a, m, b, c, Kind::Closure, closure_data(func, vs@), vs@);
                assert(b.ext =~= a.ext.add(handle(v)));
            }
            Ok(v)
        },
        Err(_) => Err(Stop::HeapFull),
    }
}

/// A new tuple over the values of registers.
fn tuple(heap: &mut Heap, s: &Scene, elements: &Vec<Reg>) -> (r: Result<Value, Stop>)
    requires
        old(heap).wf(),
        sound(old(heap).record()),
        s.ok(old(heap).record()),
    ensures
        r matches Err(Stop::HeapFull) ==> out_of_room(*final(heap)) || elements@.len() + 2 > MAX_CELL_WORDS,
        final(heap).wf(),
        ends(old(heap).record(), final(heap).record(), r, None),
        r matches Ok(v) ==> new_cell(
            old(heap).record(),
            final(heap).record(),
            v,
            Kind::Tuple,
            value_words(s.all_at(elements@)),
        ),
{
    let ghost a = heap.record();
    let vs = s.args(heap, elements)?;
    let ghost m = heap.record();
    proof {
        s.lemma_all_at(a, elements@);
        assert(handles(vs@).subset_of(m.ext));
        crate::vm::cells::lemma_held(Kind::Tuple, 0, vs@);
    }
    match heap.tuple(vs.as_slice()) {
        Ok(c) => {
            let v = Value::cell(c);
            proof {
                let b = heap.record();
                lemma_made(a, m, b, c, Kind::Tuple, value_words(vs@), vs@);
                assert(b.ext =~= a.ext.add(handle(v)));
            }
            Ok(v)
        },
        Err(_) => Err(Stop::HeapFull),
    }
}

/// What an instruction over whole values gives.
pub open spec fn gives_value(i: Instr, s: Scene, a: Record, b: Record, v: Value) -> bool {
    match i {
        Instr::Const { dst, value } => v == value,
        Instr::Move { dst, src } => v == s.at(src),
        Instr::GetGlobal { dst, slot } => v == value_at(s.globals@, slot.0 as int),
        Instr::Ctor { dst, variant, fields } => new_cell(
            a,
            b,
            v,
            Kind::Ctor,
            ctor_data(variant, s.all_at(fields@)),
        ),
        Instr::Closure { dst, func, captures } => new_cell(
            a,
            b,
            v,
            Kind::Closure,
            closure_data(func, s.all_at(captures@)),
        ),
        Instr::Tuple { dst, elements } => new_cell(
            a,
            b,
            v,
            Kind::Tuple,
            value_words(s.all_at(elements@)),
        ),
        Instr::GetCapture { dst, index } => capture_of(a, s.env, index as int) == Some(v),
        Instr::GetSelf { dst, this } => if s.env.spec_view() is Nil {
            v.spec_view() == crate::vm::value::View::Func(this)
        } else {
            v == s.env
        },
        Instr::Field { dst, src, index } => field_of(a, s.at(src), index as int) == Some(v),
        Instr::Element { dst, src, index } => element_of(a, s.at(src), index as int) == Some(v),
        Instr::Equal { dst, a: x, b: y } => v.spec_view() == crate::vm::value::View::Bool(
            meaning(a, s.at(x)) == meaning(a, s.at(y)),
        ),
        Instr::NotEqual { dst, a: x, b: y } => v.spec_view() == crate::vm::value::View::Bool(
            meaning(a, s.at(x)) != meaning(a, s.at(y)),
        ),
        Instr::Not { dst, a: x } => as_bool(s.at(x)) matches Some(t) && v.spec_view()
            == crate::vm::value::View::Bool(!t),
        _ => false,
    }
}

/// What stops an instruction over whole values.
pub open spec fn stops_value(i: Instr, s: Scene, a: Record) -> Option<Stop> {
    match i {
        Instr::GetCapture { dst, index } => if capture_of(a, s.env, index as int) is None {
            Some(Stop::BadProgram(Fault::NoCapture(index)))
        } else {
            None
        },
        Instr::Field { dst, src, index } => if field_of(a, s.at(src), index as int) is None {
            Some(Stop::BadProgram(Fault::NoField(index)))
        } else {
            None
        },
        Instr::Element { dst, src, index } => if element_of(a, s.at(src), index as int) is None {
            Some(Stop::BadProgram(Fault::NoElement(index)))
        } else {
            None
        },
        Instr::Not { dst, a: x } => if as_bool(s.at(x)) is None {
            Some(Stop::BadProgram(Fault::NotABool(s.at(x))))
        } else {
            None
        },
        _ => None,
    }
}

/// An instruction over whole values.
pub open spec fn over_values(i: Instr) -> bool {
    i is Const || i is Move || i is GetGlobal || i is Ctor || i is Closure || i is Tuple
        || i is GetCapture || i is GetSelf || i is Field || i is Element || i is Equal
        || i is NotEqual || i is Not
}

/// A constant is a word of its own.
pub open spec fn const_ok(i: Instr) -> bool {
    i matches Instr::Const { dst, value } ==> value.ok() && value.spec_cell() is None
}

/// A cell over more registers than one holds.
pub open spec fn too_many(i: Instr) -> bool {
    match i {
        Instr::Ctor { dst, variant, fields } => fields@.len() + 2 > MAX_CELL_WORDS,
        Instr::Closure { dst, func, captures } => captures@.len() + 2 > MAX_CELL_WORDS,
        Instr::Tuple { dst, elements } => elements@.len() + 2 > MAX_CELL_WORDS,
        _ => false,
    }
}

/// Run an instruction over whole values.
pub(crate) fn compute_value(heap: &mut Heap, s: &Scene, i: &Instr) -> (r: Result<Value, Stop>)
    requires
        old(heap).wf(),
        sound(old(heap).record()),
        s.ok(old(heap).record()),
        over_values(*i),
        const_ok(*i),
    ensures
        r matches Err(Stop::HeapFull) ==> out_of_room(*final(heap)) || too_many(*i),
        final(heap).wf(),
        ends(
            old(heap).record(),
            final(heap).record(),
            r,
            stops_value(*i, *s, old(heap).record()),
        ),
        r matches Ok(v) ==> gives_value(*i, *s, old(heap).record(), final(heap).record(), v),
{
    let ghost a = heap.record();
    proof {
        heap.lemma_record_ok();
    }
    match i {
        Instr::Const { dst, value } => {
            proof {
                lemma_gave_word(a, *value);
            }
            Ok(*value)
        },
        Instr::Move { dst, src } => {
            proof {
                s.lemma_at(a, *src);
            }
            shared(heap, s.get(*src))
        },
        Instr::GetGlobal { dst, slot } => {
            let v = read_at(s.globals, slot.0 as usize);
            proof {
                if slot.0 < s.globals@.len() {
                    assert(s.globals@[slot.0 as int].ok() && live(a, s.globals@[slot.0 as int]));
                }
            }
            shared(heap, v)
        },
        Instr::Ctor { dst, variant, fields } => ctor(heap, s, *variant, fields),
        Instr::Closure { dst, func, captures } => closure(heap, s, *func, captures),
        Instr::Tuple { dst, elements } => tuple(heap, s, elements),
        Instr::GetCapture { dst, index } => {
            match s.env.as_cell() {
                Some(c) => {
                    proof {
                        assert(a.has(c));
                        assert(valid(a, c));
                    }
                    if heap.kind(c) == Kind::Closure {
                        match heap.capture(c, *index as usize) {
                            Some(v) => {
                                proof {
                                    lemma_held_live(a, c, 1, *index as int);
                                }
                                return shared(heap, v);
                            },
                            None => {},
                        }
                    }
                },
                None => {},
            }
            Err(Stop::BadProgram(Fault::NoCapture(*index)))
        },
        Instr::GetSelf { dst, this } => {
            match s.env.view() {
                crate::vm::value::View::Nil => {
                    let v = Value::func(*this);
                    proof {
                        lemma_gave_word(a, v);
                    }
                    Ok(v)
                },
                _ => shared(heap, s.env),
            }
        },
        Instr::Field { dst, src, index } => {
            let v = s.get(*src);
            proof {
                s.lemma_at(a, *src);
            }
            match v.as_cell() {
                Some(c) => {
                    proof {
                        assert(a.has(c));
                        assert(valid(a, c));
                    }
                    if heap.kind(c) == Kind::Ctor {
                        match heap.field(c, *index as usize) {
                            Some(w) => {
                                proof {
                                    lemma_held_live(a, c, 1, *index as int);
                                }
                                return shared(heap, w);
                            },
                            None => {},
                        }
                    }
                },
                None => {},
            }
            Err(Stop::BadProgram(Fault::NoField(*index)))
        },
        Instr::Element { dst, src, index } => {
            let v = s.get(*src);
            proof {
                s.lemma_at(a, *src);
            }
            match v.as_cell() {
                Some(c) => {
                    proof {
                        assert(a.has(c));
                    }
                    if heap.kind(c) == Kind::Tuple {
                        match heap.element(c, *index as usize) {
                            Some(w) => {
                                proof {
                                    lemma_held_live(a, c, 0, *index as int);
                                }
                                return shared(heap, w);
                            },
                            None => {},
                        }
                    }
                },
                None => {},
            }
            Err(Stop::BadProgram(Fault::NoElement(*index)))
        },
        Instr::Equal { dst, a: x, b: y } => {
            proof {
                s.lemma_at(a, *x);
                s.lemma_at(a, *y);
            }
            let v = Value::bool(eq::equal(heap, s.get(*x), s.get(*y)));
            proof {
                lemma_gave_word(a, v);
            }
            Ok(v)
        },
        Instr::NotEqual { dst, a: x, b: y } => {
            proof {
                s.lemma_at(a, *x);
                s.lemma_at(a, *y);
            }
            let v = Value::bool(!eq::equal(heap, s.get(*x), s.get(*y)));
            proof {
                lemma_gave_word(a, v);
            }
            Ok(v)
        },
        Instr::Not { dst, a: x } => {
            let v = s.get(*x);
            match v.view() {
                crate::vm::value::View::Bool(t) => {
                    let w = Value::bool(!t);
                    proof {
                        lemma_gave_word(a, w);
                    }
                    Ok(w)
                },
                _ => Err(Stop::BadProgram(Fault::NotABool(v))),
            }
        },
        _ => vstd::pervasive::unreached(),
    }
}

} // verus!
