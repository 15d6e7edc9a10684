use num_bigint::BigInt;
use scarlet::vm::bigint::Number;
use scarlet::vm::heap::Heap;
use scarlet::vm::record::Kind;
use scarlet::type_def::TypeId;
use scarlet::vm::value::{Cell, FuncIdx, Value, VariantRef};

fn text(heap: &Heap, cell: Cell) -> String {
    let mut out = Vec::new();
    heap.read_string(cell, &mut out);
    String::from_utf8(out).expect("UTF-8")
}

fn number(n: &BigInt) -> Number {
    let (sign, digits) = n.to_u64_digits();
    Number { negative: sign == num_bigint::Sign::Minus, digits }
}

fn small(n: i64) -> Value {
    Value::small_int(n).expect("small")
}

#[test]
fn there_is_no_chunk_until_the_first_cell() {
    let mut heap = Heap::new();
    assert!(heap.chunks.is_empty());
    heap.string(b"hi").expect("room");
    assert_eq!(heap.chunks.len(), 1);
}

#[test]
fn a_string_reads_back_at_every_length() {
    let mut heap = Heap::new();
    for len in [0, 1, 7, 8, 9, 16, 100] {
        let s: String = "abcdefghij".chars().cycle().take(len).collect();
        let cell = heap.string(s.as_bytes()).expect("room");
        assert_eq!(text(&heap, cell), s);
        assert_eq!(heap.kind(cell), Kind::String);
    }
}

#[test]
fn a_freed_cell_is_reused_by_the_next_of_its_size() {
    let mut heap = Heap::new();
    let a = heap.string(b"one").expect("room");
    heap.release(a);
    assert_eq!(heap.live(), 0);
    let b = heap.string(b"two").expect("room");
    assert_eq!(a, b);
}

#[test]
fn a_shared_cell_lives_until_its_last_reference_goes() {
    let mut heap = Heap::new();
    let a = heap.string(b"kept").expect("room");
    heap.share(a);
    heap.release(a);
    assert_eq!(heap.live(), 1);
    assert_eq!(text(&heap, a), "kept");
    heap.release(a);
    assert_eq!(heap.live(), 0);
}

/// Each new small-cell chunk is 1.6 times the one before, from 2 KB.
#[test]
fn chunks_grow_by_steps() {
    let mut heap = Heap::new();
    for _ in 0..2000 {
        heap.string(b"a string of twenty-four!").expect("room");
    }
    let sizes: Vec<usize> = heap.chunks.iter().flatten().map(|c| c.words.len()).collect();
    assert_eq!(sizes[..4], [256, 409, 654, 1046]);
}

/// A cell too big for the current chunk gets its own, and the chunk goes back
/// when the cell does. Its index is reused.
#[test]
fn a_big_cell_gets_a_chunk_of_its_own_size() {
    let mut heap = Heap::new();
    let big = vec![b'x'; 10_000];
    let cell = heap.string(&big).expect("room");
    let own = heap.chunks[cell.chunk as usize].as_ref().expect("made");
    assert!(own.own);
    assert_eq!(own.words.len(), 2 + 10_000usize.div_ceil(8));
    assert_eq!(text(&heap, cell).len(), 10_000);
    heap.release(cell);
    assert!(heap.chunks[cell.chunk as usize].is_none());
    let again = heap.string(&big).expect("room");
    assert_eq!(again.chunk, cell.chunk);
}

#[test]
fn a_big_int_reads_back_with_its_sign() {
    let mut heap = Heap::new();
    let big: BigInt = "-123456789012345678901234567890".parse().expect("a number");
    let cell = heap.big_int(&number(&big)).expect("room");
    assert_eq!(heap.kind(cell), Kind::BigInt);
    let back = heap.read_big_int(cell);
    assert_eq!((back.negative, back.digits), (true, number(&big).digits));
    let positive = -big;
    let cell = heap.big_int(&number(&positive)).expect("room");
    let back = heap.read_big_int(cell);
    assert_eq!((back.negative, back.digits), (false, number(&positive).digits));
}

#[test]
fn a_string_is_only_its_own_text() {
    let mut heap = Heap::new();
    for text in ["", "a", "eight ch", "nine char", "a longer piece of text"] {
        let cell = heap.string(text.as_bytes()).expect("room");
        assert!(heap.string_is(cell, text.as_bytes()), "{text:?}");
        let mut other = text.as_bytes().to_vec();
        other.push(b'!');
        assert!(!heap.string_is(cell, &other), "{text:?} is not {other:?}");
        if let Some(last) = other.len().checked_sub(2) {
            other.truncate(last + 1);
            other[last] ^= 1;
            assert!(!heap.string_is(cell, &other), "{text:?} is not {other:?}");
        }
    }
}

#[test]
fn a_constructor_reads_back_its_variant_and_fields() {
    let mut heap = Heap::new();
    let v = VariantRef { type_id: TypeId(263), variant_idx: 0 };
    let one = small(1);
    let cell = heap.ctor(v, &[one, Value::nil()]).expect("room");
    assert_eq!(heap.kind(cell), Kind::Ctor);
    assert_eq!(heap.variant(cell), v);
    let fields: Vec<_> = heap.fields(cell).into_iter().map(Value::view).collect();
    assert_eq!(fields, [one.view(), Value::nil().view()]);
}

/// A chain of cells, each holding the next, is freed by one release, and without
/// a call per link.
#[test]
fn freeing_a_constructor_frees_what_it_holds() {
    let mut heap = Heap::new();
    let v = VariantRef { type_id: TypeId(1), variant_idx: 0 };
    let mut tail = Value::nil();
    for _ in 0..1_000_000 {
        tail = Value::cell(heap.ctor(v, &[tail]).expect("room"));
    }
    let shared = heap.string(b"shared").expect("room");
    heap.share(shared);
    let head = heap.ctor(v, &[tail, Value::cell(shared)]).expect("room");
    assert_eq!(heap.live(), 1_000_002);
    heap.release(head);
    assert_eq!(heap.live(), 1, "only the string the test still holds");
    heap.release(shared);
    assert_eq!(heap.live(), 0);
}

/// A closure holds its captures the way a constructor holds its fields, and
/// freeing it frees them.
#[test]
fn a_closure_holds_its_captures() {
    let mut heap = Heap::new();
    let s = heap.string(b"captured").expect("room");
    let cell = heap.closure(FuncIdx(9), &[small(4), Value::cell(s)]).expect("room");
    assert_eq!(heap.kind(cell), Kind::Closure);
    assert_eq!(heap.closure_func(cell), FuncIdx(9));
    assert_eq!(
        heap.capture(cell, 0).map(Value::view),
        Value::small_int(4).map(Value::view)
    );
    assert!(heap.capture(cell, 2).is_none());
    assert_eq!(heap.live(), 2);
    heap.release(cell);
    assert_eq!(heap.live(), 0);
}

#[test]
fn a_tuple_holds_its_elements() {
    let mut heap = Heap::new();
    let s = heap.string(b"second").expect("room");
    let one = small(1);
    let cell = heap.tuple(&[one, Value::cell(s)]).expect("room");
    assert_eq!(heap.kind(cell), Kind::Tuple);
    assert_eq!(heap.element(cell, 0).map(Value::view), Some(one.view()));
    assert!(heap.element(cell, 2).is_none());
    assert_eq!(heap.elements(cell).len(), 2);
    let empty = heap.tuple(&[]).expect("room");
    assert_eq!(heap.elements(empty).len(), 0);
    heap.release(empty);
    heap.release(cell);
    assert_eq!(heap.live(), 0);
}

#[test]
fn a_cell_round_trips_through_48_bits() {
    let cell = Cell { chunk: (1 << 20) - 1, word: (1 << 28) - 1 };
    assert!(cell.bits() < 1 << 48);
    assert_eq!(Cell::from_bits(cell.bits()), cell);
}

/// A constructor built over another in place keeps its cell and frees what it
/// held.
#[test]
fn a_hollowed_constructor_is_built_over_in_place() {
    let mut heap = Heap::new();
    let v = VariantRef { type_id: TypeId(7), variant_idx: 1 };
    let w = VariantRef { type_id: TypeId(7), variant_idx: 2 };
    let s = heap.string(b"old").expect("room");
    let cell = heap.ctor(v, &[Value::cell(s), small(2)]).expect("room");
    assert!(heap.fits_ctor(cell, 2));
    assert!(heap.hollow(cell));
    assert_eq!(heap.live(), 1);
    heap.ctor_in(cell, w, &[small(3), small(4)]);
    assert_eq!(heap.variant(cell), w);
    assert_eq!(heap.field(cell, 0), Some(small(3)));
    assert_eq!(heap.field(cell, 1), Some(small(4)));
    heap.release(cell);
    assert_eq!(heap.live(), 0);
}

#[test]
fn no_two_words_are_one_value() {
    assert_eq!(Value::small_int(1 << 47), None);
    assert_eq!(Value::small_int(-(1 << 47)).map(Value::view), Some(scarlet::vm::value::View::Int(-(1 << 47))));
    assert_eq!(Value::bool(true).view(), scarlet::vm::value::View::Bool(true));
    assert_ne!(Value::bool(false).bits(), Value::nil().bits());
    assert_eq!(Value::func(FuncIdx(5)).view(), scarlet::vm::value::View::Func(FuncIdx(5)));
    // A float with no answer is zero, and one too large stops at the largest.
    assert_eq!(Value::float(f64::NAN.to_bits()).bits(), 0);
    assert_eq!(Value::float(f64::INFINITY.to_bits()).bits(), f64::MAX.to_bits());
    assert_eq!(Value::float(f64::NEG_INFINITY.to_bits()).bits(), f64::MIN.to_bits());
    assert_eq!(Value::float(1.5f64.to_bits()).bits(), 1.5f64.to_bits());
}
