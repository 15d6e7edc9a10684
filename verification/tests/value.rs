use scarlet::type_def::TypeId;
use scarlet::vm::bytecode::equal;
use scarlet::vm::bytecode::hamt;
use scarlet::vm::bytecode::hash::{enum_name_prefix_hash, Surroundings};
use scarlet::vm::bytecode::header::{
    header_has_off_heap_link, header_payload_words, header_tag, header_total_words, pack_header,
    HeapTag,
};
use scarlet::vm::bytecode::norm::{BYTES_HASH_SAMPLE, HASH_BASIS};
use scarlet::vm::bytecode::object::{Arena, Body, FrozenBuilder, ProcHeap, SeqBox, Value};
use scarlet::vm::bytecode::release::{
    free_object, freed_objects_pending, freed_objects_total, release, release_at_zero,
    reset_freed_objects_total, take_freed_objects, Freed,
};
use scarlet::vm::bytecode::value::{ReuseAddr, SeqRef, ValueView};
use scarlet::vm::bytecode::word::{SocketKind, SocketValue, SMALL_INT_MAX, SMALL_INT_MIN};
use std::rc::Rc;

const B: usize = 32;
const BITS: usize = 5;

fn hash_value(v: &Value) -> u64 {
    scarlet::vm::bytecode::hash::hash_value(v, &Surroundings::none())
}

fn enum_hash_with_payload(prefix: u64, payload: &[Value]) -> u64 {
    scarlet::vm::bytecode::hash::enum_hash_with_payload(prefix, payload, &Surroundings::none())
}

fn values_equal(a: &Value, b: &Value) -> bool {
    equal::values_equal(a, b, &Surroundings::none())
}

fn fnv1a_combine(h: u64, val: u64) -> u64 {
    (h ^ val).wrapping_mul(0x100000001b3)
}

/// A world in which the type `id` is named `name`.
fn naming(id: i32, name: &str) -> Surroundings {
    Surroundings { vars: Vec::new(), types: vec![(TypeId(id), name.to_string())] }
}

fn parts(root: &Value) -> &SeqBox {
    match &root.obj.as_ref().expect("an object").body {
        Body::SeqRoot(s) => s,
        _ => panic!("not an array"),
    }
}

fn all(r: &SeqRef) -> Vec<Value> {
    let mut it = r.iter();
    let mut out = Vec::new();
    while let Some(v) = it.next() {
        out.push(v);
    }
    out
}

/// Every invariant of a vector: each node's height and slot count, each running
/// total, and the root's length.
fn check_invariants(root: &Value) {
    let s = parts(root);
    let n = buffer_len(&s.head) + buffer_len(&s.tail);
    let tree = if s.tree.is_nil() { 0 } else { check_node(&s.tree, s.shift) };
    assert_eq!(s.len, n + tree);
}

fn buffer_len(v: &Value) -> usize {
    match v.obj.as_ref().map(|o| &o.body) {
        None => {
            assert!(v.is_nil());
            0
        }
        Some(Body::SeqLeaf(items)) => {
            assert!((1..=B).contains(&items.len()));
            items.len()
        }
        Some(_) => panic!("a buffer that is no leaf"),
    }
}

fn check_node(v: &Value, shift: usize) -> usize {
    match &v.obj.as_ref().expect("a node").body {
        Body::SeqLeaf(items) => {
            assert_eq!(shift, 0, "a leaf above the bottom");
            assert!((1..=B).contains(&items.len()));
            items.len()
        }
        Body::SeqBranch(b) => {
            assert_eq!(b.shift, shift, "a branch at the wrong height");
            assert!((1..=B).contains(&b.children.len()));
            let mut total = 0;
            for (i, c) in b.children.iter().enumerate() {
                total += check_node(c, shift - BITS);
                assert_eq!(b.sizes[i], total);
            }
            total
        }
        _ => panic!("not a node"),
    }
}

fn test_heap() -> ProcHeap {
    ProcHeap::new()
}

#[test]
fn roundtrip_small_int() {
    for i in [0, 1, -1, 42, -42, SMALL_INT_MAX, SMALL_INT_MIN] {
        let v = Value::small_int(i);
        assert_eq!(v.as_int(), Some(i));
        assert!(!v.is_heap());
        assert!(!v.is_float());
        assert_eq!(v.as_int_typed(), i);
    }
}

#[test]
fn roundtrip_bigint_spills_to_arena() {
    let mut h = test_heap();
    for i in [SMALL_INT_MAX + 1, SMALL_INT_MIN - 1, i64::MAX, i64::MIN] {
        let v = Value::int_in(&mut h, i);
        assert_eq!(v.as_int(), Some(i));
        assert!(v.is_heap());
        assert!(v.as_int().is_some());
        assert_eq!(v.heap_tag(), Some(HeapTag::BigInt));
        match v.kind() {
            ValueView::Int(j) => assert_eq!(j, i),
            _ => panic!("expected Int view"),
        }
    }
    assert!(!Value::int_in(&mut h, 7).is_heap());
}

#[test]
fn roundtrip_bool_nil_socket() {
    assert_eq!(Value::bool(true).as_bool(), Some(true));
    assert_eq!(Value::bool(false).as_bool(), Some(false));
    assert!(!Value::bool(true).is_heap());
    assert!(Value::nil().is_nil());
    assert!(matches!(Value::nil().kind(), ValueView::Nil));

    let s = SocketValue {
        id: 7,
        kind: SocketKind::Listener,
    };
    let v = Value::socket(s);
    assert!(!v.is_heap(), "sockets are immediates");
    assert_eq!(v.as_socket(), Some(s));
    for kind in [SocketKind::Connection, SocketKind::Port] {
        let c = SocketValue { id: -3, kind };
        assert_eq!(Value::socket(c).as_socket(), Some(c));
    }
    assert!(matches!(v.kind(), ValueView::Socket(x) if x == s));
}

#[test]
fn roundtrip_str() {
    let mut h = test_heap();
    for s in ["", "a", "hello", "12345678", "123456789", "héllo wörld ☃"] {
        let v = Value::str_in(&mut h, s);
        assert_eq!(v.as_str(), Some(s));
        assert!(v.is_heap());
        assert!(v.as_int().is_none());
        assert!(matches!(v.kind(), ValueView::Str(x) if x == s));
    }
}

#[test]
fn roundtrip_binary() {
    let mut h = test_heap();
    let v = Value::binary_in(&mut h, vec![1u8, 2, 3]);
    let b = v.as_binary().unwrap();
    assert_eq!(&b.full_bytes()[..], &[1u8, 2, 3][..]);
    assert_eq!(b.bit_offset(), 0);
    assert_eq!(b.bit_len(), 24);

    let v2 = Value::binary_bits_in(&mut h, vec![0xFF], 5);
    assert_eq!(v2.as_binary().unwrap().bit_len(), 5);
    assert_eq!(v2.as_binary().unwrap().to_aligned_vec(), vec![0xF8]);
}

#[test]
fn binary_concat_windows() {
    let mut h = test_heap();
    let v = Value::binary_concat_parts_in(&mut h, &[&[0xAB, 0xCD], &[0xEF]], 24);
    let b = v.as_binary().unwrap();
    assert_eq!(&b.full_bytes()[..], &[0xAB, 0xCD, 0xEF][..]);
    assert_eq!(b.bit_offset(), 0);
    let v2 = Value::binary_concat_parts_in(&mut h, &[&[0xAB], &[0xFF]], 11);
    let b2 = v2.as_binary().unwrap();
    assert_eq!(b2.bit_len(), 11);
    assert_eq!(b2.to_aligned_vec(), vec![0xAB, 0b1110_0000]);
    let v3 = Value::binary_concat_parts_in(&mut h, &[&[], &[]], 0);
    assert_eq!(v3.as_binary().unwrap().bit_len(), 0);
}

#[test]
fn binary_views_share_backing_zero_copy() {
    let mut h = test_heap();
    let backing: Rc<Vec<u8>> = Rc::new(vec![0xAB, 0xCD, 0xEF, 0x01]);
    let whole = Value::binary_from_arc_in(&mut h, Rc::clone(&backing), 32);
    assert_eq!(Rc::strong_count(&backing), 2);
    let slice = Value::binary_view_in(&mut h, whole.as_binary().unwrap().backing_arc(), 8, 16);
    assert_eq!(Rc::strong_count(&backing), 3);
    let s = slice.as_binary().unwrap();
    assert_eq!(&s.full_bytes()[..], &[0xCD, 0xEF][..]);
    let same = Value::binary_in(&mut h, vec![0xCD, 0xEF]);
    assert!(s.bits_eq(&same.as_binary().unwrap()));
    assert!(!s.bits_eq(&whole.as_binary().unwrap()));
    assert_eq!(
        hash_value(&slice),
        hash_value(&same),
        "equal logical bits must hash identically"
    );
    assert!(whole.as_binary().unwrap().starts_with_at(8, &s));
    assert!(!whole.as_binary().unwrap().starts_with_at(32, &s));
}

fn ints(n: usize) -> Vec<Value> {
    (0..n as i64).map(Value::small_int).collect()
}

#[test]
fn unique_array_is_edited_in_place() {
    let mut h = ProcHeap::new();
    // Push enough through the sole reference to cross several leaf
    // spills; the root object must keep its address the whole way.
    let mut root = scarlet::vm::bytecode::seq::empty_in(&mut h);
    let mut root_addr = None;
    for i in 0..200i64 {
        root = scarlet::vm::bytecode::seq::push_back(&mut h, root, Value::small_int(i));
        match root_addr {
            None => root_addr = Some(root.heap_obj()),
            Some(addr) => {
                assert_eq!(root.heap_obj(), addr, "unique push must reuse the root");
            }
        }
    }
    check_invariants(&root);
    for i in 0..200i64 {
        assert_eq!(scarlet::vm::bytecode::seq::get(&root, i as usize).unwrap().as_int(), Some(i));
    }
    // The front side too, through the same sole reference.
    for i in 0..100i64 {
        root = scarlet::vm::bytecode::seq::push_front(&mut h, root, Value::small_int(-1 - i));
        assert_eq!(root.heap_obj(), root_addr.unwrap());
    }
    check_invariants(&root);
    assert_eq!(scarlet::vm::bytecode::seq::get(&root, 0).unwrap().as_int(), Some(-100));
    assert_eq!(scarlet::vm::bytecode::seq::get(&root, 100).unwrap().as_int(), Some(0));
}

#[test]
fn shared_array_is_never_edited_in_place() {
    let mut h = ProcHeap::new();
    let mut root = scarlet::vm::bytecode::seq::empty_in(&mut h);
    for i in 0..100i64 {
        root = scarlet::vm::bytecode::seq::push_back(&mut h, root, Value::small_int(i));
    }
    // Two references alive: the push must path-copy, leaving the
    // original untouched at its old length.
    let grown = scarlet::vm::bytecode::seq::push_back(&mut h, root.clone(), Value::small_int(999));
    assert_eq!(scarlet::vm::bytecode::seq::len(&root), 100, "shared original must be untouched");
    assert_eq!(scarlet::vm::bytecode::seq::len(&grown), 101);
    assert_eq!(scarlet::vm::bytecode::seq::get(&grown, 100).unwrap().as_int(), Some(999));
    assert_eq!(scarlet::vm::bytecode::seq::get(&root, 99).unwrap().as_int(), Some(99));
    check_invariants(&root);
    check_invariants(&grown);

    let fronted = scarlet::vm::bytecode::seq::push_front(&mut h, root.clone(), Value::small_int(-1));
    assert_eq!(scarlet::vm::bytecode::seq::len(&root), 100, "shared original must be untouched");
    assert_eq!(scarlet::vm::bytecode::seq::get(&fronted, 0).unwrap().as_int(), Some(-1));
    check_invariants(&fronted);
}

fn assert_matches_model(root: &Value, model: &[Value]) {
    check_invariants(root);
    let r = root.as_array().unwrap();
    assert_eq!(r.len(), model.len());
    for (i, m) in model.iter().enumerate() {
        assert_eq!(
            r.get(i).unwrap().to_bits(),
            m.to_bits(),
            "element {i} of {} disagrees",
            model.len()
        );
    }
    let collected: Vec<u64> = all(&r).iter().map(|v| v.to_bits()).collect();
    let expect: Vec<u64> = model.iter().map(|v| v.to_bits()).collect();
    assert_eq!(collected, expect, "iterator disagrees with get()");
    assert!(r.get(model.len()).is_none());
}

#[test]
fn seq_from_slice_various_sizes() {
    let mut h = ProcHeap::new();
    for n in [0usize, 1, 31, 32, 33, 63, 64, 65, 1000, 1024, 1025, 4097] {
        let items = ints(n);
        let root = scarlet::vm::bytecode::seq::from_slice(&mut h, &items);
        assert_matches_model(&root, &items);
    }
}

#[test]
fn seq_push_back_and_front_grow_correctly() {
    let mut h = ProcHeap::new();
    let mut root = scarlet::vm::bytecode::seq::empty_in(&mut h);
    let mut model: Vec<Value> = Vec::new();
    for i in 0..1200i64 {
        root = scarlet::vm::bytecode::seq::push_back(&mut h, root, Value::small_int(i));
        model.push(Value::small_int(i));
    }
    assert_matches_model(&root, &model);

    for i in 0..300i64 {
        root = scarlet::vm::bytecode::seq::push_front(&mut h, root, Value::small_int(-i));
        model.insert(0, Value::small_int(-i));
    }
    assert_matches_model(&root, &model);
}

#[test]
fn seq_take_skip_match_slices() {
    let mut h = ProcHeap::new();
    let items = ints(1100);
    let root = scarlet::vm::bytecode::seq::from_slice(&mut h, &items);
    for n in [0usize, 1, 15, 32, 33, 64, 500, 1063, 1064, 1099, 1100, 2000] {
        let t = scarlet::vm::bytecode::seq::take(&mut h, &root, n);
        let s = scarlet::vm::bytecode::seq::skip(&mut h, root.clone(), n);
        let cut = n.min(items.len());
        assert_matches_model(&t, &items[..cut]);
        assert_matches_model(&s, &items[cut..]);
    }
    let mut pushed = root;
    for i in 0..40i64 {
        pushed = scarlet::vm::bytecode::seq::push_front(&mut h, pushed, Value::small_int(-1 - i));
    }
    let mut model: Vec<Value> = (0..40i64).map(|i| Value::small_int(-40 + i)).collect();
    model.extend_from_slice(&items);
    for n in [5usize, 39, 40, 41, 600] {
        assert_matches_model(&scarlet::vm::bytecode::seq::take(&mut h, &pushed, n), &model[..n]);
        assert_matches_model(&scarlet::vm::bytecode::seq::skip(&mut h, pushed.clone(), n), &model[n..]);
    }
}

#[test]
fn seq_concat_matches_model_and_stays_shallow() {
    let mut h = ProcHeap::new();
    for (la, lb) in [
        (0usize, 5usize),
        (5, 0),
        (3, 4),
        (32, 32),
        (33, 100),
        (1000, 1),
        (1, 1000),
        (500, 500),
    ] {
        let xs = ints(la);
        let ys: Vec<Value> = (0..lb as i64)
            .map(|i| Value::small_int(10_000 + i))
            .collect();
        let l = scarlet::vm::bytecode::seq::from_slice(&mut h, &xs);
        let r = scarlet::vm::bytecode::seq::from_slice(&mut h, &ys);
        let joined = scarlet::vm::bytecode::seq::concat(&mut h, &l, &r);
        let mut model = xs.clone();
        model.extend_from_slice(&ys);
        assert_matches_model(&joined, &model);
    }

    // Repeated concatenation must keep the tree shallow (the RRB
    // rebalancing invariant).
    let mut h = ProcHeap::new();
    let piece_items = ints(7);
    let mut root = scarlet::vm::bytecode::seq::empty_in(&mut h);
    let mut model: Vec<Value> = Vec::new();
    for _ in 0..300 {
        let piece = scarlet::vm::bytecode::seq::from_slice(&mut h, &piece_items);
        root = scarlet::vm::bytecode::seq::concat(&mut h, &root, &piece);
        model.extend_from_slice(&piece_items);
    }
    assert_matches_model(&root, &model);
    // 2100 elements: a balanced 32-ary tree is depth 3, and E_MAX slack
    // buys a couple of levels, no more.
    let shift = parts(&root).shift;
    assert!(
        shift <= 25,
        "repeated concat degraded the tree: shift {shift}"
    );
}

#[test]
fn seq_randomized_ops_match_vec_model() {
    let mut state = 0x2545_F491_4F6C_DD1Du64;
    let mut rng = move || {
        state = state
            .wrapping_mul(6364136223846793005)
            .wrapping_add(1442695040888963407);
        (state >> 33) as usize
    };
    let mut h = ProcHeap::new();
    let mut model: Vec<Value> = Vec::new();
    let mut root = scarlet::vm::bytecode::seq::empty_in(&mut h);
    for step in 0..600 {
        // Rebuild into a fresh arena periodically. The old root must be
        // dropped BEFORE its heap: a heap has to outlive the values
        // pointing into it. `model` holds only immediates.
        if step % 64 == 63 {
            drop(std::mem::replace(&mut root, Value::nil()));
            h = ProcHeap::new();
            root = scarlet::vm::bytecode::seq::from_slice(&mut h, &model);
        }
        match rng() % 6 {
            0 | 1 => {
                let x = Value::small_int(step as i64);
                root = scarlet::vm::bytecode::seq::push_back(&mut h, root, x.clone());
                model.push(x);
            }
            2 => {
                let x = Value::small_int(-(step as i64));
                root = scarlet::vm::bytecode::seq::push_front(&mut h, root, x.clone());
                model.insert(0, x);
            }
            3 => {
                let n = rng() % (model.len() + 2);
                root = scarlet::vm::bytecode::seq::take(&mut h, &root, n);
                model.truncate(n.min(model.len()));
            }
            4 => {
                let n = rng() % (model.len() + 2);
                root = scarlet::vm::bytecode::seq::skip(&mut h, root, n);
                let cut = n.min(model.len());
                model.drain(..cut);
            }
            _ => {
                let n = rng() % 60;
                let extra: Vec<Value> = (0..n as i64)
                    .map(|i| Value::small_int(100_000 + i))
                    .collect();
                let other = scarlet::vm::bytecode::seq::from_slice(&mut h, &extra);
                if rng() % 2 == 0 {
                    root = scarlet::vm::bytecode::seq::concat(&mut h, &root, &other);
                    model.extend_from_slice(&extra);
                } else {
                    root = scarlet::vm::bytecode::seq::concat(&mut h, &other, &root);
                    let mut m = extra;
                    m.extend_from_slice(&model);
                    model = m;
                }
            }
        }
        check_invariants(&root);
        if step % 13 == 0 {
            assert_matches_model(&root, &model);
        }
    }
    assert_matches_model(&root, &model);
}

#[test]
fn seq_structural_sharing_on_push() {
    let mut h = ProcHeap::new();
    let items = ints(100_000);
    let root = scarlet::vm::bytecode::seq::from_slice(&mut h, &items);
    let v2 = scarlet::vm::bytecode::seq::push_back(&mut h, root.clone(), Value::small_int(-1));
    assert_eq!(scarlet::vm::bytecode::seq::len(&root), 100_000, "original version unchanged");
    assert_eq!(scarlet::vm::bytecode::seq::len(&v2), 100_001);
}

#[test]
fn hash_stable_across_int_repr() {
    let mut h = test_heap();
    let small = hash_value(&Value::small_int(5));
    assert_eq!(small, fnv1a_combine(HASH_BASIS, 5u64));
    let big = Value::int_in(&mut h, i64::MAX);
    assert!(big.is_heap());
    assert_eq!(hash_value(&big), fnv1a_combine(HASH_BASIS, i64::MAX as u64));
}

// Otherwise the precomputed enum hash fast-rejects equal values like
// `Some(0..3) == Some([0, 1, 2])`.
#[test]
fn range_hashes_like_its_materialized_array() {
    let mut h = test_heap();
    for (s, e) in [(0i64, 0i64), (5, 5), (0, 1), (0, 3), (-3, 4), (10, 100)] {
        let items: Vec<Value> = (s..e).map(Value::small_int).collect();
        let arr = Value::array_in(&mut h, &items);
        let range = Value::range_in(&mut h, s, e);
        assert_eq!(
            hash_value(&range),
            hash_value(&arr),
            "range {s}..{e} must hash like its materialised array"
        );
    }
    let r = Value::range_in(&mut h, 0, 4);
    let nested_range = Value::array_in(&mut h, &[r]);
    let inner: Vec<Value> = (0..4).map(Value::small_int).collect();
    let inner_arr = Value::array_in(&mut h, &inner);
    let nested_arr = Value::array_in(&mut h, &[inner_arr]);
    assert_eq!(hash_value(&nested_range), hash_value(&nested_arr));
}

// Regression: `+0.0` and `-0.0` are `values_equal` but differ in bits.
#[test]
fn signed_zero_hashes_equal() {
    assert_eq!(
        hash_value(&Value::float(0.0f64.to_bits())),
        hash_value(&Value::float((-0.0f64).to_bits())),
        "+0.0 and -0.0 are values_equal, so they must hash identically"
    );
    let prefix = enum_name_prefix_hash("Option", "Some");
    assert_eq!(
        enum_hash_with_payload(prefix, &[Value::float(0.0f64.to_bits())]),
        enum_hash_with_payload(prefix, &[Value::float((-0.0f64).to_bits())]),
        "Some(0.0) and Some(-0.0) must share a payload hash"
    );
    assert_ne!(
        hash_value(&Value::float(0.0f64.to_bits())),
        hash_value(&Value::float(1.0f64.to_bits()))
    );
}

// Regression: hashing a range must not iterate it. Reaching the asserts
// at all proves it.
#[test]
fn hashing_a_huge_range_is_constant_time() {
    let mut h = test_heap();
    let huge = hash_value(&Value::range_in(&mut h, 0, i64::MAX));
    assert_ne!(huge, hash_value(&Value::range_in(&mut h, 0, i64::MAX - 1)));
    let empty_range = Value::range_in(&mut h, i64::MAX, i64::MAX);
    let empty_arr = Value::array_in(&mut h, &[]);
    assert_eq!(hash_value(&empty_range), hash_value(&empty_arr));
}

// The sampled Str/Binary hash must still reject payloads differing only
// outside the prefix sample, since length and tail are folded in too.
#[test]
fn sampled_hash_rejects_tail_and_length_differences() {
    let mut h = test_heap();
    let long = "x".repeat(10 * BYTES_HASH_SAMPLE);
    let sa = Value::str_in(&mut h, &(long.clone() + "a"));
    let sb = Value::str_in(&mut h, &(long.clone() + "b"));
    let sc = Value::str_in(&mut h, &(long.clone() + "aa"));
    assert_ne!(hash_value(&sa), hash_value(&sb));
    assert_ne!(hash_value(&sa), hash_value(&sc));

    let bytes: Vec<u8> = (0..10 * BYTES_HASH_SAMPLE).map(|i| i as u8).collect();
    let mut flipped = bytes.clone();
    *flipped.last_mut().unwrap() ^= 0xFF;
    let ba = Value::binary_in(&mut h, bytes.clone());
    let bb = Value::binary_in(&mut h, flipped);
    let mut extended = bytes.clone();
    extended.push(0);
    let bc = Value::binary_in(&mut h, extended);
    assert_ne!(hash_value(&ba), hash_value(&bb));
    assert_ne!(hash_value(&ba), hash_value(&bc));
}

// Aligned and bit-unaligned views of the same logical bits are `bits_eq`,
// so they must hash identically — sampled or not, partial tail or not.
#[test]
fn unaligned_binary_hashes_like_aligned() {
    let mut h = test_heap();
    for (len, dropped_bits) in [(3usize, 0u64), (16, 3), (300, 0), (300, 5)] {
        let bytes: Vec<u8> = (0..len).map(|i| (i * 37 + 11) as u8).collect();
        let bit_len = (len as u64) * 8 - dropped_bits;
        let aligned = Value::binary_bits_in(&mut h, bytes.clone(), bit_len);
        for shift in 1u32..8 {
            // The same bit stream shifted right, viewed at bit_offset
            // = shift: identical logical bits.
            let mut backing = vec![0u8; len + 1];
            for (i, &b) in bytes.iter().enumerate() {
                backing[i] |= b >> shift;
                backing[i + 1] |= b << (8 - shift);
            }
            let unaligned =
                Value::binary_view_in(&mut h, Rc::new(backing), shift as u64, bit_len);
            let (a, u) = (aligned.as_binary().unwrap(), unaligned.as_binary().unwrap());
            assert!(
                a.bits_eq(&u),
                "len {len} -{dropped_bits} bits, shift {shift}"
            );
            assert_eq!(
                hash_value(&aligned),
                hash_value(&unaligned),
                "bits_eq views must hash identically (len {len}, -{dropped_bits} bits, shift {shift})"
            );
        }
    }
}

#[test]
fn immortal_flag_marks_only_frozen_objects() {
    let mut h = test_heap();
    let mortal = Value::int_in(&mut h, i64::MAX); // BigInt box
    assert!(mortal.is_heap());
    assert!(!mortal.is_immortal());

    let mut b = FrozenBuilder::new();
    let frozen = Value::int_in(&mut b, i64::MAX);
    assert!(frozen.is_heap());
    assert!(frozen.is_immortal());
    // Tag/length still decode correctly with the flag set.
    assert_eq!(frozen.heap_tag(), Some(HeapTag::BigInt));
    assert_eq!(frozen.as_int(), Some(i64::MAX));

    assert!(!Value::small_int(7).is_immortal());
    assert!(!Value::nil().is_immortal());
}

/// The kind field holds exactly the kinds that exist. `id: -1` fills the low 32
/// bits, so an id that bled past its own 32 would land in the kind field.
#[test]
fn socket_kind_field_is_saturated() {
    let kinds = [SocketKind::Connection, SocketKind::Listener, SocketKind::Port, SocketKind::Tls];
    assert_eq!(kinds.len() as u64, 3 + 1);
    for (i, &kind) in kinds.iter().enumerate() {
        assert_eq!(kind.discriminant(), i as u64);
        let s = SocketValue { id: -1, kind };
        assert_eq!(Value::socket(s).as_socket(), Some(s));
    }
}

#[test]
fn roundtrip_float() {
    let float = |f: f64| Value::float(f.to_bits());
    for f in [0.0, 1.0, -1.5, 1e308, f64::MIN_POSITIVE] {
        let v = float(f);
        assert_eq!(v.as_float().map(f64::from_bits), Some(f));
        assert!(v.is_float());
    }
    assert_eq!(float(f64::NAN).as_float().map(f64::from_bits), Some(0.0));
    assert_eq!(float(f64::INFINITY).as_float().map(f64::from_bits), Some(0.0));
    assert_eq!(float(f64::NEG_INFINITY).as_float().map(f64::from_bits), Some(0.0));
}

#[test]
fn roundtrip_range_tuple_closure_enum() {
    let mut h = test_heap();
    let world = naming(1, "Option");
    let r = Value::range_in(&mut h, 2, 9);
    assert_eq!(r.as_range(), Some((2, 9)));

    let t = Value::tuple_in(&mut h, &[Value::small_int(7), Value::bool(true)]);
    let elems = t.as_tuple().unwrap();
    assert_eq!(elems.len(), 2);
    assert_eq!(elems[0].as_int(), Some(7));
    assert_eq!(elems[1].as_bool(), Some(true));
    assert!(Value::tuple_in(&mut h, &[]).as_tuple().unwrap().is_empty());

    let c = Value::closure_in(&mut h, 3, &[Value::small_int(1)]);
    let cr = c.as_closure().unwrap();
    assert_eq!(cr.func_idx(), 3);
    assert_eq!(cr.captures().len(), 1);
    assert_eq!(cr.captures()[0].as_int(), Some(1));

    let e = Value::enum_with_names_in(
        &mut h,
        TypeId(1),
        1,
        "Option",
        "Some",
        &["value"],
        &[Value::small_int(5)],
        &world,
    );
    let er = e.as_enum().unwrap();
    assert_eq!(er.type_id(), TypeId(1));
    assert_eq!(er.variant_idx(), 1);
    assert_eq!(er.enum_name(), "Option");
    assert_eq!(er.variant_name(), "Some");
    assert_eq!(er.payload().len(), 1);
    assert_eq!(er.payload()[0].as_int(), Some(5));
    assert_eq!(er.field_labels().len(), 1);
    assert_eq!(er.field_labels()[0].as_str(), Some("value"));
    let expect = enum_hash_with_payload(
        enum_name_prefix_hash("Option", "Some"),
        &[Value::small_int(5)],
    );
    assert_eq!(er.hash(&world), expect);
}

#[test]
fn header_roundtrip() {
    let h = pack_header(HeapTag::Enum, 9, false);
    assert_eq!(header_tag(h), Some(HeapTag::Enum));
    assert_eq!(header_payload_words(h), 9);
    assert_eq!(header_total_words(h), 10);
    assert!(!header_has_off_heap_link(h));

    let hb = pack_header(HeapTag::Binary, 5, true);
    assert!(header_has_off_heap_link(hb));
    assert_eq!(header_tag(hb), Some(HeapTag::Binary));
}

/// A binary's bytes are shared by its views, and go when the last does.
#[test]
fn a_binary_holds_its_bytes_until_it_goes() {
    let mut h = test_heap();
    let backing = Rc::new(vec![9u8; 16]);
    let b1 = Value::binary_from_arc_in(&mut h, Rc::clone(&backing), 128);
    assert_eq!(Rc::strong_count(&backing), 2);
    let b2 = b1.clone();
    drop(b1);
    assert_eq!(Rc::strong_count(&backing), 2);
    drop(b2);
    assert_eq!(Rc::strong_count(&backing), 1);
}

/// Exercised through the enum constructor, because that is the only reuse path
/// that a program reaches.
#[test]
fn perceus_reuse_overwrites_in_place_and_releases_old_children() {
    let mut h = test_heap();
    let world = Surroundings::none();
    let a = Value::str_in(&mut h, "old-a");
    let b = Value::str_in(&mut h, "old-b");
    let mut old = Value::enum_with_names_in(
        &mut h,
        TypeId(0),
        0,
        "E",
        "V",
        &["x", "y"],
        &[a, b],
        &world,
    );
    let addr = old.object_addr().unwrap();
    assert!(old.is_unique());

    let mut counter = Freed::new();
    old.hollow_for_reuse(&mut counter);
    let freed = take_freed_objects(&mut counter);
    assert!(
        freed >= 2,
        "hollowing must release the payload children, freed {freed}"
    );
    // The two names, the tuple of labels, its two labels and the payload.
    assert_eq!(freed, 7);

    let en = Value::str_in(&mut h, "E");
    let vn = Value::str_in(&mut h, "V");
    let labels = Value::tuple_in(&mut h, &[]);
    let payload = [Value::small_int(7), Value::small_int(8)];
    let reuse = old.into_reuse_addr();
    let new = Value::enum_reuse_in(&mut h, reuse, TypeId(0), 0, 0, en, vn, labels, &payload);
    assert_eq!(new.object_addr().unwrap(), addr, "same allocation reused");
    assert!(new.is_unique(), "rc stays 1 across reuse");

    let en2 = Value::str_in(&mut h, "E");
    let vn2 = Value::str_in(&mut h, "V");
    let labels2 = Value::tuple_in(&mut h, &[]);
    let fresh = Value::enum_reuse_in(
        &mut h,
        Value::nil().into_reuse_addr(),
        TypeId(0),
        0,
        0,
        en2,
        vn2,
        labels2,
        &payload,
    );
    assert_ne!(fresh.object_addr().unwrap(), addr);
}

/// The `Env` view equals a HAMT holding the same entries, and hashes the same.
#[test]
fn env_map_equals_hamt_with_same_entries() {
    let mut h = test_heap();
    let vars: Vec<(String, String)> = (0..40)
        .map(|i| (format!("NAME_{i}"), format!("value {}", i * 7)))
        .collect();
    let world = Surroundings { vars: vars.clone(), types: Vec::new() };
    let hash = |v: &Value| scarlet::vm::bytecode::hash::hash_value(v, &world);
    let env = Value::env_map_in(&mut h);
    let mut m = hamt::empty(&mut h, &world);
    for (k, v) in &vars {
        let kv = Value::str_in(&mut h, k);
        let vv = Value::str_in(&mut h, v);
        let kh = hash(&kv);
        m = hamt::insert(&mut h, m, kv, vv, kh, &world);
    }
    assert!(equal::values_equal(&env, &m, &world), "env view == same-entry HAMT");
    assert!(equal::values_equal(&m, &env, &world), "and symmetrically");
    assert_eq!(hash(&env), hash(&m), "equal values hash identically");

    let kv = Value::str_in(&mut h, "__al_env_eq_test_key__");
    let vv = Value::str_in(&mut h, "x");
    let kh = hash(&kv);
    let m2 = hamt::insert(&mut h, m.clone(), kv, vv, kh, &world);
    assert!(!equal::values_equal(&env, &m2, &world));
    assert!(!equal::values_equal(&m2, &env, &world));
}

/// Guards the worklist in `values_equal`: recursing through enum payloads
/// overflowed the native stack at this depth.
#[test]
fn values_equal_deep_enum_chain_is_iterative() {
    let mut h = test_heap();
    let world = naming(7, "List");
    let deep = |h: &mut ProcHeap, last: i64| {
        let mut v = Value::nil();
        for i in 0..100_000i64 {
            let head = if i == 99_999 { last } else { i };
            v = Value::enum_with_names_in(
                h,
                TypeId(7),
                0,
                "List",
                "Cons",
                &["head", "tail"],
                &[Value::small_int(head), v],
                &world,
            );
        }
        v
    };
    let a = deep(&mut h, 99_999);
    let b = deep(&mut h, 99_999);
    assert!(equal::values_equal(&a, &b, &world), "equal deep chains compare equal");
    let hash = |v: &Value| scarlet::vm::bytecode::hash::hash_value(v, &world);
    assert_eq!(hash(&a), hash(&b));
    let c = deep(&mut h, -1);
    assert!(!equal::values_equal(&a, &c, &world));
    let mut freed = Freed::new();
    for v in [a, b, c] {
        release(v, &mut freed);
    }
}

/// Guards the map arm of the worklist: `{k: {k: ...}}` nested this deep must
/// compare without a native frame per level.
#[test]
fn values_equal_deep_map_nesting_is_iterative() {
    let mut h = test_heap();
    let none = Surroundings::none();
    let deep = |h: &mut ProcHeap, innermost: i64| {
        let mut v = Value::small_int(innermost);
        for _ in 0..100_000 {
            let k = Value::str_in(h, "k");
            let kh = hash_value(&k);
            let empty = hamt::empty(h, &none);
            v = hamt::insert(h, empty, k, v, kh, &none);
        }
        v
    };
    let a = deep(&mut h, 1);
    let b = deep(&mut h, 1);
    assert!(values_equal(&a, &b), "equal deep map nests compare equal");
    let c = deep(&mut h, 2);
    assert!(!values_equal(&a, &c));
    let mut freed = Freed::new();
    for v in [a, b, c] {
        release(v, &mut freed);
    }
}

#[test]
fn for_each_child_visits_exactly_the_value_slots() {
    let mut h = test_heap();
    let world = naming(2, "E");
    let s = Value::str_in(&mut h, "elem");
    let t = Value::tuple_in(&mut h, &[s.clone(), Value::small_int(1), Value::nil()]);
    let seen: Vec<u64> = t.children().iter().map(|v| v.to_bits()).collect();
    assert_eq!(
        seen,
        vec![
            s.to_bits(),
            Value::small_int(1).to_bits(),
            Value::nil().to_bits()
        ]
    );

    // Names, labels and payload are traced; type_id/hash/count are not.
    let e = Value::enum_with_names_in(
        &mut h,
        TypeId(2),
        0,
        "E",
        "V",
        &["a"],
        std::slice::from_ref(&s),
        &world,
    );
    assert_eq!(e.children().len(), 3 + 1, "enum_name, variant_name, labels, payload[0]");

    let b = Value::binary_in(&mut h, vec![1, 2, 3]);
    assert_eq!(b.children().len(), 0);
    assert_eq!(s.children().len(), 0);
}

#[test]
fn values_into_frozen_area_read_back() {
    let mut b = FrozenBuilder::new();
    let s = Value::str_in(&mut b, "frozen constant");
    let t = Value::tuple_in(&mut b, &[s.clone(), Value::small_int(3)]);
    let arr = Value::array_in(&mut b, &[s.clone(), t.clone()]);
    assert!(s.is_immortal());
    assert_eq!(s.as_str(), Some("frozen constant"));
    assert_eq!(t.as_tuple().unwrap()[1].as_int(), Some(3));
    let a = arr.as_array().unwrap();
    assert_eq!(a.len(), 2);
    assert_eq!(a.get(1).unwrap().as_tuple().unwrap().len(), 2);
}

/// Giving up a value frees what nothing else refers to, and counts it.
#[test]
fn releasing_counts_what_it_frees() {
    let mut h = test_heap();
    let mut freed = Freed::new();
    let kept = Value::str_in(&mut h, "kept");
    let t = Value::tuple_in(&mut h, &[kept.clone(), Value::small_int(1)]);
    release(t, &mut freed);
    assert_eq!(freed_objects_pending(&freed), 1, "only the tuple");
    release(kept, &mut freed);
    assert_eq!(take_freed_objects(&mut freed), 2);
    assert_eq!(freed_objects_pending(&freed), 0);
    assert_eq!(freed_objects_total(&freed), 2);
    reset_freed_objects_total(&mut freed);
    assert_eq!(freed_objects_total(&freed), 0);
}

/// The mailboxes of handles that went are closed in the order their objects go;
/// a handle that is held elsewhere stays open.
#[test]
fn releasing_closes_mailboxes_in_order() {
    let mut h = test_heap();
    let mut freed = Freed::new();
    let s: Vec<Value> = (1..=6).map(|i| Value::owned_subject_in(&mut h, i)).collect();
    let kept = s[5].clone();
    let inner = Value::tuple_in(&mut h, &[s[2].clone(), s[3].clone(), s[5].clone()]);
    let all = [s[0].clone(), s[1].clone(), inner, s[4].clone()];
    let t = Value::tuple_in(&mut h, &all);
    drop(all);
    drop(s);
    release(t, &mut freed);
    assert_eq!(freed.closed, [1, 5, 4, 3, 2]);
    assert_eq!(freed.pending, 7);
    release(kept, &mut freed);
    assert_eq!(freed.closed, [1, 5, 4, 3, 2, 6]);
    assert_eq!(freed.pending, 8);
}

/// An object with no reference left is counted once, and what it held is given
/// up with it.
#[test]
fn an_object_without_references_goes_with_what_it_held() {
    let mut freed = Freed::new();
    let kids = free_object(Body::Subject(9), &mut freed);
    assert!(kids.is_empty());
    assert_eq!((freed.pending, freed.total), (1, 0));
    assert_eq!(freed.closed, [9]);
    let mut h = test_heap();
    let shared = Value::str_in(&mut h, "shared");
    let only = Value::str_in(&mut h, "only");
    let held = vec![shared.clone(), only, Value::small_int(1)];
    release_at_zero(Body::Tuple(held), &mut freed);
    assert_eq!(freed.pending, 3, "the tuple and one string");
    assert!(shared.is_unique());
}

/// A reuse token that never reaches a constructor frees its hollow cell
/// instead of leaking it.
#[test]
fn unconsumed_reuse_addr_frees_its_cell_on_drop() {
    let mut h = test_heap();
    let a = Value::str_in(&mut h, "payload");
    let mut old = Value::enum_with_names_in(
        &mut h,
        TypeId(0),
        0,
        "E",
        "V",
        &["x"],
        &[a],
        &Surroundings::none(),
    );
    let mut freed = Freed::new();
    old.hollow_for_reuse(&mut freed);
    let reuse = old.into_reuse_addr();
    let _ = take_freed_objects(&mut freed);
    reuse.release(&mut freed);
    assert_eq!(
        take_freed_objects(&mut freed),
        1,
        "dropping an unconsumed token frees the hollow cell"
    );
    ReuseAddr::none().release(&mut freed);
    assert_eq!(take_freed_objects(&mut freed), 0);
}

/// Hollowing leaves alone what is no child, and what something else refers to.
#[test]
fn hollowing_keeps_the_rest_and_frees_only_last_references() {
    let mut h = test_heap();
    let kept = Value::str_in(&mut h, "kept");
    let mut frozen = FrozenBuilder::new();
    let ice = Value::str_in(&mut frozen, "ice");
    let items = [kept.clone(), Value::small_int(5), ice.clone()];
    let mut c = Value::closure_in(&mut h, 9, &items);
    drop(items);
    let mut freed = Freed::new();
    c.hollow_for_reuse(&mut freed);
    assert_eq!(freed_objects_pending(&freed), 0, "the string has another reference");
    assert!(kept.is_unique());
    match &c.obj.as_ref().expect("an object").body {
        Body::Closure(b) => {
            assert_eq!(b.func_idx, 9);
            assert_eq!(b.captures.len(), 3);
            assert!(values_equal(&b.captures[0], &Value::small_int(0)));
            assert!(values_equal(&b.captures[1], &Value::small_int(5)));
            assert_eq!(b.captures[2].heap_obj(), ice.heap_obj());
        }
        _ => panic!("not a closure"),
    }
    // A shared object stays as it is.
    let mut t = Value::tuple_in(&mut h, &[kept.clone()]);
    let other = t.clone();
    t.hollow_for_reuse(&mut freed);
    assert!(values_equal(&t, &other));
    assert_eq!(freed_objects_pending(&freed), 0);
}

/// Any cell of the right size is built over, a string's too.
#[test]
fn a_strings_cell_is_kept_by_its_size() {
    let mut h = test_heap();
    let (en, vn) = (Value::str_in(&mut h, "E"), Value::str_in(&mut h, "V"));
    let labels = Value::tuple_in(&mut h, &[]);
    let payload = [Value::small_int(7)];
    for (len, same) in [(40, false), (41, true), (48, true), (49, false)] {
        let s = Value::str_in(&mut h, &"x".repeat(len));
        let addr = s.object_addr();
        let e = Value::enum_reuse_in(
            &mut h,
            s.into_reuse_addr(),
            TypeId(0),
            0,
            0,
            en.clone(),
            vn.clone(),
            labels.clone(),
            &payload,
        );
        assert_eq!(e.object_addr() == addr, same, "{len} bytes");
    }
}

/// Only the one reference to a mortal object makes it unique.
#[test]
fn one_reference_to_a_mortal_object_is_unique() {
    let mut h = test_heap();
    let s = Value::str_in(&mut h, "s");
    assert!(s.unique_at(1));
    assert!(!s.unique_at(2));
    assert!(!s.unique_at(0));
    assert!(!Value::small_int(1).unique_at(1));
    let ice = Value::str_in(&mut FrozenBuilder::new(), "ice");
    assert!(!ice.unique_at(1));
    assert!(s.is_unique());
    let t = s.clone();
    assert!(!s.is_unique() && !t.is_unique());
}

/// An arena gives every object an address of its own, a multiple of eight, and
/// frozen areas share none with process heaps.
#[test]
fn addresses_are_aligned_and_never_given_twice() {
    let mut h = test_heap();
    let mut frozen = FrozenBuilder::new();
    let mut seen = std::collections::HashSet::new();
    for i in 0..200usize {
        let text = "y".repeat(i);
        for v in [Value::str_in(&mut h, &text), Value::str_in(&mut frozen, &text)] {
            let addr = v.object_addr().expect("an object");
            assert_eq!(addr % 8, 0);
            assert!(seen.insert(addr), "{addr} was given before");
        }
    }
    let mut p = test_heap();
    let mut q = FrozenBuilder::new();
    assert!(p.alloc_words(0) < p.alloc_words(usize::MAX));
    assert!(q.alloc_words(3) + 24 == q.alloc_words(1));
    assert!(Value::str_in(&mut frozen, "a").is_immortal());
    assert!(!Value::str_in(&mut h, "a").is_immortal());
}

/// The name of an enum that no table has can be given.
#[test]
fn an_enum_can_have_any_name() {
    let mut h = test_heap();
    let e = Value::enum_with_names_in(
        &mut h,
        TypeId(3),
        1,
        "Unlisted",
        "One",
        &[],
        &[],
        &Surroundings::none(),
    );
    match &e.obj.as_ref().expect("an object").body {
        Body::Enum(b) => {
            assert_eq!(b.variant_idx, 1);
            assert_eq!(b.hash, enum_name_prefix_hash("Unlisted", "One"));
        }
        _ => panic!("not an enum"),
    }
}
