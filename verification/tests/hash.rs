use scarlet::vm::eq::equal;
use scarlet::vm::hash::{collision_sum, hash, hash_entry, map_hash, Piece};
use scarlet::vm::heap::Heap;
use scarlet::vm::sip::Sip;
use scarlet::type_def::TypeId;
use scarlet::vm::value::{FuncIdx, Value, VariantRef};

const K0: u64 = u64::from_le_bytes(*b"scarlet:");
const K1: u64 = u64::from_le_bytes(*b"map-hash");

/// The rounds are right: SipHash-2-4 gives the paper's answers
/// (Appendix A), with the key `00 01 .. 0f` and the message `00 01 ..`.
#[test]
fn siphash_2_4_matches_the_papers_test_vectors() {
    let k0 = u64::from_le_bytes([0, 1, 2, 3, 4, 5, 6, 7]);
    let k1 = u64::from_le_bytes([8, 9, 10, 11, 12, 13, 14, 15]);
    let run = |n: u8| {
        let mut s = Sip::<2, 4>::new(k0, k1);
        s.bytes(&(0..n).collect::<Vec<u8>>());
        s.finish()
    };
    assert_eq!(run(0), 0x726f_db47_dd0e_0e31);
    assert_eq!(run(1), 0x74f8_39c5_93dc_67fd);
    assert_eq!(run(15), 0xa129_ca61_49be_45e5);
}

/// A word fed whole hashes as its eight bytes fed one at a time.
#[test]
fn a_word_is_its_bytes() {
    let mut a = Sip::<1, 3>::new(K0, K1);
    a.bytes(&[9]);
    a.word(0x0102_0304_0506_0708);
    let mut b = Sip::<1, 3>::new(K0, K1);
    b.bytes(&[9]);
    b.bytes(&0x0102_0304_0506_0708u64.to_le_bytes());
    assert_eq!(a.finish(), b.finish());
}

#[test]
fn equal_values_hash_alike_whatever_their_cells() {
    let mut heap = Heap::new();
    let v = VariantRef { type_id: TypeId(3), variant_idx: 1 };
    let make = |heap: &mut Heap, text: &[u8]| {
        let s = heap.string(text).expect("room");
        let t = heap.tuple(&[Value::cell(s), Value::nil()]).expect("room");
        Value::cell(heap.ctor(v, &[Value::cell(t), Value::bool(true)]).expect("room"))
    };
    let a = make(&mut heap, b"same");
    let b = make(&mut heap, b"same");
    let c = make(&mut heap, b"other");
    assert_ne!(a, b);
    assert!(equal(&heap, a, b));
    assert!(!equal(&heap, a, c));
    assert_eq!(hash(&heap, a), hash(&heap, b));
    assert_ne!(hash(&heap, a), hash(&heap, c));
}

/// Zero is zero, whatever its sign.
#[test]
fn zeros_of_either_sign_are_equal() {
    let heap = Heap::new();
    let (p, n) = (Value::float(0.0f64.to_bits()), Value::float((-0.0f64).to_bits()));
    assert!(equal(&heap, p, n));
    assert_eq!(hash(&heap, p), hash(&heap, n));
    assert!(!equal(&heap, p, Value::float(1.0f64.to_bits())));
    assert!(!equal(&heap, Value::nil(), Value::func(FuncIdx(0))));
}

/// Values whose parts are the same words, grouped otherwise or of another sort,
/// are told apart.
#[test]
fn what_is_grouped_otherwise_hashes_otherwise() {
    let mut heap = Heap::new();
    let v = VariantRef { type_id: TypeId(3), variant_idx: 1 };
    let (x, y) = (Value::bool(true), Value::nil());
    let flat = Value::cell(heap.tuple(&[x, y]).expect("room"));
    let one = Value::cell(heap.tuple(&[x]).expect("room"));
    let nested = Value::cell(heap.tuple(&[one, y]).expect("room"));
    let empty = Value::cell(heap.tuple(&[]).expect("room"));
    let ctor = Value::cell(heap.ctor(v, &[x, y]).expect("room"));
    let text = Value::cell(heap.string(b"").expect("room"));
    let func = Value::cell(heap.closure(FuncIdx(3), &[x, y]).expect("room"));
    let all = [flat, nested, empty, ctor, text, func, x, y];
    for (i, a) in all.iter().enumerate() {
        for b in &all[i + 1..] {
            assert!(!equal(&heap, *a, *b));
            assert_ne!(hash(&heap, *a), hash(&heap, *b));
        }
    }
}

/// A map feeds its tag, its size and its collisions' sums, then its entries.
#[test]
fn a_map_hashes_by_its_pieces() {
    let heap = Heap::new();
    let n = |i: i64| Value::small_int(i).expect("a small int");
    let words = |ws: &[u64]| {
        let mut s = Sip::<1, 3>::new(K0, K1);
        for &w in ws {
            s.word(w);
        }
        s.finish()
    };
    assert_eq!(map_hash(&heap, 0, &[]), words(&[10, 0]));
    let one = [Piece::Entry(n(1), n(2))];
    assert_eq!(map_hash(&heap, 1, &one), words(&[10, 1, 1, 0, 1, 1, 1, 0, 1, 2]));
    let e = words(&[hash(&heap, n(3)), hash(&heap, n(4))]);
    let f = words(&[hash(&heap, n(5)), hash(&heap, n(6))]);
    assert_eq!(hash_entry(&heap, n(3), n(4)), e);
    let both = [
        Piece::Entry(n(1), n(2)),
        Piece::Collision(vec![(n(3), n(4)), (n(5), n(6))]),
    ];
    assert_eq!(
        map_hash(&heap, 3, &both),
        words(&[10, 3, 11, e.wrapping_add(f), 1, 0, 1, 1, 1, 0, 1, 2])
    );
}

/// Entries of a collision add up the same in any order.
#[test]
fn a_collision_hashes_alike_in_any_order() {
    let heap = Heap::new();
    let n = |i: i64| Value::small_int(i).expect("a small int");
    let a = vec![(n(1), n(2)), (n(3), n(4)), (n(5), n(6))];
    let b = vec![(n(5), n(6)), (n(1), n(2)), (n(3), n(4))];
    let c = vec![(n(5), n(6)), (n(1), n(2)), (n(3), n(7))];
    assert_eq!(collision_sum(&heap, &a), collision_sum(&heap, &b));
    assert_ne!(collision_sum(&heap, &a), collision_sum(&heap, &c));
}
