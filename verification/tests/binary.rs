use num_bigint::BigInt;
use scarlet::vm::bigint::Number;
use scarlet::vm::binary::{bits, byte, bytes, equal, has_at, join, make, slice, whole_byte, whole_bytes, Bits};
use scarlet::vm::bitio::{from_int, read_uint, read_utf8, text};
use scarlet::vm::heap::Heap;

fn number(n: &BigInt) -> Number {
    let (sign, digits) = n.to_u64_digits();
    Number { negative: sign == num_bigint::Sign::Minus, digits }
}

fn owner(heap: &mut Heap, bytes: &[u8], len: u64) -> Bits {
    let cell = make(heap, bytes, len).expect("room");
    bits(heap, cell).expect("a binary")
}

#[test]
fn a_binary_shows_its_bytes_and_a_partial_last_one() {
    let mut heap = Heap::new();
    let b = owner(&mut heap, &[1, 2, 3], 24);
    assert_eq!(text(&heap, b), "<<1, 2, 3>>");
    let b = owner(&mut heap, &[0xFF, 0b1011_1111], 11);
    assert_eq!(text(&heap, b), "<<255, 5:size(3)>>");
    let b = owner(&mut heap, &[], 0);
    assert_eq!(text(&heap, b), "<<>>");
}

#[test]
fn from_int_writes_the_low_bits_most_significant_first() {
    assert_eq!(from_int(&Number::from_i128(1), 4), vec![0b0001_0000]);
    assert_eq!(from_int(&Number::from_i128(65), 8), vec![65]);
    assert_eq!(from_int(&Number::from_i128(0x1234), 16), vec![0x12, 0x34]);
    assert_eq!(from_int(&Number::from_i128(0x1FF), 8), vec![0xFF]);
    assert_eq!(from_int(&Number::from_i128((-1)), 12), vec![0xFF, 0xF0]);
    assert_eq!(from_int(&Number::from_i128(7), 0), Vec::<u8>::new());
    let big: BigInt = BigInt::from(1) << 100;
    let wide = from_int(&number(&big), 104);
    assert_eq!(wide.len(), 13);
    assert_eq!(wide[0], 0x10);
}

/// A slice of a slice reads the right bits of the owner, at any offset.
#[test]
fn slices_read_through_to_the_owner() {
    let mut heap = Heap::new();
    let b = owner(&mut heap, &[0b1010_1100, 0b0011_0101, 0xFF], 24);
    let s1 = slice(&mut heap, b, 3, 17).expect("room");
    let s1 = bits(&heap, s1).expect("a slice");
    let s2 = slice(&mut heap, s1, 2, 9).expect("room");
    let s2 = bits(&heap, s2).expect("a slice");
    // Bits 5..14 of the owner: 1 0 0 0 0 1 1 0 1.
    assert_eq!(bytes(&heap, s2), vec![0b1000_0110, 0b1000_0000]);
    assert_eq!(read_uint(&heap, s2, 0, 9).digits, vec![0b1_0000_1101]);
    assert_eq!(read_uint(&heap, s2, 5, 8).digits, vec![0b1101_0000]);
    let want = owner(&mut heap, &[0b1000_0110, 0b1000_0000], 9);
    assert!(equal(&heap, s2, want));
}

#[test]
fn join_packs_at_any_bit() {
    let mut heap = Heap::new();
    let a = owner(&mut heap, &[0b1010_0000], 3);
    let b = owner(&mut heap, &[0xFF, 0b1000_0000], 9);
    let j = join(&mut heap, &[a, b, a]).expect("room");
    let j = bits(&heap, j).expect("a binary");
    assert_eq!(j.len, 15);
    // 101, then nine 1s, then 101.
    assert_eq!(bytes(&heap, j), vec![0b1011_1111, 0b1111_1010]);
}

#[test]
fn utf8_reads_one_code_point_or_none() {
    let mut heap = Heap::new();
    let b = owner(&mut heap, "é!".as_bytes(), 24);
    assert_eq!(read_utf8(&heap, b, 0), Some(('é' as u32, 16)));
    assert_eq!(read_utf8(&heap, b, 16), Some(('!' as u32, 8)));
    assert_eq!(read_utf8(&heap, b, 8), None);
    assert_eq!(read_utf8(&heap, b, 24), None);
}

#[test]
fn a_binary_finds_a_prefix_at_any_bit() {
    let mut heap = Heap::new();
    let b = owner(&mut heap, &[0b1010_1100, 0b0011_0101], 16);
    let p = owner(&mut heap, &[0b0110_0000], 3);
    assert!(has_at(&heap, b, 3, p));
    assert!(!has_at(&heap, b, 0, p));
    assert!(!has_at(&heap, b, 14, p));
    assert_eq!(byte(&heap, b, 4), 0b1100_0011);
    assert_eq!(whole_byte(&heap, b, 1), Some(0b0011_0101));
    assert_eq!(whole_byte(&heap, b, 2), None);
    assert_eq!(whole_bytes(&heap, b), vec![0b1010_1100, 0b0011_0101]);
}

#[test]
fn a_wide_number_reads_back_as_it_was_written() {
    let mut heap = Heap::new();
    let n: BigInt = "98765432109876543210987654321".parse().expect("a number");
    let written = from_int(&number(&n), 104);
    let b = owner(&mut heap, &written, 104);
    let back = read_uint(&heap, b, 0, 104);
    assert!(!back.negative);
    assert_eq!(back.digits, number(&n).digits);
    assert!(read_uint(&heap, b, 0, 0).is_zero());
    // The low bits of a negative number are those of its two's complement.
    let low = from_int(&number(&-n), 64);
    let b = owner(&mut heap, &low, 64);
    let want = (-98765432109876543210987654321i128) as u64;
    assert_eq!(read_uint(&heap, b, 0, 64).digits, vec![want]);
}
