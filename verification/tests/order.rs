use bv::blocks::{bits_eq, bits_order, to_blocks, Order};
use bv::{BitSliceable, BitVec, Bits, BitsMut, BitsPush};
use std::cmp::Ordering;
use std::collections::hash_map::DefaultHasher;
use std::hash::{Hash, Hasher};

fn from_bools(bits: &[bool]) -> BitVec<u8> {
    let mut vec = BitVec::new();
    for &bit in bits {
        vec.push(bit);
    }
    vec
}

#[test]
fn equality_ignores_how_a_vector_was_built() {
    let filled: BitVec<u8> = BitVec::new_fill(true, 13);
    let mut pushed: BitVec<u8> = BitVec::with_capacity(100);
    for _ in 0..13 {
        pushed.push(true);
    }
    let mut grown: BitVec<u8> = BitVec::new();
    for _ in 0..13 {
        grown.push(true);
    }
    assert!(filled.block_capacity() != pushed.block_capacity());
    assert!(filled == pushed);
    assert!(pushed == grown);
    assert!(grown == filled);
    assert_eq!(filled, pushed);
    assert_eq!(to_blocks(&filled), to_blocks(&pushed));
    assert_eq!(to_blocks(&filled), to_blocks(&grown));
    assert_eq!(to_blocks(&filled), vec![0xff, 0x1f]);
}

#[test]
fn equality_ignores_bits_past_the_end() {
    let mut a: BitVec<u8> = BitVec::new();
    a.push_block(0xff);
    for _ in 0..5 {
        a.pop();
    }
    let b = from_bools(&[true, true, true]);
    assert!(a == b);
    assert_eq!(to_blocks(&a), to_blocks(&b));
    assert_eq!(a.partial_cmp(&b), Some(Ordering::Equal));
    let mut c: BitVec<u8> = BitVec::new_fill(false, 3);
    c.set_block(0, 0xff);
    assert!(c == b);
    assert_eq!(to_blocks(&c), vec![0b111]);
}

#[test]
fn vectors_of_different_length_are_not_equal() {
    let a = from_bools(&[true, false]);
    let b = from_bools(&[true, false, false]);
    assert!(a != b);
    assert!(b != a);
    let empty: BitVec<u8> = BitVec::new();
    assert!(a != empty);
    assert!(empty == BitVec::new());
}

#[test]
fn vectors_that_differ_in_one_bit_are_not_equal() {
    let bits: Vec<bool> = (0..19).map(|i| i % 3 == 0).collect();
    let a = from_bools(&bits);
    for i in 0..19 {
        let mut b = a.clone();
        b.set_bit(i, !a.get_bit(i));
        assert!(a != b);
        b.set_bit(i, a.get_bit(i));
        assert!(a == b);
    }
}

#[test]
fn bits_eq_compares_containers_of_different_kinds() {
    let bools = vec![false, false, false, true, false, false, true, false, true, true];
    let vec: BitVec<u8> = BitVec::from_bits(&bools);
    assert!(bits_eq(&vec, &bools));
    assert!(bits_eq(&bools, &vec));
    let blocks = vec![0b0100_1000u8, 0b11];
    assert!(!bits_eq(&vec, &blocks));
    let view = blocks.as_slice().bit_slice(0..10);
    assert!(bits_eq(&vec, &view));
    let view = blocks.as_slice().bit_slice(1..11);
    assert!(!bits_eq(&vec, &view));
}

#[test]
fn order_is_that_of_the_blocks() {
    let a: BitVec<u8> = BitVec::from_bits(&vec![1u8, 2, 3]);
    let b: BitVec<u8> = BitVec::from_bits(&vec![1u8, 3, 0]);
    let c: BitVec<u8> = BitVec::from_bits(&vec![1u8, 2]);
    assert_eq!(a.partial_cmp(&b), Some(Ordering::Less));
    assert_eq!(b.partial_cmp(&a), Some(Ordering::Greater));
    assert_eq!(a.partial_cmp(&a), Some(Ordering::Equal));
    assert_eq!(c.partial_cmp(&a), Some(Ordering::Less));
    assert_eq!(a.partial_cmp(&c), Some(Ordering::Greater));
    assert!(a < b);
    assert!(c < a);
    assert!(b > c);
    assert!(a <= a);
    let empty: BitVec<u8> = BitVec::new();
    assert_eq!(empty.partial_cmp(&empty), Some(Ordering::Equal));
    assert_eq!(empty.partial_cmp(&c), Some(Ordering::Less));
    assert_eq!(c.partial_cmp(&empty), Some(Ordering::Greater));
}

#[test]
fn order_looks_at_block_values_not_at_bit_order() {
    let a = from_bools(&[false, true]);
    let b = from_bools(&[true, false]);
    assert_eq!(to_blocks(&a), vec![2]);
    assert_eq!(to_blocks(&b), vec![1]);
    assert_eq!(a.partial_cmp(&b), Some(Ordering::Greater));
    assert_eq!(bits_order(&a, &b), Order::Greater);
    assert_eq!(bits_order(&b, &a), Order::Less);
}

#[test]
fn bits_order_of_containers_of_different_kinds() {
    let bools = vec![true, false, true];
    let blocks = vec![5u8];
    assert_eq!(bits_order(&bools, &blocks), Order::Equal);
    let blocks = vec![6u8];
    assert_eq!(bits_order(&bools, &blocks), Order::Less);
    let blocks = vec![5u8, 0];
    assert_eq!(bits_order(&bools, &blocks), Order::Less);
    assert_eq!(bits_order(&blocks, &bools), Order::Greater);
}

#[test]
fn to_blocks_of_plain_containers() {
    assert_eq!(to_blocks(&vec![true; 9]), vec![0xff, 1]);
    assert_eq!(to_blocks(&vec![7u32, 8, 9]), vec![7, 8, 9]);
    assert_eq!(to_blocks(&Vec::<bool>::new()), Vec::<u8>::new());
}

fn hash_of(vec: &BitVec<u8>) -> u64 {
    let mut state = DefaultHasher::new();
    vec.hash(&mut state);
    state.finish()
}

#[test]
fn hash_ignores_how_a_vector_was_built() {
    let filled: BitVec<u8> = BitVec::new_fill(true, 13);
    let mut pushed: BitVec<u8> = BitVec::with_capacity(100);
    for _ in 0..13 {
        pushed.push(true);
    }
    let mut popped: BitVec<u8> = BitVec::new();
    popped.push_block(0xff);
    popped.push_block(0xff);
    for _ in 0..3 {
        popped.pop();
    }
    assert!(filled == pushed);
    assert!(filled == popped);
    assert_eq!(hash_of(&filled), hash_of(&pushed));
    assert_eq!(hash_of(&filled), hash_of(&popped));
}

#[test]
fn hash_tells_lengths_and_bits_apart() {
    let a = from_bools(&[true, false]);
    let b = from_bools(&[true, false, false]);
    let c = from_bools(&[true, true]);
    let empty: BitVec<u8> = BitVec::new();
    assert_ne!(hash_of(&a), hash_of(&b));
    assert_ne!(hash_of(&a), hash_of(&c));
    assert_ne!(hash_of(&a), hash_of(&empty));
    assert_eq!(hash_of(&empty), hash_of(&BitVec::new()));
}
