use bv::blocks::to_blocks;
use bv::{BitVec, Bits, BitsMut, BitsPush, BlockType};

fn pattern(i: u64) -> bool {
    (i * i + i / 3) % 5 < 2
}

fn round_trip<Block: BlockType + std::fmt::Debug + PartialEq>(len: u64) {
    let mut vec: BitVec<Block> = BitVec::new();
    for i in 0..len {
        vec.push_bit(pattern(i));
        assert_eq!(vec.bit_len(), i + 1);
    }
    assert_eq!(vec.len(), len);
    assert_eq!(vec.block_len(), Block::ceil_div_nbits(len));
    for i in 0..len {
        assert_eq!(vec.get_bit(i), pattern(i));
    }
}

fn round_trip_all_lengths<Block: BlockType + std::fmt::Debug + PartialEq>() {
    let w = Block::nbits() as u64;
    for len in [0, 1, w - 1, w, w + 1, 2 * w, 3 * w, 5 * w - 1, 5 * w, 5 * w + 1] {
        round_trip::<Block>(len);
    }
}

#[test]
fn push_then_get_round_trip_u8() {
    round_trip_all_lengths::<u8>();
}

#[test]
fn push_then_get_round_trip_u16() {
    round_trip_all_lengths::<u16>();
}

#[test]
fn push_then_get_round_trip_u32() {
    round_trip_all_lengths::<u32>();
}

#[test]
fn push_then_get_round_trip_u64() {
    round_trip_all_lengths::<u64>();
}

#[test]
fn push_then_get_round_trip_u128() {
    round_trip_all_lengths::<u128>();
}

#[test]
fn push_then_get_round_trip_usize() {
    round_trip_all_lengths::<usize>();
}

#[test]
fn scenario_push_three_pop_two() {
    let mut vec: BitVec<u8> = BitVec::new();
    vec.push_bit(true);
    vec.push_bit(true);
    vec.push_bit(true);
    assert_eq!(vec.pop_bit(), Some(true));
    assert_eq!(vec.pop_bit(), Some(true));
    assert_eq!(vec.bit_len(), 1);
    assert!(vec.get_bit(0));
}

#[test]
fn pop_from_empty_gives_nothing() {
    let mut vec: BitVec<u32> = BitVec::new();
    assert_eq!(vec.pop_bit(), None);
    assert_eq!(vec.pop(), None);
    assert_eq!(vec.len(), 0);
    vec.push(false);
    assert_eq!(vec.pop(), Some(false));
    assert_eq!(vec.pop(), None);
}

#[test]
fn pop_returns_bits_last_first_and_keeps_the_storage() {
    let mut vec: BitVec<u8> = BitVec::new();
    for i in 0..20 {
        vec.push(pattern(i));
    }
    let capacity = vec.block_capacity();
    for i in (0..20).rev() {
        assert_eq!(vec.pop(), Some(pattern(i)));
        assert_eq!(vec.len(), i);
    }
    assert_eq!(vec.block_capacity(), capacity);
}

#[test]
fn new_is_empty_and_unallocated() {
    let vec: BitVec<u64> = BitVec::new();
    assert_eq!(vec.len(), 0);
    assert!(vec.is_empty());
    assert_eq!(vec.block_len(), 0);
    assert_eq!(vec.block_capacity(), 0);
    assert!(vec.is_valid());
    let vec: BitVec<u64> = BitVec::default();
    assert_eq!(vec.len(), 0);
    assert_eq!(vec.block_capacity(), 0);
}

#[test]
fn with_capacity_reserves_whole_blocks() {
    let vec: BitVec<u8> = BitVec::with_capacity(17);
    assert_eq!(vec.len(), 0);
    assert_eq!(vec.block_capacity(), 3);
    let vec: BitVec<u32> = BitVec::with_block_capacity(4);
    assert_eq!(vec.len(), 0);
    assert_eq!(vec.block_capacity(), 4);
    let vec: BitVec<u32> = BitVec::with_capacity(0);
    assert_eq!(vec.block_capacity(), 0);
}

#[test]
fn new_fill_sets_every_bit() {
    let vec: BitVec<u8> = BitVec::new_fill(true, 13);
    assert_eq!(vec.len(), 13);
    assert_eq!(vec.block_len(), 2);
    for i in 0..13 {
        assert!(vec.get_bit(i));
    }
    assert_eq!(vec.get_block(0), 0xff);
    assert_eq!(vec.get_block(1), 0b0001_1111);
    let vec: BitVec<u8> = BitVec::new_fill(false, 13);
    assert_eq!(vec.len(), 13);
    assert_eq!(vec.get_block(0), 0);
    assert_eq!(vec.get_block(1), 0);
    let vec: BitVec<u16> = BitVec::new_fill(true, 0);
    assert!(vec.is_empty());
}

#[test]
fn new_block_fill_repeats_the_block() {
    let vec: BitVec<u16> = BitVec::new_block_fill(0xa5a5, 3);
    assert_eq!(vec.len(), 48);
    assert_eq!(vec.block_len(), 3);
    for k in 0..3 {
        assert_eq!(vec.get_block(k), 0xa5a5);
    }
    assert!(vec.get_bit(0));
    assert!(!vec.get_bit(1));
    assert!(vec.get_bit(47));
}

#[test]
fn storage_doubles_when_it_is_full() {
    let mut vec: BitVec<u8> = BitVec::new();
    let mut seen = Vec::new();
    for _ in 0..65 {
        vec.push(true);
        if seen.last() != Some(&vec.block_capacity()) {
            seen.push(vec.block_capacity());
        }
    }
    assert_eq!(seen, vec![1, 2, 4, 8, 16]);
}

#[test]
fn block_reserve_grows_to_what_is_asked_when_that_is_more() {
    let mut vec: BitVec<u8> = BitVec::with_block_capacity(2);
    vec.block_reserve(2);
    assert_eq!(vec.block_capacity(), 2);
    vec.block_reserve(3);
    assert_eq!(vec.block_capacity(), 4);
    vec.block_reserve(10);
    assert_eq!(vec.block_capacity(), 10);
    vec.push_block(0xff);
    vec.block_reserve(9);
    assert_eq!(vec.block_capacity(), 10);
    vec.block_reserve(10);
    assert_eq!(vec.block_capacity(), 20);
}

#[test]
fn reserve_makes_room_and_keeps_the_bits() {
    let mut vec: BitVec<u8> = BitVec::new();
    vec.push(true);
    vec.push(false);
    vec.reserve(30);
    assert!(vec.block_capacity() >= 4);
    assert_eq!(vec.len(), 2);
    assert!(vec.get_bit(0));
    assert!(!vec.get_bit(1));
    let capacity = vec.block_capacity();
    for _ in 0..30 {
        vec.push(true);
    }
    assert_eq!(vec.block_capacity(), capacity);
}

#[test]
fn align_block_pads_to_the_boundary() {
    let mut vec: BitVec<u8> = BitVec::new();
    vec.push(true);
    vec.push(false);
    vec.push(true);
    vec.align_block(true);
    assert_eq!(vec.len(), 8);
    assert_eq!(vec.get_block(0), 0b1111_1101);

    let mut vec: BitVec<u8> = BitVec::new();
    vec.push(true);
    vec.push(false);
    vec.push(true);
    vec.align_block(false);
    assert_eq!(vec.len(), 8);
    assert_eq!(vec.get_block(0), 0b0000_0101);
}

#[test]
fn align_block_overwrites_what_pop_left_behind() {
    let mut vec: BitVec<u8> = BitVec::new();
    vec.push_block(0xff);
    for _ in 0..5 {
        vec.pop();
    }
    assert_eq!(vec.len(), 3);
    vec.align_block(false);
    assert_eq!(vec.len(), 8);
    assert_eq!(vec.get_block(0), 0b0000_0111);
}

#[test]
fn align_block_twice_is_align_block_once() {
    for len in 0..20u64 {
        for value in [false, true] {
            let mut once: BitVec<u8> = BitVec::new();
            for i in 0..len {
                once.push(pattern(i));
            }
            let mut twice = once.clone();
            once.align_block(value);
            twice.align_block(value);
            twice.align_block(!value);
            assert_eq!(once.len(), (len + 7) / 8 * 8);
            assert_eq!(twice.len(), once.len());
            assert!(once == twice);
            for i in 0..once.len() {
                let expected = if i < len { pattern(i) } else { value };
                assert_eq!(once.get_bit(i), expected);
            }
        }
    }
}

#[test]
fn align_block_on_a_boundary_does_nothing() {
    let mut vec: BitVec<u16> = BitVec::new();
    vec.align_block(true);
    assert_eq!(vec.len(), 0);
    vec.push_block(0x1234);
    vec.align_block(true);
    assert_eq!(vec.len(), 16);
    assert_eq!(vec.get_block(0), 0x1234);
}

#[test]
fn push_block_then_get_block_gives_the_block() {
    for len in 0..20u64 {
        let mut vec: BitVec<u8> = BitVec::new();
        for i in 0..len {
            vec.push(pattern(i));
        }
        let blocks_before = vec.block_len();
        vec.push_block(0b1001_0110);
        assert_eq!(vec.block_len(), blocks_before + 1);
        assert_eq!(vec.len(), (len + 7) / 8 * 8 + 8);
        assert_eq!(vec.get_block(blocks_before), 0b1001_0110);
        for i in 0..len {
            assert_eq!(vec.get_bit(i), pattern(i));
        }
        for i in len..(len + 7) / 8 * 8 {
            assert!(!vec.get_bit(i));
        }
    }
}

#[test]
fn push_block_of_every_width() {
    let mut vec: BitVec<u16> = BitVec::new();
    vec.push(true);
    vec.push_block(0xbeef);
    assert_eq!(vec.len(), 32);
    assert_eq!(vec.get_block(0), 1);
    assert_eq!(vec.get_block(1), 0xbeef);
    let mut vec: BitVec<u32> = BitVec::new();
    vec.push_block(0xdead_beef);
    assert_eq!(vec.get_block(0), 0xdead_beef);
    let mut vec: BitVec<u64> = BitVec::new();
    vec.push(false);
    vec.push_block(0xdead_beef_0bad_f00d);
    assert_eq!(vec.get_block(1), 0xdead_beef_0bad_f00d);
    let mut vec: BitVec<u128> = BitVec::new();
    vec.push_block(u128::MAX - 1);
    vec.push_block(7);
    assert_eq!(vec.get_block(0), u128::MAX - 1);
    assert_eq!(vec.get_block(1), 7);
    assert_eq!(vec.len(), 256);
}

#[test]
fn generic_and_direct_push_block_agree() {
    for len in 0..20u64 {
        let mut direct: BitVec<u8> = BitVec::new();
        let mut bitwise: Vec<bool> = Vec::new();
        for i in 0..len {
            direct.push_bit(pattern(i));
            bitwise.push_bit(pattern(i));
        }
        direct.push_block(0b0110_1011);
        bitwise.push_block(0b0110_1011);
        assert_eq!(direct.bit_len(), bitwise.bit_len());
        for i in 0..direct.bit_len() {
            assert_eq!(direct.get_bit(i), bitwise.get_bit(i));
        }
    }
}

#[test]
fn get_block_hides_the_bits_past_the_end() {
    let mut vec: BitVec<u8> = BitVec::new();
    vec.push_block(0xff);
    vec.push_block(0xff);
    for _ in 0..6 {
        vec.pop();
    }
    assert_eq!(vec.len(), 10);
    assert_eq!(vec.block_len(), 2);
    assert_eq!(vec.get_block(0), 0xff);
    assert_eq!(vec.get_block(1), 0b0000_0011);
    assert_eq!(vec.get_bits(4, 6), 0b0011_1111);
    assert_eq!(to_blocks(&vec), vec![0xff, 0b0000_0011]);
}

#[test]
fn set_block_on_the_last_block_shows_only_its_bits() {
    let mut vec: BitVec<u8> = BitVec::new_fill(false, 11);
    vec.set_block(1, 0xff);
    assert_eq!(vec.get_block(1), 0b0000_0111);
    assert_eq!(vec.len(), 11);
    vec.push(false);
    assert_eq!(vec.get_block(1), 0b0000_0111);
    assert!(!vec.get_bit(11));
}

#[test]
fn set_bit_and_set_bits_on_a_vector() {
    let mut vec: BitVec<u8> = BitVec::new_fill(false, 20);
    vec.set_bit(0, true);
    vec.set_bit(19, true);
    assert_eq!(vec.get_block(0), 1);
    assert_eq!(vec.get_block(2), 0b1000);
    vec.set_bits(6, 8, 0b1010_0111);
    assert_eq!(vec.get_block(0), 0b1100_0001);
    assert_eq!(vec.get_block(1), 0b0010_1001);
    assert_eq!(vec.get_bits(6, 8), 0b1010_0111);
    vec.set_bit(0, false);
    assert_eq!(vec.get_block(0), 0b1100_0000);
}

#[test]
fn truncate_and_clear_keep_the_storage() {
    let mut vec: BitVec<u8> = BitVec::new_fill(true, 20);
    let capacity = vec.block_capacity();
    vec.truncate(30);
    assert_eq!(vec.len(), 20);
    vec.truncate(9);
    assert_eq!(vec.len(), 9);
    assert_eq!(vec.block_len(), 2);
    assert_eq!(vec.get_block(1), 1);
    assert_eq!(vec.block_capacity(), capacity);
    vec.clear();
    assert!(vec.is_empty());
    assert_eq!(vec.block_capacity(), capacity);
    vec.push(false);
    assert_eq!(vec.get_block(0), 0);
}

#[test]
fn from_bits_copies_any_container() {
    let bools = vec![true, false, false, true, false, true, true, false, false, true, true];
    let vec: BitVec<u8> = BitVec::from_bits(&bools);
    assert_eq!(vec.len(), 11);
    for i in 0..11 {
        assert_eq!(vec.get_bit(i), bools[i as usize]);
    }
    assert_eq!(vec.get_block(0), 0b0110_1001);
    assert_eq!(vec.get_block(1), 0b0000_0110);

    let blocks = vec![0x1234u16, 0x5678];
    let vec: BitVec<u16> = BitVec::from_bits(&blocks);
    assert_eq!(vec.len(), 32);
    assert_eq!(vec.get_block(0), 0x1234);
    assert_eq!(vec.get_block(1), 0x5678);

    let empty: Vec<bool> = Vec::new();
    let vec: BitVec<u8> = BitVec::from_bits(&empty);
    assert!(vec.is_empty());
    assert_eq!(vec.block_capacity(), 0);
}

#[test]
fn clone_has_the_same_bits() {
    let mut vec: BitVec<u8> = BitVec::new();
    for i in 0..13 {
        vec.push(pattern(i));
    }
    let mut copy = vec.clone();
    assert!(copy == vec);
    copy.set_bit(0, !vec.get_bit(0));
    assert!(copy != vec);
    assert_eq!(vec.get_bit(0), pattern(0));
}

#[test]
fn index_reads_a_bit() {
    let mut vec: BitVec<u8> = BitVec::new();
    for i in 0..13 {
        vec.push(pattern(i));
    }
    for i in 0..13 {
        assert_eq!(vec[i], pattern(i));
    }
}

#[test]
fn push_grows_the_storage_only_when_it_is_full() {
    let mut vec: BitVec<u16> = BitVec::with_block_capacity(3);
    for i in 0..48 {
        vec.push(pattern(i));
        assert_eq!(vec.block_capacity(), 3);
    }
    vec.push(true);
    assert_eq!(vec.block_capacity(), 6);
    for i in 0..48 {
        assert_eq!(vec.get_bit(i), pattern(i));
    }
    assert!(vec.get_bit(48));
}

#[test]
fn to_bit_vec_copies_the_bits() {
    let bools = vec![true, true, false, true, false, false, false, false, true];
    let vec = bv::traits::to_bit_vec(&bools);
    assert_eq!(vec.len(), 9);
    assert_eq!(vec.get_block(0), 0b0000_1011);
    assert_eq!(vec.get_block(1), 1);
    let view = bools.as_slice();
    let again = bv::traits::to_bit_vec(view);
    assert!(vec == again);
}

struct Lcg(u64);

impl Lcg {
    fn next(&mut self) -> u64 {
        self.0 = self.0.wrapping_mul(6364136223846793005).wrapping_add(1442695040888963407);
        self.0 >> 33
    }
}

fn same_bits<Block: BlockType>(vec: &BitVec<Block>, model: &Vec<bool>) {
    assert_eq!(vec.bit_len(), model.len() as u64);
    for i in 0..vec.bit_len() {
        assert_eq!(vec.get_bit(i), model[i as usize]);
    }
}

fn random_operations<Block: BlockType + PartialEq + std::fmt::Debug>(
    seed: u64,
    block_of: fn(u64) -> Block,
) {
    let width = Block::nbits();
    let mut random = Lcg(seed);
    let mut vec: BitVec<Block> = BitVec::new();
    let mut model: Vec<bool> = Vec::new();
    for _ in 0..600 {
        match random.next() % 9 {
            0 | 1 => {
                let bit = random.next() % 2 == 0;
                vec.push_bit(bit);
                model.push(bit);
            }
            2 => {
                assert_eq!(vec.pop_bit(), model.pop());
            }
            3 => {
                let block = block_of(random.next() ^ (random.next() << 31));
                vec.push_block(block);
                while model.len() % width != 0 {
                    model.push(false);
                }
                for i in 0..width {
                    model.push(block.get_bit(i));
                }
                assert_eq!(vec.get_block(vec.block_len() - 1), block);
            }
            4 => {
                let bit = random.next() % 2 == 0;
                vec.align_block(bit);
                while model.len() % width != 0 {
                    model.push(bit);
                }
            }
            5 => {
                if !model.is_empty() {
                    let position = random.next() % model.len() as u64;
                    let bit = random.next() % 2 == 0;
                    vec.set_bit(position, bit);
                    model[position as usize] = bit;
                }
            }
            6 => {
                let count = (random.next() % (width as u64 + 1)) as usize;
                if model.len() >= count {
                    let start = random.next() % (model.len() - count + 1) as u64;
                    let block = block_of(random.next() ^ (random.next() << 31));
                    vec.set_bits(start, count, block);
                    for i in 0..count {
                        model[start as usize + i] = block.get_bit(i);
                    }
                    let read = vec.get_bits(start, count);
                    for i in 0..width {
                        assert_eq!(read.get_bit(i), i < count && block.get_bit(i));
                    }
                }
            }
            7 => {
                if vec.block_len() > 0 {
                    let position = random.next() as usize % vec.block_len();
                    let block = block_of(random.next() ^ (random.next() << 31));
                    vec.set_block(position, block);
                    for i in 0..width {
                        let at = position * width + i;
                        if at < model.len() {
                            model[at] = block.get_bit(i);
                        }
                    }
                }
            }
            _ => {
                let len = random.next() % (model.len() as u64 + 3);
                vec.truncate(len);
                model.truncate(len as usize);
            }
        }
        assert!(vec.is_valid());
        same_bits(&vec, &model);
    }
    let mut copy: BitVec<Block> = BitVec::new();
    for &bit in &model {
        copy.push(bit);
    }
    assert!(copy == vec);
}

#[test]
fn random_operations_agree_with_a_vector_of_bools_u8() {
    for seed in 0..8 {
        random_operations::<u8>(seed, |x| x as u8);
    }
}

#[test]
fn random_operations_agree_with_a_vector_of_bools_u16() {
    for seed in 0..4 {
        random_operations::<u16>(seed, |x| x as u16);
    }
}

#[test]
fn random_operations_agree_with_a_vector_of_bools_u64() {
    for seed in 0..4 {
        random_operations::<u64>(seed, |x| x);
    }
}

#[test]
fn random_operations_agree_with_a_vector_of_bools_u128() {
    for seed in 0..4 {
        random_operations::<u128>(seed, |x| {
            (x as u128) << 64 | (x as u128).wrapping_mul(0x9e37_79b9)
        });
    }
}

#[test]
fn random_operations_agree_with_a_vector_of_bools_usize() {
    for seed in 0..4 {
        random_operations::<usize>(seed, |x| x as usize);
    }
}
