use bv::{Address, BlockType};

#[test]
fn widths() {
    assert_eq!(u8::nbits(), 8);
    assert_eq!(u16::nbits(), 16);
    assert_eq!(u32::nbits(), 32);
    assert_eq!(u64::nbits(), 64);
    assert_eq!(u128::nbits(), 128);
    assert_eq!(usize::nbits(), usize::BITS as usize);
}

#[test]
fn block_counts_round_up() {
    assert_eq!(u8::ceil_div_nbits(0), 0);
    assert_eq!(u8::ceil_div_nbits(1), 1);
    assert_eq!(u8::ceil_div_nbits(7), 1);
    assert_eq!(u8::ceil_div_nbits(8), 1);
    assert_eq!(u8::ceil_div_nbits(9), 2);
    assert_eq!(u8::ceil_div_nbits(16), 2);
    assert_eq!(u32::ceil_div_nbits(32), 1);
    assert_eq!(u32::ceil_div_nbits(33), 2);
    assert_eq!(u64::ceil_div_nbits(64 * 5), 5);
    assert_eq!(u64::ceil_div_nbits(64 * 5 + 1), 6);
    assert_eq!(u128::ceil_div_nbits(127), 1);
    assert_eq!(u128::ceil_div_nbits(129), 2);
    assert_eq!(u64::ceil_div_nbits(u64::MAX), 1 << 58);
    assert_eq!(u128::ceil_div_nbits(u64::MAX), 1 << 57);
}

#[test]
fn bits_in_each_block() {
    assert_eq!(u8::block_bits(16, 0), 8);
    assert_eq!(u8::block_bits(16, 1), 8);
    assert_eq!(u8::block_bits(13, 0), 8);
    assert_eq!(u8::block_bits(13, 1), 5);
    assert_eq!(u8::block_bits(1, 0), 1);
    assert_eq!(u32::block_bits(33, 1), 1);
    assert_eq!(u32::block_bits(64, 1), 32);
    assert_eq!(u64::block_bits(u64::MAX, (1 << 58) - 1), 63);
    assert_eq!(u64::block_bits(u64::MAX, 0), 64);
}

#[test]
fn bits_in_the_last_block() {
    assert_eq!(u8::last_block_bits(16), 8);
    assert_eq!(u8::last_block_bits(13), 5);
    assert_eq!(u8::last_block_bits(1), 1);
    assert_eq!(u8::last_block_bits(0), 8);
    assert_eq!(u16::last_block_bits(17), 1);
    assert_eq!(u128::last_block_bits(128), 128);
    assert_eq!(u128::last_block_bits(255), 127);
}

#[test]
fn position_to_block_and_offset() {
    assert_eq!(u8::div_nbits(0), 0);
    assert_eq!(u8::mod_nbits(0), 0);
    assert_eq!(u8::div_nbits(7), 0);
    assert_eq!(u8::mod_nbits(7), 7);
    assert_eq!(u8::div_nbits(8), 1);
    assert_eq!(u8::mod_nbits(8), 0);
    assert_eq!(u16::div_nbits(35), 2);
    assert_eq!(u16::mod_nbits(35), 3);
    assert_eq!(u64::div_nbits(1000), 15);
    assert_eq!(u64::mod_nbits(1000), 40);
    assert_eq!(u128::div_nbits(1000), 7);
    assert_eq!(u128::mod_nbits(1000), 104);
    assert_eq!(u32::mul_nbits(0), 0);
    assert_eq!(u32::mul_nbits(3), 96);
    assert_eq!(u128::mul_nbits(5), 640);
}

#[test]
fn addresses() {
    assert_eq!(Address::new::<u8>(0), Address { block_index: 0, bit_offset: 0 });
    assert_eq!(Address::new::<u8>(13), Address { block_index: 1, bit_offset: 5 });
    assert_eq!(Address::new::<u32>(13), Address { block_index: 0, bit_offset: 13 });
    assert_eq!(Address::new::<u32>(95), Address { block_index: 2, bit_offset: 31 });
    assert_eq!(Address::new::<u64>(128), Address { block_index: 2, bit_offset: 0 });
    assert_eq!(Address::new::<u128>(129), Address { block_index: 1, bit_offset: 1 });
}

#[test]
fn low_masks() {
    assert_eq!(u8::low_mask(0), 0);
    assert_eq!(u8::low_mask(1), 0b1);
    assert_eq!(u8::low_mask(3), 0b111);
    assert_eq!(u8::low_mask(7), 0b0111_1111);
    assert_eq!(u8::low_mask(8), 0xff);
    assert_eq!(u16::low_mask(0), 0);
    assert_eq!(u16::low_mask(9), 0x01ff);
    assert_eq!(u16::low_mask(16), 0xffff);
    assert_eq!(u32::low_mask(0), 0);
    assert_eq!(u32::low_mask(31), 0x7fff_ffff);
    assert_eq!(u32::low_mask(32), u32::MAX);
    assert_eq!(u64::low_mask(0), 0);
    assert_eq!(u64::low_mask(33), 0x1_ffff_ffff);
    assert_eq!(u64::low_mask(64), u64::MAX);
    assert_eq!(u128::low_mask(0), 0);
    assert_eq!(u128::low_mask(100), (1u128 << 100) - 1);
    assert_eq!(u128::low_mask(128), u128::MAX);
    assert_eq!(usize::low_mask(0), 0);
    assert_eq!(usize::low_mask(5), 0b11111);
    assert_eq!(usize::low_mask(usize::nbits()), usize::MAX);
}

#[test]
fn nth_masks() {
    assert_eq!(u8::nth_mask(0), 1);
    assert_eq!(u8::nth_mask(7), 0x80);
    assert_eq!(u32::nth_mask(17), 1 << 17);
    assert_eq!(u128::nth_mask(127), 1u128 << 127);
}

#[test]
fn zero_and_one() {
    assert_eq!(u8::zero(), 0);
    assert_eq!(u8::one(), 1);
    assert_eq!(u64::zero(), 0);
    assert_eq!(u64::one(), 1);
    assert_eq!(u128::zero(), 0);
    assert_eq!(u128::one(), 1);
}

#[test]
fn whole_block_operations() {
    assert_eq!(0b1100u8.bit_and(0b1010), 0b1000);
    assert_eq!(0b1100u8.bit_or(0b1010), 0b1110);
    assert_eq!(0b1100u8.bit_not(), 0b1111_0011);
    assert_eq!(0b1100_0001u8.shl(1), 0b1000_0010);
    assert_eq!(0b1100_0001u8.shl(7), 0b1000_0000);
    assert_eq!(0b1100_0001u8.shl(0), 0b1100_0001);
    assert_eq!(0b1100_0001u8.shr(1), 0b0110_0000);
    assert_eq!(0b1100_0001u8.shr(7), 0b0000_0001);
    assert_eq!(0xffff_0000u32.bit_not(), 0x0000_ffff);
    assert_eq!(1u64.shl(63), 1 << 63);
    assert_eq!(u128::MAX.shr(127), 1);
    assert!(5u16.block_eq(5));
    assert!(!5u16.block_eq(6));
    assert!(5u16.block_lt(6));
    assert!(!6u16.block_lt(6));
    assert!(!7u16.block_lt(6));
}

#[test]
fn block_get_bit_and_with_bit() {
    let block = 0b0100_1000u8;
    assert!(!block.get_bit(0));
    assert!(block.get_bit(3));
    assert!(block.get_bit(6));
    assert!(!block.get_bit(7));
    assert_eq!(block.with_bit(0, true), 0b0100_1001);
    assert_eq!(block.with_bit(3, false), 0b0100_0000);
    assert_eq!(block.with_bit(3, true), block);
    assert_eq!(block.with_bit(7, true), 0b1100_1000);
    assert!((1u128 << 127).get_bit(127));
    assert_eq!(0u128.with_bit(127, true), 1u128 << 127);
    assert_eq!(u64::MAX.with_bit(40, false), u64::MAX ^ (1 << 40));
}

#[test]
fn block_get_bits_and_with_bits() {
    let block = 0b1011_0110u8;
    assert_eq!(block.get_bits(0, 8), block);
    assert_eq!(block.get_bits(0, 0), 0);
    assert_eq!(block.get_bits(8, 0), 0);
    assert_eq!(block.get_bits(1, 3), 0b011);
    assert_eq!(block.get_bits(4, 4), 0b1011);
    assert_eq!(block.get_bits(2, 5), 0b01101);
    assert_eq!(block.with_bits(0, 8, 0x5a), 0x5a);
    assert_eq!(block.with_bits(0, 0, 0xff), block);
    assert_eq!(block.with_bits(8, 0, 0xff), block);
    assert_eq!(block.with_bits(2, 3, 0b1111_1010), 0b1010_1010);
    assert_eq!(block.with_bits(4, 4, 0), 0b0000_0110);
    assert_eq!(0u32.with_bits(28, 4, 0xffff_ffff), 0xf000_0000);
    assert_eq!(0xdead_beef_u32.get_bits(16, 16), 0xdead);
}
