use bv::{BitSlice, BitSliceMut, BitSliceable, BitVec, Bits, BitsMut, BitsPush};

fn sample() -> BitVec<u8> {
    let mut vec = BitVec::new();
    for i in 0..40u64 {
        vec.push((i * 7 + i / 5) % 3 == 0);
    }
    vec
}

fn bits_of<T: Bits + ?Sized>(bits: &T) -> Vec<bool> {
    (0..bits.bit_len()).map(|i| bits.get_bit(i)).collect()
}

#[test]
fn slice_reads_the_bits_of_its_range() {
    let vec = sample();
    let all = bits_of(&vec);
    let slice = vec.bit_slice(5..29);
    assert_eq!(slice.bit_len(), 24);
    assert_eq!(slice.len(), 24);
    assert!(!slice.is_empty());
    assert_eq!(slice.block_len(), 3);
    assert_eq!(bits_of(&slice), all[5..29].to_vec());
}

#[test]
fn slice_of_slice_is_slice_of_the_sum() {
    let vec = sample();
    let ranges = [
        (0, 40, 0, 40),
        (3, 30, 2, 20),
        (8, 16, 0, 8),
        (7, 7, 0, 0),
        (1, 39, 38, 38),
        (10, 33, 5, 5),
        (9, 27, 1, 18),
    ];
    for (a, b, c, d) in ranges {
        let nested = vec.bit_slice(a..b).bit_slice(c..d);
        let direct = vec.bit_slice((a + c)..(a + d));
        assert_eq!(nested.bit_len(), d - c);
        assert_eq!(nested.offset, direct.offset);
        assert_eq!(nested.len, direct.len);
        assert_eq!(bits_of(&nested), bits_of(&direct));
        for k in 0..nested.block_len() {
            assert_eq!(nested.get_block(k), direct.get_block(k));
        }
    }
}

#[test]
fn slice_by_every_form_of_range() {
    let vec = sample();
    let all = bits_of(&vec);
    assert_eq!(bits_of(&vec.bit_slice(..)), all);
    assert_eq!(bits_of(&vec.bit_slice(7..)), all[7..].to_vec());
    assert_eq!(bits_of(&vec.bit_slice(..7)), all[..7].to_vec());
    assert_eq!(bits_of(&vec.bit_slice(..=7)), all[..=7].to_vec());
    assert_eq!(bits_of(&vec.bit_slice(7..19)), all[7..19].to_vec());
    assert_eq!(vec.bit_slice(40..).bit_len(), 0);
    assert_eq!(vec.bit_slice(..0).bit_len(), 0);
    assert_eq!(vec.bit_slice(..=39).bit_len(), 40);
    let view = vec.bit_slice(4..30);
    assert_eq!(bits_of(&view.bit_slice(3..)), all[7..30].to_vec());
    let view = vec.bit_slice(4..30);
    assert_eq!(bits_of(&view.bit_slice(..3)), all[4..7].to_vec());
    let view = vec.bit_slice(4..30);
    assert_eq!(bits_of(&view.bit_slice(..=3)), all[4..8].to_vec());
    let view = vec.bit_slice(4..30);
    assert_eq!(bits_of(&view.bit_slice(..)), all[4..30].to_vec());
}

#[test]
fn slice_blocks_start_at_the_slice() {
    let blocks = vec![0b1001_0110u8, 0b0110_1001, 0b1111_0000];
    let view = blocks.as_slice().bit_slice(4..20);
    assert_eq!(view.bit_len(), 16);
    assert_eq!(view.get_block(0), 0b1001_1001);
    assert_eq!(view.get_block(1), 0b0000_0110);
    assert_eq!(view.get_bits(4, 8), 0b0110_1001);
    let view = blocks.as_slice().bit_slice(4..18);
    assert_eq!(view.block_len(), 2);
    assert_eq!(view.get_block(1), 0b0000_0110);
    let view = blocks.as_slice().bit_slice(4..17);
    assert_eq!(view.get_block(1), 0b0000_0110);
    let view = blocks.as_slice().bit_slice(4..15);
    assert_eq!(view.get_block(1), 0b0000_0110);
    let view = blocks.as_slice().bit_slice(4..14);
    assert_eq!(view.get_block(1), 0b0000_0010);
}

#[test]
fn whole_views() {
    let vec = sample();
    let view = vec.as_slice();
    assert_eq!(view.offset, 0);
    assert_eq!(view.bit_len(), 40);
    assert_eq!(bits_of(&view), bits_of(&vec));
    let view = BitSlice::new(&vec);
    assert_eq!(bits_of(&view), bits_of(&vec));
    let bools = vec![true, false, true];
    let view = BitSlice::new(bools.as_slice());
    assert_eq!(bits_of(&view), bools);
    let empty: BitVec<u8> = BitVec::new();
    assert!(empty.as_slice().is_empty());
}

#[test]
fn mutable_slice_writes_only_inside_its_range() {
    let mut vec = sample();
    let before = bits_of(&vec);
    {
        let mut view = (&mut vec).bit_slice(5..29);
        assert_eq!(view.bit_len(), 24);
        assert_eq!(view.get_bit(0), before[5]);
        view.set_bit(0, !before[5]);
        view.set_bit(23, !before[28]);
        assert_eq!(view.get_bit(0), !before[5]);
    }
    let after = bits_of(&vec);
    for i in 0..40 {
        if i == 5 || i == 28 {
            assert_eq!(after[i], !before[i]);
        } else {
            assert_eq!(after[i], before[i]);
        }
    }
}

#[test]
fn mutable_slice_set_block_stops_at_the_end_of_the_slice() {
    let mut blocks = vec![0u8, 0, 0];
    {
        let mut view = blocks.as_mut_slice().bit_slice(2..22);
        assert_eq!(view.block_len(), 3);
        view.set_block(0, 0xff);
    }
    assert_eq!(blocks, vec![0b1111_1100, 0b0000_0011, 0]);
    {
        let mut view = blocks.as_mut_slice().bit_slice(2..22);
        view.set_block(2, 0xff);
        assert_eq!(view.get_block(2), 0b0000_1111);
    }
    assert_eq!(blocks, vec![0b1111_1100, 0b0000_0011, 0b0011_1100]);
    {
        let mut view = blocks.as_mut_slice().bit_slice(2..22);
        view.set_block(1, 0);
        view.set_bits(0, 3, 0b010);
        assert_eq!(view.get_bits(0, 3), 0b010);
    }
    assert_eq!(blocks, vec![0b1110_1000, 0b0000_0011, 0b0011_1100]);
}

#[test]
fn mutable_slice_of_mutable_slice() {
    let mut vec: BitVec<u16> = BitVec::new_fill(false, 40);
    {
        let outer = vec.as_mut_slice().bit_slice(4..36);
        let mut inner = outer.bit_slice(10..20);
        assert_eq!(inner.offset, 14);
        assert_eq!(inner.len(), 10);
        assert!(!inner.is_empty());
        inner.set_block(0, 0xffff);
    }
    for i in 0..40 {
        assert_eq!(vec.get_bit(i), (14..24).contains(&i));
    }
    {
        let mut view = BitSliceMut::new(&mut vec);
        view.set_bits(0, 4, 0b1001);
    }
    assert_eq!(vec.get_bits(0, 16), 0b1100_0000_0000_1001);
}

#[test]
fn slices_of_bools() {
    let mut bools = vec![false; 12];
    {
        let part = bools.as_mut_slice().bit_slice(3..9);
        assert_eq!(part.len(), 6);
        part.set_bit(0, true);
        part.set_bit(5, true);
    }
    let expected: Vec<bool> = (0..12).map(|i| i == 3 || i == 8).collect();
    assert_eq!(bools, expected);
    let part = bools.as_slice().bit_slice(2..);
    assert_eq!(part, &expected[2..]);
    let part = bools.as_slice().bit_slice(..4);
    assert_eq!(part, &expected[..4]);
    let part = bools.as_slice().bit_slice(..=3).bit_slice(3..);
    assert_eq!(part, &[true]);
    let part = bools.as_slice().bit_slice(..);
    assert_eq!(part.get_block(0), 0b0000_1000);
    assert_eq!(part.get_block(1), 0b0000_0001);
}

#[test]
fn pushing_after_slicing() {
    let mut vec = sample();
    {
        let mut view = (&mut vec).bit_slice(..8);
        view.set_block(0, 0xa5);
    }
    vec.push_bit(true);
    assert_eq!(vec.bit_len(), 41);
    assert_eq!(vec.get_block(0), 0xa5);
    assert!(vec.get_bit(40));
}

#[test]
fn slice_by_an_inclusive_range() {
    let vec = sample();
    let all = bits_of(&vec);
    assert_eq!(bits_of(&vec.bit_slice(7..=19)), all[7..=19].to_vec());
    assert_eq!(bits_of(&vec.bit_slice(0..=39)), all);
    assert_eq!(vec.bit_slice(7..=7).bit_len(), 1);
    assert_eq!(vec.bit_slice(7..=6).bit_len(), 0);
    let view = vec.bit_slice(4..30);
    assert_eq!(bits_of(&view.bit_slice(1..=3)), all[5..8].to_vec());
}
