//! Plain arrays as bit containers.
//!
//! A slice or vector of blocks is a container of all the bits of its blocks.
//! A slice or vector of `bool` is a container of its elements, grouped into
//! blocks of eight bits.

use crate::storage::{
    block_count, lemma_bit_in_blocks, lemma_block_count, lemma_div_mod_of,
    lemma_position_in_blocks, packed_bits,
    Address, BlockBits, BlockType,
};
use crate::range::BitRange;
use crate::traits::{block_at, overwrite, BitSliceable, Bits, BitsMut, BitsPush};
use vstd::slice::slice_subrange;
use vstd::prelude::*;

verus! {

/// `count` blocks hold `count * width` bits, in exactly `count` blocks.
pub proof fn lemma_whole_blocks(width: nat, count: nat)
    requires
        0 < width,
    ensures
        block_count(width, count * width) == count,
{
    lemma_div_mod_of(count as int, 0, width as int);
    lemma_block_count(width, count * width);
}

/// A slice has at most `usize::MAX` elements.
pub proof fn lemma_slice_len<T>(slice: &[T])
    ensures
        slice@.len() <= usize::MAX,
{
    assert(slice@.len() == slice.len());
}

/// A vector has at most `usize::MAX` elements.
pub proof fn lemma_vec_len<T>(vec: &Vec<T>)
    ensures
        vec@.len() <= usize::MAX,
{
    assert(vec@.len() == vec.len());
}

impl<Block: BlockType> Bits for [Block] {
    type Block = Block;

    open spec fn wf(&self) -> bool {
        self@.len() * Block::width() <= u64::MAX
    }

    open spec fn bit_seq(&self) -> Seq<bool> {
        packed_bits(self@, self@.len() * Block::width())
    }

    proof fn lemma_fits(&self) {
        Block::lemma_width();
        lemma_whole_blocks(Block::width(), self@.len());
        lemma_slice_len(self);
    }

    fn bit_len(&self) -> (len: u64) {
        Block::mul_nbits(self.len())
    }

    fn block_len(&self) -> (len: usize) {
        proof {
            Block::lemma_width();
            lemma_whole_blocks(Block::width(), self@.len());
        }
        self.len()
    }

    fn get_bit(&self, position: u64) -> (value: bool) {
        proof {
            Block::lemma_width();
            lemma_slice_len(self);
            lemma_position_in_blocks(Block::width(), self@.len(), position as nat);
        }
        let address = Address::new::<Block>(position);
        self[address.block_index].get_bit(address.bit_offset)
    }

    fn get_block(&self, position: usize) -> (block: Block) {
        proof {
            Block::lemma_width();
            lemma_whole_blocks(Block::width(), self@.len());
            let width = Block::width();
            let expected = block_at(self.bit_seq(), width, position as int);
            let found = self@[position as int];
            assert forall|j: int| 0 <= j < width implies found.bits()[j] == expected[j] by {
                lemma_bit_in_blocks(width, self@.len(), position as nat, j as nat);
            }
            assert(found.bits() =~= expected);
        }
        self[position]
    }
}

impl<Block: BlockType> BitsMut for [Block] {
    fn set_bit(&mut self, position: u64, value: bool) {
        let ghost width = Block::width();
        let ghost before = self.bit_seq();
        proof {
            Block::lemma_width();
            lemma_slice_len(&*self);
            lemma_position_in_blocks(width, self@.len(), position as nat);
        }
        let address = Address::new::<Block>(position);
        let block = self[address.block_index].with_bit(address.bit_offset, value);
        self[address.block_index] = block;
        proof {
            let expected = before.update(position as int, value);
            assert forall|j: int| 0 <= j < before.len() implies self.bit_seq()[j]
                == expected[j] by {
                lemma_position_in_blocks(width, self@.len(), j as nat);
                if j / width as int == address.block_index {
                    lemma_div_mod_of(
                        address.block_index as int,
                        address.bit_offset as int,
                        width as int,
                    );
                }
            }
            assert(self.bit_seq() =~= expected);
        }
    }

    fn set_block(&mut self, position: usize, value: Block) {
        let ghost width = Block::width();
        let ghost before = self.bit_seq();
        proof {
            Block::lemma_width();
            lemma_whole_blocks(width, self@.len());
        }
        self[position] = value;
        proof {
            let expected = overwrite(before, position * width, width as int, value.bits());
            assert forall|j: int| 0 <= j < before.len() implies self.bit_seq()[j]
                == expected[j] by {
                lemma_position_in_blocks(width, self@.len(), j as nat);
                let q = j / width as int;
                if q == position {
                } else if q < position {
                    assert(q * width + width <= position * width) by (nonlinear_arith)
                        requires
                            q + 1 <= position,
                            0 < width,
                    ;
                } else {
                    assert(q * width >= position * width + width) by (nonlinear_arith)
                        requires
                            q >= position + 1,
                            0 < width,
                    ;
                }
            }
            assert(self.bit_seq() =~= expected);
        }
    }
}

impl<Block: BlockType> Bits for Vec<Block> {
    type Block = Block;

    open spec fn wf(&self) -> bool {
        self@.len() * Block::width() <= u64::MAX
    }

    open spec fn bit_seq(&self) -> Seq<bool> {
        packed_bits(self@, self@.len() * Block::width())
    }

    proof fn lemma_fits(&self) {
        Block::lemma_width();
        lemma_whole_blocks(Block::width(), self@.len());
        lemma_vec_len(self);
    }

    fn bit_len(&self) -> (len: u64) {
        self.as_slice().bit_len()
    }

    fn block_len(&self) -> (len: usize) {
        self.as_slice().block_len()
    }

    fn get_bit(&self, position: u64) -> (value: bool) {
        self.as_slice().get_bit(position)
    }

    fn get_block(&self, position: usize) -> (block: Block) {
        self.as_slice().get_block(position)
    }

    fn get_bits(&self, start: u64, count: usize) -> (block: Block) {
        self.as_slice().get_bits(start, count)
    }
}

impl<Block: BlockType> BitsMut for Vec<Block> {
    fn set_bit(&mut self, position: u64, value: bool) {
        self.as_mut_slice().set_bit(position, value);
    }

    fn set_block(&mut self, position: usize, value: Block) {
        self.as_mut_slice().set_block(position, value);
    }

    fn set_bits(&mut self, start: u64, count: usize, value: Block) {
        self.as_mut_slice().set_bits(start, count, value);
    }
}

impl Bits for [bool] {
    type Block = u8;

    open spec fn wf(&self) -> bool {
        true
    }

    open spec fn bit_seq(&self) -> Seq<bool> {
        self@
    }

    proof fn lemma_fits(&self) {
        lemma_block_count(8, self@.len());
        lemma_slice_len(self);
        assert(u8::width() == 8);
    }

    fn bit_len(&self) -> (len: u64) {
        self.len() as u64
    }

    fn get_bit(&self, position: u64) -> (value: bool) {
        proof {
            lemma_slice_len(self);
        }
        self[position as usize]
    }
}

impl BitsMut for [bool] {
    fn set_bit(&mut self, position: u64, value: bool) {
        proof {
            lemma_slice_len(&*self);
        }
        self[position as usize] = value;
    }
}

impl Bits for Vec<bool> {
    type Block = u8;

    open spec fn wf(&self) -> bool {
        true
    }

    open spec fn bit_seq(&self) -> Seq<bool> {
        self@
    }

    proof fn lemma_fits(&self) {
        lemma_block_count(8, self@.len());
        lemma_vec_len(self);
        assert(u8::width() == 8);
    }

    fn bit_len(&self) -> (len: u64) {
        self.len() as u64
    }

    fn get_bit(&self, position: u64) -> (value: bool) {
        proof {
            lemma_vec_len(self);
        }
        self[position as usize]
    }
}

impl BitsMut for Vec<bool> {
    fn set_bit(&mut self, position: u64, value: bool) {
        proof {
            lemma_vec_len(&*self);
        }
        self[position as usize] = value;
    }
}

impl BitsPush for Vec<bool> {
    fn push_bit(&mut self, value: bool) {
        self.push(value);
    }

    fn pop_bit(&mut self) -> (popped: Option<bool>) {
        self.pop()
    }
}

impl<'a, R: BitRange> BitSliceable<R> for &'a [bool] {
    type Slice = &'a [bool];

    open spec fn can_slice(&self, range: R) -> bool {
        range.within(self@.len())
    }

    /// The part of the slice that `range` selects.
    fn bit_slice(self, range: R) -> (slice: &'a [bool])
        ensures
            slice@ == self@.subrange(
                range.low(self@.len()) as int,
                range.high(self@.len()) as int,
            ),
    {
        proof {
            lemma_slice_len(self);
        }
        let bounds = range.bounds(self.len() as u64);
        slice_subrange(self, bounds.start as usize, bounds.end as usize)
    }
}

impl<'a, R: BitRange> BitSliceable<R> for &'a mut [bool] {
    type Slice = &'a mut [bool];

    open spec fn can_slice(&self, range: R) -> bool {
        range.within(self@.len())
    }

    /// The part of the slice that `range` selects. What is written to it is
    /// written to that part of `self`, and the rest of `self` stays as it is.
    fn bit_slice(self, range: R) -> (slice: &'a mut [bool])
        ensures
            slice@ == old(self)@.subrange(
                range.low(old(self)@.len()) as int,
                range.high(old(self)@.len()) as int,
            ),
            final(self)@ == old(self)@.subrange(0, range.low(old(self)@.len()) as int)
                + final(slice)@
                + old(self)@.subrange(
                range.high(old(self)@.len()) as int,
                old(self)@.len() as int,
            ),
    {
        proof {
            lemma_slice_len(&*self);
        }
        let ghost before = self@;
        let bounds = range.bounds(self.len() as u64);
        let (_, rest) = self.split_at_mut(bounds.start as usize);
        let (slice, _) = rest.split_at_mut((bounds.end - bounds.start) as usize);
        proof {
            assert(slice@ =~= before.subrange(bounds.start as int, bounds.end as int));
            assert(before.subrange(bounds.start as int, before.len() as int).subrange(
                (bounds.end - bounds.start) as int,
                (before.len() - bounds.start) as int,
            ) =~= before.subrange(bounds.end as int, before.len() as int));
        }
        slice
    }
}

} // verus!
