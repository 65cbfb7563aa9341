//! The bit vector as a container of bits.

use super::{grown_capacity, lemma_packed_bits_update, BitVec};
use crate::blocks::{bits_eq, bits_order, block_seq, lex_order, to_blocks, Order};
use crate::range::BitRange;
use crate::slice::{BitSlice, BitSliceMut};
use crate::storage::{
    block_count, lemma_bit_address, lemma_block_bit, lemma_block_count, lemma_div_mod, Address,
    BlockBits, BlockType,
};
use crate::traits::{
    aligned_len, block_at, lemma_aligned_len, lemma_fits_smaller, repeat, BitSliceable, Bits,
    BitsMut, BitsPush,
};
use std::cmp::Ordering;
use std::hash::{Hash, Hasher};
use std::ops::Index;
use vstd::pervasive::runtime_assert;
use vstd::prelude::*;
use vstd::std_specs::cmp::{PartialEqSpecImpl, PartialOrdSpecImpl};

verus! {

impl<Block: BlockType> Bits for BitVec<Block> {
    type Block = Block;

    open spec fn wf(&self) -> bool {
        self.inv()
    }

    open spec fn bit_seq(&self) -> Seq<bool> {
        self@
    }

    proof fn lemma_fits(&self) {
        self.lemma_inv();
    }

    fn bit_len(&self) -> (len: u64) {
        self.len()
    }

    fn get_bit(&self, position: u64) -> (value: bool) {
        runtime_assert(position < self.len());
        proof {
            Block::lemma_width();
            self.lemma_inv();
            lemma_bit_address(Block::width(), self@.len(), position as nat);
        }
        let address = Address::new::<Block>(position);
        let block = self.get_block(address.block_index);
        proof {
            assert(block.bits()[address.bit_offset as int] == block.bit(
                address.bit_offset as int,
            ));
        }
        block.get_bit(address.bit_offset)
    }

    /// The stored block, with the bits past the end of the vector cleared.
    fn get_block(&self, position: usize) -> (block: Block) {
        proof {
            Block::lemma_width();
            self.lemma_inv();
        }
        runtime_assert(position < self.block_len());
        let count = Block::block_bits(self.bit_len(), position);
        let block = self.bits.index(position).get_bits(0, count);
        proof {
            let width = Block::width();
            let expected = block_at(self@, width, position as int);
            assert forall|j: int| 0 <= j < width implies block.bits()[j] == expected[j] by {
                lemma_block_bit(width, self@.len(), position as nat, j as nat);
            }
            assert(block.bits() =~= expected);
        }
        block
    }
}

impl<Block: BlockType> BitsMut for BitVec<Block> {
    fn set_bit(&mut self, position: u64, value: bool)
        ensures
            final(self).spec_block_capacity() == old(self).spec_block_capacity(),
    {
        let ghost width = Block::width();
        let ghost before = self@;
        runtime_assert(position < self.len());
        proof {
            Block::lemma_width();
            self.lemma_inv();
            lemma_bit_address(width, before.len(), position as nat);
        }
        let address = Address::new::<Block>(position);
        let old_block = self.get_block(address.block_index);
        let new_block = old_block.with_bit(address.bit_offset, value);
        self.set_block(address.block_index, new_block);
        proof {
            let expected = before.update(position as int, value);
            let index = address.block_index as int;
            assert forall|j: int| 0 <= j < before.len() implies self@[j] == expected[j] by {
                if index * width <= j < index * width + width {
                    let i = j - index * width;
                    assert(new_block.bits()[i] == new_block.bit(i));
                    assert(old_block.bits()[i] == old_block.bit(i));
                }
            }
            assert(self@ =~= expected);
        }
    }

    /// Stores the block as it is. Where the block reaches past the end of
    /// the vector, this writes bits that are not part of it.
    fn set_block(&mut self, position: usize, value: Block)
        ensures
            final(self).spec_block_capacity() == old(self).spec_block_capacity(),
            final(self).blocks() == old(self).blocks().update(position as int, value),
    {
        proof {
            self.lemma_inv();
            lemma_packed_bits_update(self.blocks(), self@.len(), position as nat, value);
        }
        runtime_assert(position < self.block_len());
        *self.bits.index_mut(position) = value;
    }
}

impl<Block: BlockType> BitsPush for BitVec<Block> {
    fn push_bit(&mut self, value: bool)
        ensures
            final(self).spec_block_capacity() == grown_capacity(
                old(self).spec_block_capacity(),
                block_count(Block::width(), old(self)@.len() + 1),
            ),
    {
        self.push(value);
    }

    fn pop_bit(&mut self) -> (popped: Option<bool>)
        ensures
            final(self).spec_block_capacity() == old(self).spec_block_capacity(),
    {
        self.pop()
    }

    /// Fills the rest of the last block with `value` in one step.
    fn align_block(&mut self, value: bool)
        ensures
            final(self).spec_block_capacity() == old(self).spec_block_capacity(),
    {
        let ghost width = Block::width();
        let ghost before = self@;
        proof {
            Block::lemma_width();
            self.lemma_inv();
            lemma_aligned_len(width, before.len());
            lemma_block_count(width, before.len());
            lemma_div_mod(before.len() as int, width as int);
            let q = before.len() as int / width as int;
            assert((q + 1) * width == q * width + width) by (nonlinear_arith);
        }
        let keep_bits = Block::mod_nbits(self.len);
        if keep_bits > 0 {
            let last_index = self.block_len() - 1;
            let low = Block::low_mask(keep_bits);
            let last = *self.bits.index(last_index);
            let filled = if value {
                last.bit_or(low.bit_not())
            } else {
                last.bit_and(low)
            };
            *self.bits.index_mut(last_index) = filled;
            self.len += (Block::nbits() - keep_bits) as u64;
            proof {
                let target = aligned_len(width, before.len());
                let expected = before + repeat(value, (target - before.len()) as nat);
                assert(self@.len() == target);
                assert(last_index * width + keep_bits == before.len());
                let cap = self.spec_block_capacity() as int;
                assert((last_index + 1) * width <= cap * width) by (nonlinear_arith)
                    requires
                        last_index + 1 <= cap,
                        0 < width,
                ;
                assert forall|j: int| 0 <= j < target implies self@[j] == expected[j] by {
                    lemma_div_mod(j, width as int);
                    let q = j / width as int;
                    if q < last_index {
                        assert(q * width + width <= last_index * width) by (nonlinear_arith)
                            requires
                                q + 1 <= last_index,
                                0 < width,
                        ;
                    } else if q > last_index {
                        assert(q * width >= last_index * width + width) by (nonlinear_arith)
                            requires
                                q >= last_index + 1,
                                0 < width,
                        ;
                    }
                }
                assert(self@ =~= expected);
            }
        } else {
            assert(before =~= before + repeat(value, 0));
        }
    }

    /// Appends the block as a whole.
    fn push_block(&mut self, value: Block)
        ensures
            final(self).spec_block_capacity() == grown_capacity(
                old(self).spec_block_capacity(),
                block_count(Block::width(), old(self)@.len()) + 1,
            ),
    {
        let ghost width = Block::width();
        let ghost before = self@;
        let ghost target = aligned_len(width, before.len());
        proof {
            Block::lemma_width();
            self.lemma_inv();
            lemma_aligned_len(width, before.len());
            lemma_fits_smaller(width, target, target + width);
            assert(1 * width == width);
        }
        self.align_block(false);
        let ghost aligned = self@;
        self.block_reserve(1);
        proof {
            let cap = self.spec_block_capacity() as int;
            let used = block_count(width, target) as int;
            assert((used + 1) * width <= cap * width) by (nonlinear_arith)
                requires
                    used + 1 <= cap,
                    0 < width,
            ;
            assert((used + 1) * width == used * width + width) by (nonlinear_arith);
        }
        self.len += Block::nbits() as u64;
        assert(self@.take(target as int) =~= aligned);
        let last = self.block_len() - 1;
        self.set_block(last, value);
        proof {
            let expected = aligned + value.bits();
            assert(last * width == target);
            assert(self@ =~= expected);
        }
    }
}

impl<'a, Block: BlockType, R: BitRange> BitSliceable<R> for &'a BitVec<Block> {
    type Slice = BitSlice<'a, BitVec<Block>>;

    open spec fn can_slice(&self, range: R) -> bool {
        self.inv() && range.within(self@.len())
    }

    fn bit_slice(self, range: R) -> (slice: BitSlice<'a, BitVec<Block>>)
        ensures
            slice.wf(),
            slice.bits == self,
            slice.offset == range.low(self@.len()),
            slice.len == range.high(self@.len()) - range.low(self@.len()),
            slice.bit_seq() == self@.subrange(
                range.low(self@.len()) as int,
                range.high(self@.len()) as int,
            ),
    {
        self.as_slice().bit_slice(range)
    }
}

impl<'a, Block: BlockType, R: BitRange> BitSliceable<R> for &'a mut BitVec<Block> {
    type Slice = BitSliceMut<'a, BitVec<Block>>;

    open spec fn can_slice(&self, range: R) -> bool {
        self.inv() && range.within(self@.len())
    }

    fn bit_slice(self, range: R) -> (slice: BitSliceMut<'a, BitVec<Block>>)
        ensures
            slice.wf(),
            slice.bits@ == old(self)@,
            final(self).inv() == final(slice.bits).inv(),
            final(self)@ == final(slice.bits)@,
            slice.offset == range.low(old(self)@.len()),
            slice.len == range.high(old(self)@.len()) - range.low(old(self)@.len()),
            slice.bit_seq() == old(self)@.subrange(
                range.low(old(self)@.len()) as int,
                range.high(old(self)@.len()) as int,
            ),
    {
        self.as_mut_slice().bit_slice(range)
    }
}

impl<Block: BlockType> PartialEq for BitVec<Block> {
    /// Whether the two vectors hold the same bits. How much room each has,
    /// and what its storage holds past its last bit, plays no part.
    fn eq(&self, other: &Self) -> (equal: bool) {
        self.is_valid() && other.is_valid() && bits_eq(self, other)
    }
}

impl<Block: BlockType> PartialEqSpecImpl for BitVec<Block> {
    open spec fn obeys_eq_spec() -> bool {
        true
    }

    open spec fn eq_spec(&self, other: &Self) -> bool {
        self.inv() && other.inv() && self@ == other@
    }
}

impl<Block: BlockType> Eq for BitVec<Block> {

}

impl<Block: BlockType> PartialOrd for BitVec<Block> {
    /// The order of the two vectors: that of their sequences of blocks, as
    /// in a dictionary.
    fn partial_cmp(&self, other: &Self) -> (order: Option<Ordering>) {
        if self.is_valid() && other.is_valid() {
            Some(
                match bits_order(self, other) {
                    Order::Less => Ordering::Less,
                    Order::Equal => Ordering::Equal,
                    Order::Greater => Ordering::Greater,
                },
            )
        } else {
            None
        }
    }
}

impl<Block: BlockType> PartialOrdSpecImpl for BitVec<Block> {
    open spec fn obeys_partial_cmp_spec() -> bool {
        true
    }

    open spec fn partial_cmp_spec(&self, other: &Self) -> Option<Ordering> {
        if self.inv() && other.inv() {
            Some(
                match lex_order(block_seq::<Block>(self@), block_seq::<Block>(other@)) {
                    Order::Less => Ordering::Less,
                    Order::Equal => Ordering::Equal,
                    Order::Greater => Ordering::Greater,
                },
            )
        } else {
            None
        }
    }
}

impl<Block: BlockType> Index<u64> for BitVec<Block> {
    type Output = bool;

    /// The bit at `index`.
    fn index(&self, index: u64) -> (bit: &bool)
        ensures
            *bit == self@[index as int],
    {
        if self.get_bit(index) {
            &true
        } else {
            &false
        }
    }
}

impl<Block: BlockType> vstd::std_specs::core::IndexSpecImpl<u64> for BitVec<Block> {
    open spec fn index_req(&self, index: &u64) -> bool {
        self.inv() && *index < self@.len()
    }
}

/// Calls `Hash::hash` on a pair of a length and a vector of blocks, which
/// feeds the length and then the blocks, in order, to the hasher. Nothing is
/// claimed of what the hasher makes of them.
#[verifier::external_body]
fn hash_parts<Block: Hash, H: Hasher>(parts: &(u64, Vec<Block>), state: &mut H) {
    parts.hash(state);
}

impl<Block: BlockType + Hash> Hash for BitVec<Block> {
    /// Hashes the length and the blocks of the vector, the bits past the end
    /// of the last block cleared: what is hashed is the same for vectors
    /// that hold the same bits.
    fn hash<H: Hasher>(&self, state: &mut H) {
        if self.is_valid() {
            let parts = (self.len(), to_blocks(self));
            hash_parts(&parts, state);
        }
    }
}

} // verus!
