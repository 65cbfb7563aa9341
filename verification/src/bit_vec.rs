//! The bit vector: a growable sequence of bits held in blocks.
//!
//! A [`BitVec`] owns an array of blocks and a length in bits. The array may
//! be longer than the length requires; the bits it holds beyond the length
//! mean nothing, are never shown, and are overwritten when the vector grows
//! into them.

pub mod impls;
pub mod inner;

use crate::blocks::to_blocks;
use crate::slice::{BitSlice, BitSliceMut};
use crate::storage::{
    block_count, lemma_bit_address, lemma_block_count, lemma_blocks_monotone, lemma_div_mod,
    lemma_position_in_blocks, packed_bits, BlockBits, BlockType,
};
use crate::traits::{
    block_at, fits, lemma_aligned_len, lemma_fits_smaller, overwrite, repeat, Bits, BitsMut,
};
use inner::Inner;
use vstd::prelude::*;

verus! {

/// Bits packed in blocks that agree on every block that holds one of the
/// first `bit_len` bits are the same bits.
pub proof fn lemma_packed_bits_agree<Block: BlockType>(
    a: Seq<Block>,
    b: Seq<Block>,
    bit_len: nat,
)
    requires
        forall|k: int| 0 <= k < block_count(Block::width(), bit_len) ==> a[k] == b[k],
    ensures
        packed_bits(a, bit_len) == packed_bits(b, bit_len),
{
    Block::lemma_width();
    assert forall|i: int| 0 <= i < bit_len implies packed_bits(a, bit_len)[i] == packed_bits(
        b,
        bit_len,
    )[i] by {
        lemma_bit_address(Block::width(), bit_len, i as nat);
    }
    assert(packed_bits(a, bit_len) =~= packed_bits(b, bit_len));
}

/// Storing a block writes the bits of that block, as far as they lie within
/// the first `bit_len` bits.
pub proof fn lemma_packed_bits_update<Block: BlockType>(
    blocks: Seq<Block>,
    bit_len: nat,
    index: nat,
    value: Block,
)
    requires
        index < blocks.len(),
        bit_len <= blocks.len() * Block::width(),
    ensures
        packed_bits(blocks.update(index as int, value), bit_len) == overwrite(
            packed_bits(blocks, bit_len),
            (index * Block::width()) as int,
            Block::width() as int,
            value.bits(),
        ),
{
    Block::lemma_width();
    let width = Block::width();
    let w = width as int;
    let left = packed_bits(blocks.update(index as int, value), bit_len);
    let right = overwrite(packed_bits(blocks, bit_len), (index * width) as int, w, value.bits());
    assert(index * width == index * w);
    assert forall|i: int| 0 <= i < bit_len implies left[i] == right[i] by {
        lemma_position_in_blocks(width, blocks.len(), i as nat);
        let q = i / w;
        if q == index {
            assert(value.bits()[i - index * w] == value.bit(i % w));
        } else if q < index {
            assert(q * w + w <= index * w) by (nonlinear_arith)
                requires
                    q + 1 <= index,
                    0 < w,
            ;
        } else {
            assert(q * w >= index * w + w) by (nonlinear_arith)
                requires
                    q >= index + 1,
                    0 < w,
            ;
        }
    }
    assert(left =~= right);
}

/// The number of blocks that storage of `old_cap` blocks has after room for
/// `req_cap` blocks was asked for. Storage that is large enough stays as it
/// is. Storage that has to grow grows to twice its size (or to `usize::MAX`
/// blocks, if that is less), or to `req_cap` blocks, if that is more.
pub open spec fn grown_capacity(old_cap: nat, req_cap: nat) -> nat {
    let doubled = if old_cap * 2 <= usize::MAX {
        old_cap * 2
    } else {
        usize::MAX as nat
    };
    if req_cap <= old_cap {
        old_cap
    } else if req_cap > doubled {
        req_cap
    } else {
        doubled
    }
}

/// A growable vector of bits, packed into blocks.
#[derive(Debug)]
pub struct BitVec<Block: BlockType = usize> {
    bits: Inner<Block>,
    len: u64,
}

impl<Block: BlockType> View for BitVec<Block> {
    type V = Seq<bool>;

    /// The bits of the vector, in order.
    closed spec fn view(&self) -> Seq<bool> {
        packed_bits(self.bits@, self.len as nat)
    }
}

impl<Block: BlockType> Clone for BitVec<Block> {
    /// A copy with the same bits and the same room.
    fn clone(&self) -> (copy: Self)
        ensures
            copy@ == self@,
            copy.inv() == self.inv(),
            copy.spec_block_capacity() == self.spec_block_capacity(),
    {
        BitVec { bits: self.bits.clone(), len: self.len }
    }
}

impl<Block: BlockType> Default for BitVec<Block> {
    /// An empty vector, which allocates nothing.
    fn default() -> (vec: Self)
        ensures
            vec.inv(),
            vec@ == Seq::<bool>::empty(),
            vec.spec_block_capacity() == 0,
    {
        Self::new()
    }
}

impl<Block: BlockType> BitVec<Block> {
    /// Whether the representation is valid: the storage is, and it has room
    /// for all the bits.
    pub closed spec fn inv(&self) -> bool {
        self.bits.wf() && self.len <= self.bits@.len() * Block::width()
    }

    /// The number of blocks that the vector has room for without
    /// reallocating.
    pub closed spec fn spec_block_capacity(&self) -> nat {
        self.bits@.len()
    }

    /// The blocks of the storage. Those past the last bit, and the bits of
    /// the last block past the last bit, mean nothing.
    pub closed spec fn blocks(&self) -> Seq<Block> {
        self.bits@
    }

    /// How the bits, the blocks and the capacity of a valid vector relate.
    pub proof fn lemma_inv(&self)
        requires
            self.inv(),
        ensures
            self@ == packed_bits(self.blocks(), self@.len()),
            self.blocks().len() == self.spec_block_capacity(),
            self@.len() <= self.spec_block_capacity() * Block::width(),
            block_count(Block::width(), self@.len()) <= self.spec_block_capacity(),
            self.spec_block_capacity() <= usize::MAX,
            fits(Block::width(), self@.len()),
    {
        Block::lemma_width();
        let width = Block::width();
        let cap = self.bits@.len();
        lemma_block_count(width, self.len as nat);
        lemma_div_mod(self.len as int, width as int);
        let q = self.len as int / width as int;
        let r = self.len as int % width as int;
        if r == 0 {
            if q > cap {
                assert(q * width >= (cap + 1) * width) by (nonlinear_arith)
                    requires
                        q >= cap + 1,
                        width > 0,
                ;
                assert((cap + 1) * width == cap * width + width) by (nonlinear_arith);
            }
        } else {
            if q >= cap {
                assert(q * width >= cap * width) by (nonlinear_arith)
                    requires
                        q >= cap,
                        width > 0,
                ;
            }
        }
        self.bits.lemma_len();
    }

    /// Checks the representation.
    pub fn is_valid(&self) -> (valid: bool)
        ensures
            valid == self.inv(),
    {
        proof {
            Block::lemma_width();
            self.bits.lemma_len();
            let cap = self.bits@.len() as int;
            let width = Block::width() as int;
            assert(0 <= cap * width <= 0xffff_ffff_ffff_ffff * 128) by (nonlinear_arith)
                requires
                    0 <= cap <= 0xffff_ffff_ffff_ffff,
                    0 < width <= 128,
            ;
        }
        let room: u128 = (self.bits.len() as u128) * (Block::nbits() as u128);
        self.bits.check_invariant() && self.len as u128 <= room
    }

    /// An empty vector, which allocates nothing.
    pub fn new() -> (vec: Self)
        ensures
            vec.inv(),
            vec@ == Seq::<bool>::empty(),
            vec.spec_block_capacity() == 0,
    {
        Self::with_block_capacity(0)
    }

    /// An empty vector with room for `nbits` bits.
    pub fn with_capacity(nbits: u64) -> (vec: Self)
        requires
            block_count(Block::width(), nbits as nat) <= usize::MAX,
        ensures
            vec.inv(),
            vec@ == Seq::<bool>::empty(),
            vec.spec_block_capacity() == block_count(Block::width(), nbits as nat),
    {
        Self::with_block_capacity(Block::ceil_div_nbits(nbits))
    }

    /// An empty vector with room for `nblocks` blocks.
    pub fn with_block_capacity(nblocks: usize) -> (vec: Self)
        ensures
            vec.inv(),
            vec@ == Seq::<bool>::empty(),
            vec.spec_block_capacity() == nblocks,
    {
        let vec = BitVec { bits: Inner::new(Block::zero(), nblocks), len: 0 };
        assert(vec@ =~= Seq::<bool>::empty());
        assert(0 <= vec.bits@.len() * Block::width()) by (nonlinear_arith);
        vec
    }

    /// A vector of `len` bits, each equal to `value`.
    pub fn new_fill(value: bool, len: u64) -> (vec: Self)
        requires
            fits(Block::width(), len as nat),
        ensures
            vec.inv(),
            vec@ == repeat(value, len as nat),
            vec.spec_block_capacity() == block_count(Block::width(), len as nat),
    {
        let zero = Block::zero();
        let block = if value {
            zero.bit_not()
        } else {
            zero
        };
        let nblocks = Block::ceil_div_nbits(len);
        let vec = BitVec { bits: Inner::new(block, nblocks), len };
        proof {
            let width = Block::width();
            Block::lemma_width();
            lemma_aligned_len(width, len as nat);
            assert forall|i: int| 0 <= i < len implies vec@[i] == value by {
                lemma_bit_address(width, len as nat, i as nat);
            }
            assert(vec@ =~= repeat(value, len as nat));
        }
        vec
    }

    /// A vector of `nblocks` blocks, each equal to `value`.
    pub fn new_block_fill(value: Block, nblocks: usize) -> (vec: Self)
        requires
            nblocks * Block::width() <= u64::MAX,
        ensures
            vec.inv(),
            vec@ == packed_bits(
                Seq::new(nblocks as nat, |i: int| value),
                nblocks as nat * Block::width(),
            ),
            vec.spec_block_capacity() == nblocks,
    {
        BitVec { bits: Inner::new(value, nblocks), len: Block::mul_nbits(nblocks) }
    }

    /// A vector with the bits of another container.
    pub fn from_bits<T: Bits<Block = Block> + ?Sized>(bits: &T) -> (vec: Self)
        requires
            bits.wf(),
        ensures
            vec.inv(),
            vec@ == bits.bit_seq(),
            vec.spec_block_capacity() == block_count(Block::width(), bits.bit_seq().len()),
    {
        let ghost width = Block::width();
        let ghost source = bits.bit_seq();
        let bit_len = bits.bit_len();
        let blocks = to_blocks(bits);
        let vec = BitVec { bits: Inner::from_vec(blocks), len: bit_len };
        proof {
            Block::lemma_width();
            lemma_aligned_len(width, source.len());
            assert forall|j: int| 0 <= j < source.len() implies vec@[j] == source[j] by {
                lemma_bit_address(width, source.len(), j as nat);
                let k = j / width as int;
                let o = j % width as int;
                assert(blocks@[k].bits()[o] == blocks@[k].bit(o));
                assert(block_at(source, width, k)[o] == source[j]);
            }
            assert(vec@ =~= source);
        }
        vec
    }

    /// The number of bits in the vector.
    pub fn len(&self) -> (len: u64)
        ensures
            len == self@.len(),
    {
        self.len
    }

    /// Whether the vector has no bits.
    pub fn is_empty(&self) -> (empty: bool)
        ensures
            empty == (self@.len() == 0),
    {
        self.len == 0
    }

    /// The number of blocks that the vector has room for without
    /// reallocating.
    pub fn block_capacity(&self) -> (capacity: usize)
        ensures
            capacity == self.spec_block_capacity(),
    {
        self.bits.len()
    }

    /// Replaces the storage by one of `block_cap` blocks, keeping the bits.
    fn reallocate(&mut self, block_cap: usize)
        requires
            old(self).inv(),
            block_count(Block::width(), old(self)@.len()) <= block_cap,
        ensures
            final(self).inv(),
            final(self)@ == old(self)@,
            final(self).spec_block_capacity() == block_cap,
    {
        proof {
            self.lemma_inv();
        }
        let len = self.block_len();
        let ghost before = self.bits@;
        self.bits = self.bits.clone_resize(len, block_cap);
        proof {
            Block::lemma_width();
            lemma_packed_bits_agree(before, self.bits@, self.len as nat);
            lemma_aligned_len(Block::width(), self.len as nat);
            assert(len * Block::width() <= block_cap * Block::width()) by (nonlinear_arith)
                requires
                    len <= block_cap,
                    Block::width() > 0,
            ;
        }
    }

    /// Makes room for at least `additional` more blocks than the vector
    /// uses.
    ///
    /// Where the storage has to grow, it grows to twice its size (or to
    /// `usize::MAX` blocks, if that is less), or to the size asked for, if
    /// that is more.
    pub fn block_reserve(&mut self, additional: usize)
        requires
            old(self).inv(),
            block_count(Block::width(), old(self)@.len()) + additional <= usize::MAX,
        ensures
            final(self).inv(),
            final(self)@ == old(self)@,
            final(self).spec_block_capacity() == grown_capacity(
                old(self).spec_block_capacity(),
                (block_count(Block::width(), old(self)@.len()) + additional) as nat,
            ),
    {
        proof {
            self.lemma_inv();
        }
        let old_cap = self.block_capacity();
        let req_cap = self.block_len() + additional;
        if req_cap > old_cap {
            let doubled = if old_cap <= usize::MAX / 2 {
                old_cap * 2
            } else {
                usize::MAX
            };
            let new_cap = if req_cap > doubled {
                req_cap
            } else {
                doubled
            };
            self.reallocate(new_cap);
        }
    }

    /// Makes room for at least `additional` more bits than the vector holds.
    pub fn reserve(&mut self, additional: u64)
        requires
            old(self).inv(),
            fits(Block::width(), (old(self)@.len() + additional) as nat),
        ensures
            final(self).inv(),
            final(self)@ == old(self)@,
            final(self)@.len() + additional <= final(self).spec_block_capacity() * Block::width(),
            final(self).spec_block_capacity() == grown_capacity(
                old(self).spec_block_capacity(),
                block_count(Block::width(), (old(self)@.len() + additional) as nat),
            ),
    {
        proof {
            self.lemma_inv();
            Block::lemma_width();
            lemma_fits_smaller(
                Block::width(),
                self@.len(),
                (self@.len() + additional) as nat,
            );
            lemma_block_count(Block::width(), self@.len());
            lemma_block_count(Block::width(), (self@.len() + additional) as nat);
            lemma_aligned_len(Block::width(), (self@.len() + additional) as nat);
            lemma_blocks_monotone(
                Block::width(),
                self@.len(),
                (self@.len() + additional) as nat,
            );
        }
        let needed = Block::ceil_div_nbits(self.len + additional);
        let used = self.block_len();
        self.block_reserve(needed - used);
        proof {
            let cap = self.spec_block_capacity() as int;
            let width = Block::width() as int;
            assert(needed * width <= cap * width) by (nonlinear_arith)
                requires
                    needed <= cap,
                    width > 0,
            ;
        }
    }

    /// Adds the given bit to the end of the vector.
    pub fn push(&mut self, value: bool)
        requires
            old(self).inv(),
            fits(Block::width(), old(self)@.len() + 1),
        ensures
            final(self).inv(),
            final(self)@ == old(self)@.push(value),
            final(self).spec_block_capacity() == grown_capacity(
                old(self).spec_block_capacity(),
                block_count(Block::width(), old(self)@.len() + 1),
            ),
    {
        let ghost before = self@;
        self.reserve(1);
        let old_len = self.len;
        self.len = old_len + 1;
        assert(self@.take(old_len as int) =~= before);
        self.set_bit(old_len, value);
        assert(self@ =~= before.push(value));
    }

    /// Removes and returns the last bit, if any. The storage keeps its size.
    pub fn pop(&mut self) -> (popped: Option<bool>)
        requires
            old(self).inv(),
        ensures
            final(self).inv(),
            final(self).spec_block_capacity() == old(self).spec_block_capacity(),
            old(self)@.len() == 0 ==> popped.is_none() && final(self)@ == old(self)@,
            old(self)@.len() > 0 ==> popped == Some(old(self)@.last()) && final(self)@ == old(
                self,
            )@.drop_last(),
    {
        if self.len > 0 {
            let ghost before = self@;
            let new_len = self.len - 1;
            let result = self.get_bit(new_len);
            self.len = new_len;
            assert(self@ =~= before.drop_last());
            Some(result)
        } else {
            None
        }
    }

    /// Shortens the vector to `len` bits, if it is longer. The storage keeps
    /// its size.
    pub fn truncate(&mut self, len: u64)
        requires
            old(self).inv(),
        ensures
            final(self).inv(),
            final(self).spec_block_capacity() == old(self).spec_block_capacity(),
            final(self)@ == (if len < old(self)@.len() {
                old(self)@.take(len as int)
            } else {
                old(self)@
            }),
    {
        if len < self.len {
            let ghost before = self@;
            self.len = len;
            assert(self@ =~= before.take(len as int));
        }
    }

    /// Removes all the bits. The storage keeps its size.
    pub fn clear(&mut self)
        requires
            old(self).inv(),
        ensures
            final(self).inv(),
            final(self).spec_block_capacity() == old(self).spec_block_capacity(),
            final(self)@ == Seq::<bool>::empty(),
    {
        self.truncate(0);
        assert(self@ =~= Seq::<bool>::empty());
    }

    /// A view of all the bits of the vector.
    pub fn as_slice(&self) -> (slice: BitSlice<'_, Self>)
        requires
            self.inv(),
        ensures
            slice.wf(),
            slice.bits == self,
            slice.offset == 0,
            slice.len == self@.len(),
            slice.bit_seq() == self@,
    {
        BitSlice::new(self)
    }

    /// A view of all the bits of the vector through which they can be
    /// written.
    pub fn as_mut_slice(&mut self) -> (slice: BitSliceMut<'_, Self>)
        requires
            old(self).inv(),
        ensures
            slice.wf(),
            slice.offset == 0,
            slice.len == old(self)@.len(),
            slice.bit_seq() == old(self)@,
            slice.bits.bit_seq() == old(self)@,
            final(self).inv() == final(slice.bits).inv(),
            final(self)@ == final(slice.bits)@,
    {
        BitSliceMut::new(self)
    }
}

} // verus!
