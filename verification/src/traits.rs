//! What a bit container can do: be read, be written, grow, be sliced.
//!
//! Every container is modelled by the sequence of its bits,
//! [`Bits::bit_seq`]. A container also groups its bits into blocks of
//! `Block::width()` bits: block `k` holds bits `k * W .. (k + 1) * W`, bit 0 of
//! a block being the first of them. The last block may reach past the end of
//! the container; the bits it has there read as clear and are never written.

use crate::bit_vec::BitVec;
use crate::storage::{
    block_count, lemma_bit_address, lemma_block_bit, lemma_block_count, lemma_block_in_range,
    lemma_blocks_monotone, lemma_div_mod, lemma_div_mod_of, Address, BlockBits, BlockType,
};
use vstd::pervasive::runtime_assert;
use vstd::prelude::*;

verus! {

/// Whether a container of `bit_len` bits in blocks of `width` bits can exist:
/// its length fits a `u64` and its number of blocks a `usize`.
pub open spec fn fits(width: nat, bit_len: nat) -> bool {
    bit_len <= u64::MAX && block_count(width, bit_len) <= usize::MAX
}

/// `bit_len` rounded up to a whole number of blocks.
pub open spec fn aligned_len(width: nat, bit_len: nat) -> nat {
    block_count(width, bit_len) * width
}

/// Block `index` of `bits`, as a sequence of `width` bits. Places past the end
/// of `bits` are clear.
pub open spec fn block_at(bits: Seq<bool>, width: nat, index: int) -> Seq<bool> {
    Seq::new(width, |i: int| index * width + i < bits.len() && bits[index * width + i])
}

/// The `count` bits of `bits` from `start` on, as a sequence of `width` bits.
/// Places from `count` up are clear.
pub open spec fn window(bits: Seq<bool>, width: nat, start: int, count: int) -> Seq<bool> {
    Seq::new(width, |i: int| i < count && bits[start + i])
}

/// `bits` with the `count` bits from `start` on replaced by the first `count`
/// bits of `value`. Nothing is written past the end of `bits`.
pub open spec fn overwrite(bits: Seq<bool>, start: int, count: int, value: Seq<bool>) -> Seq<
    bool,
> {
    Seq::new(
        bits.len(),
        |i: int|
            if start <= i < start + count {
                value[i - start]
            } else {
                bits[i]
            },
    )
}

/// `count` copies of `value`.
pub open spec fn repeat(value: bool, count: nat) -> Seq<bool> {
    Seq::new(count, |i: int| value)
}

/// `bits` followed by as many copies of `value` as it takes to end on a block
/// boundary. Bits that already end on one are returned as they are.
pub open spec fn padded(bits: Seq<bool>, width: nat, value: bool) -> Seq<bool> {
    bits + repeat(value, (aligned_len(width, bits.len()) - bits.len()) as nat)
}

/// A length that fits stays fitting when it shrinks.
pub proof fn lemma_fits_smaller(width: nat, smaller: nat, larger: nat)
    requires
        0 < width,
        smaller <= larger,
        fits(width, larger),
    ensures
        fits(width, smaller),
{
    lemma_blocks_monotone(width, smaller, larger);
}

/// Rounding a length up to whole blocks adds less than a block, and the
/// result is a whole number of blocks.
pub proof fn lemma_aligned_len(width: nat, bit_len: nat)
    requires
        0 < width,
    ensures
        bit_len <= aligned_len(width, bit_len) < bit_len + width,
        aligned_len(width, bit_len) % width == 0,
        block_count(width, aligned_len(width, bit_len)) == block_count(width, bit_len),
        bit_len % width == 0 <==> aligned_len(width, bit_len) == bit_len,
        forall|k: nat|
            block_count(width, aligned_len(width, bit_len) + #[trigger] (k * width))
                == block_count(width, bit_len) + k,
{
    let w = width as int;
    let n = block_count(width, bit_len);
    lemma_block_count(width, bit_len);
    lemma_div_mod(bit_len as int, w);
    let q = bit_len as int / w;
    assert((q + 1) * w == q * w + w) by (nonlinear_arith);
    lemma_div_mod_of(n as int, 0, w);
    lemma_block_count(width, aligned_len(width, bit_len));
    assert forall|k: nat|
        block_count(width, aligned_len(width, bit_len) + #[trigger] (k * width)) == n + k by {
        assert(n * width + k * width == (n + k) * w) by (nonlinear_arith)
            requires
                w == width,
        ;
        lemma_div_mod_of((n + k) as int, 0, w);
        lemma_block_count(width, (n * width + k * width) as nat);
    }
}

/// Stops a caller that Verus has not seen when it asks for a span of bits
/// that is wider than a block or reaches past the end of the container.
pub(crate) fn check_span(start: u64, count: usize, bit_len: u64, nbits: usize)
    requires
        start + count <= bit_len,
        count <= nbits,
{
    runtime_assert(count <= nbits);
    runtime_assert(start <= bit_len);
    runtime_assert(count as u64 <= bit_len - start);
}

/// Read-only access to a container of bits.
///
/// An implementation supplies the model, `bit_len` and `get_bit`. It should
/// also supply `get_block` where it can fetch a block directly: the one given
/// here reads the block bit by bit.
pub trait Bits {
    /// The type of the blocks that the bits are grouped into.
    type Block: BlockType;

    /// Whether the container is in a state in which it may be used.
    spec fn wf(&self) -> bool;

    /// The bits of the container, in order.
    spec fn bit_seq(&self) -> Seq<bool>;

    /// A usable container has a length and a number of blocks that fit the
    /// machine's integers.
    proof fn lemma_fits(&self)
        requires
            self.wf(),
        ensures
            fits(Self::Block::width(), self.bit_seq().len()),
    ;

    /// The length of the container in bits.
    fn bit_len(&self) -> (len: u64)
        requires
            self.wf(),
        ensures
            len == self.bit_seq().len(),
    ;

    /// The length of the container in blocks.
    fn block_len(&self) -> (len: usize)
        requires
            self.wf(),
        ensures
            len == block_count(Self::Block::width(), self.bit_seq().len()),
    {
        proof {
            self.lemma_fits();
        }
        Self::Block::ceil_div_nbits(self.bit_len())
    }

    /// Gets the bit at `position`.
    fn get_bit(&self, position: u64) -> (value: bool)
        requires
            self.wf(),
            position < self.bit_seq().len(),
        ensures
            value == self.bit_seq()[position as int],
    ;

    /// Gets the block at `position`.
    ///
    /// If the length of the container is not a multiple of the block width,
    /// the last block is only partly covered by the container; its remaining
    /// bits are clear in the result.
    ///
    /// This implementation assembles the block from its bits, one `get_bit` at
    /// a time.
    fn get_block(&self, position: usize) -> (block: Self::Block)
        requires
            self.wf(),
            position < block_count(Self::Block::width(), self.bit_seq().len()),
        ensures
            block.bits() == block_at(self.bit_seq(), Self::Block::width(), position as int),
    {
        runtime_assert(position < self.block_len());
        let bit_len = self.bit_len();
        proof {
            Self::Block::lemma_width();
            lemma_block_in_range(Self::Block::width(), bit_len as nat, position as nat);
            lemma_block_bit(Self::Block::width(), bit_len as nat, position as nat, 0);
        }
        let limit = Self::Block::block_bits(bit_len, position);
        let bit_position = Self::Block::mul_nbits(position);
        let mut result = Self::Block::zero();
        let mut i: usize = 0;
        while i < limit
            invariant
                self.wf(),
                bit_len == self.bit_seq().len(),
                bit_position == position * Self::Block::width(),
                bit_position + limit <= bit_len,
                i <= limit <= Self::Block::width(),
                forall|j: int|
                    0 <= j < Self::Block::width() ==> #[trigger] result.bit(j) == (j < i
                        && self.bit_seq()[bit_position + j]),
            decreases limit - i,
        {
            if self.get_bit(bit_position + i as u64) {
                result = result.with_bit(i, true);
            }
            i += 1;
        }
        proof {
            let width = Self::Block::width();
            let expected = block_at(self.bit_seq(), width, position as int);
            assert forall|j: int| 0 <= j < width implies result.bits()[j] == expected[j] by {
                lemma_block_bit(width, bit_len as nat, position as nat, j as nat);
            }
            assert(result.bits() =~= expected);
        }
        result
    }

    /// Gets `count` bits starting at bit `start`, as a block: bit `i` of the
    /// result is bit `start + i` of the container for `i < count`, and clear
    /// from `count` up.
    fn get_bits(&self, start: u64, count: usize) -> (block: Self::Block)
        requires
            self.wf(),
            start + count <= self.bit_seq().len(),
            count <= Self::Block::width(),
        ensures
            block.bits() == window(
                self.bit_seq(),
                Self::Block::width(),
                start as int,
                count as int,
            ),
    {
        let ghost width = Self::Block::width();
        let ghost bits = self.bit_seq();
        let ghost expected = window(bits, width, start as int, count as int);
        check_span(start, count, self.bit_len(), Self::Block::nbits());
        if count == 0 {
            let zero = Self::Block::zero();
            assert(zero.bits() =~= expected);
            return zero;
        }
        proof {
            Self::Block::lemma_width();
            self.lemma_fits();
            lemma_bit_address(width, bits.len(), start as nat);
            lemma_bit_address(width, bits.len(), (start + count - 1) as nat);
        }
        let address = Address::new::<Self::Block>(start);
        let margin = Self::Block::nbits() - address.bit_offset;
        let ghost index = address.block_index as int;
        let ghost offset = address.bit_offset as int;

        if margin >= count {
            let block = self.get_block(address.block_index);
            let result = block.get_bits(address.bit_offset, count);
            proof {
                assert forall|i: int| 0 <= i < width implies result.bits()[i] == expected[i] by {
                    if i < count {
                        assert(block.bit(offset + i) == block.bits()[offset + i]);
                        assert(index * width + (offset + i) == start + i);
                    }
                }
                assert(result.bits() =~= expected);
            }
            return result;
        }
        let extra = count - margin;
        proof {
            assert((index + 1) * width == index * width + width) by (nonlinear_arith);
            lemma_block_in_range(width, bits.len(), (index + 1) as nat);
        }

        let block1 = self.get_block(address.block_index);
        let block2 = self.get_block(address.block_index + 1);

        let low_bits = block1.get_bits(address.bit_offset, margin);
        let high_bits = block2.get_bits(0, extra);

        let shifted = high_bits.shl(margin);
        let result = shifted.bit_or(low_bits);
        proof {
            assert forall|i: int| 0 <= i < width implies result.bits()[i] == expected[i] by {
                if i < margin {
                    assert(block1.bit(offset + i) == block1.bits()[offset + i]);
                    assert(index * width + (offset + i) == start + i);
                } else if i < count {
                    assert(block2.bit(i - margin) == block2.bits()[i - margin]);
                    assert((index + 1) * width + (i - margin) == start + i);
                }
            }
            assert(result.bits() =~= expected);
        }
        result
    }
}

/// Copies the bits of a container into a new bit vector.
pub fn to_bit_vec<T: Bits + ?Sized>(bits: &T) -> (vec: BitVec<T::Block>)
    requires
        bits.wf(),
    ensures
        vec.inv(),
        vec@ == bits.bit_seq(),
{
    BitVec::from_bits(bits)
}

/// Writing to a container of bits without changing its length.
///
/// An implementation supplies `set_bit`. It should also supply `set_block`
/// where it can store a block directly: the one given here writes the block
/// bit by bit.
pub trait BitsMut: Bits {
    /// Sets the bit at `position` to `value`.
    fn set_bit(&mut self, position: u64, value: bool)
        requires
            old(self).wf(),
            position < old(self).bit_seq().len(),
        ensures
            final(self).wf(),
            final(self).bit_seq() == old(self).bit_seq().update(position as int, value),
    ;

    /// Sets the block at `position` to `value`.
    ///
    /// Only the bits of the block that belong to the container are written:
    /// where the last block reaches past the end, the rest of `value` is
    /// dropped.
    ///
    /// This implementation writes the block one `set_bit` at a time.
    fn set_block(&mut self, position: usize, value: Self::Block)
        requires
            old(self).wf(),
            position < block_count(Self::Block::width(), old(self).bit_seq().len()),
        ensures
            final(self).wf(),
            final(self).bit_seq() == overwrite(
                old(self).bit_seq(),
                position * Self::Block::width(),
                Self::Block::width() as int,
                value.bits(),
            ),
    {
        let ghost width = Self::Block::width();
        let ghost before = self.bit_seq();
        runtime_assert(position < self.block_len());
        let bit_len = self.bit_len();
        proof {
            Self::Block::lemma_width();
            lemma_block_in_range(width, bit_len as nat, position as nat);
            lemma_block_bit(width, bit_len as nat, position as nat, 0);
        }
        proof {
            self.lemma_fits();
        }
        let limit = if position + 1 == self.block_len() {
            Self::Block::last_block_bits(bit_len)
        } else {
            Self::Block::block_bits(bit_len, position)
        };
        let offset = Self::Block::mul_nbits(position);
        let mut i: usize = 0;
        while i < limit
            invariant
                self.wf(),
                before.len() == bit_len,
                offset == position * width,
                width == Self::Block::width(),
                offset + limit <= bit_len,
                i <= limit <= width,
                self.bit_seq() == overwrite(before, offset as int, i as int, value.bits()),
            decreases limit - i,
        {
            let bit = value.get_bit(i);
            self.set_bit(offset + i as u64, bit);
            i += 1;
            assert(self.bit_seq() =~= overwrite(before, offset as int, i as int, value.bits()));
        }
        proof {
            let expected = overwrite(before, offset as int, width as int, value.bits());
            assert forall|j: int| 0 <= j < before.len() implies self.bit_seq()[j]
                == expected[j] by {
                if offset <= j < offset + width {
                    lemma_block_bit(width, bit_len as nat, position as nat, (j - offset) as nat);
                }
            }
            assert(self.bit_seq() =~= expected);
        }
    }

    /// Sets `count` bits starting at bit `start` to the low `count` bits of
    /// `value`: bit `start + i` of the container becomes bit `i` of `value`.
    fn set_bits(&mut self, start: u64, count: usize, value: Self::Block)
        requires
            old(self).wf(),
            start + count <= old(self).bit_seq().len(),
            count <= Self::Block::width(),
        ensures
            final(self).wf(),
            final(self).bit_seq() == overwrite(
                old(self).bit_seq(),
                start as int,
                count as int,
                value.bits(),
            ),
    {
        let ghost width = Self::Block::width();
        let ghost before = self.bit_seq();
        let ghost expected = overwrite(before, start as int, count as int, value.bits());
        check_span(start, count, self.bit_len(), Self::Block::nbits());
        if count == 0 {
            assert(before =~= expected);
            return ;
        }
        proof {
            Self::Block::lemma_width();
            self.lemma_fits();
            lemma_bit_address(width, before.len(), start as nat);
            lemma_bit_address(width, before.len(), (start + count - 1) as nat);
        }
        let address = Address::new::<Self::Block>(start);
        let margin = Self::Block::nbits() - address.bit_offset;
        let ghost index = address.block_index as int;
        let ghost offset = address.bit_offset as int;

        if margin >= count {
            let old_block = self.get_block(address.block_index);
            let new_block = old_block.with_bits(address.bit_offset, count, value);
            self.set_block(address.block_index, new_block);
            proof {
                assert forall|j: int| 0 <= j < before.len() implies self.bit_seq()[j]
                    == expected[j] by {
                    if index * width <= j < index * width + width {
                        let i = j - index * width;
                        assert(new_block.bits()[i] == new_block.bit(i));
                        assert(old_block.bits()[i] == old_block.bit(i));
                    }
                }
                assert(self.bit_seq() =~= expected);
            }
            return ;
        }
        let extra = count - margin;
        proof {
            assert((index + 1) * width == index * width + width) by (nonlinear_arith);
            lemma_block_in_range(width, before.len(), (index + 1) as nat);
        }

        let old_block1 = self.get_block(address.block_index);
        let old_block2 = self.get_block(address.block_index + 1);

        let high_bits = value.shr(margin);

        let new_block1 = old_block1.with_bits(address.bit_offset, margin, value);
        let new_block2 = old_block2.with_bits(0, extra, high_bits);
        self.set_block(address.block_index, new_block1);
        let ghost between = self.bit_seq();
        self.set_block(address.block_index + 1, new_block2);
        proof {
            assert forall|j: int| 0 <= j < before.len() implies self.bit_seq()[j]
                == expected[j] by {
                if index * width <= j < index * width + width {
                    let i = j - index * width;
                    assert(new_block1.bits()[i] == new_block1.bit(i));
                    assert(old_block1.bits()[i] == old_block1.bit(i));
                    assert(between[j] == expected[j]);
                } else if (index + 1) * width <= j < (index + 1) * width + width {
                    let i = j - (index + 1) * width;
                    assert(new_block2.bits()[i] == new_block2.bit(i));
                    assert(old_block2.bits()[i] == old_block2.bit(i));
                }
            }
            assert(self.bit_seq() =~= expected);
        }
    }
}

/// Growing and shrinking a container of bits at its end.
pub trait BitsPush: BitsMut {
    /// Adds the given bit to the end of the container.
    fn push_bit(&mut self, value: bool)
        requires
            old(self).wf(),
            fits(Self::Block::width(), old(self).bit_seq().len() + 1),
        ensures
            final(self).wf(),
            final(self).bit_seq() == old(self).bit_seq().push(value),
    ;

    /// Removes and returns the last bit, if any.
    fn pop_bit(&mut self) -> (popped: Option<bool>)
        requires
            old(self).wf(),
        ensures
            final(self).wf(),
            old(self).bit_seq().len() == 0 ==> popped.is_none() && final(self).bit_seq() == old(
                self,
            ).bit_seq(),
            old(self).bit_seq().len() > 0 ==> popped == Some(old(self).bit_seq().last())
                && final(self).bit_seq() == old(self).bit_seq().drop_last(),
    ;

    /// Pushes `value` 0 or more times until the length of the container is a
    /// whole number of blocks.
    fn align_block(&mut self, value: bool)
        requires
            old(self).wf(),
            fits(
                Self::Block::width(),
                aligned_len(Self::Block::width(), old(self).bit_seq().len()),
            ),
        ensures
            final(self).wf(),
            final(self).bit_seq() == padded(old(self).bit_seq(), Self::Block::width(), value),
    {
        let ghost width = Self::Block::width();
        let ghost before = self.bit_seq();
        let ghost target = aligned_len(width, before.len());
        proof {
            Self::Block::lemma_width();
            lemma_aligned_len(width, before.len());
        }
        while Self::Block::mod_nbits(self.bit_len()) != 0
            invariant
                self.wf(),
                width == Self::Block::width(),
                0 < width,
                target == aligned_len(width, before.len()),
                fits(width, target),
                before.len() <= self.bit_seq().len() <= target,
                target < before.len() + width,
                target % width == 0,
                self.bit_seq() == before + repeat(
                    value,
                    (self.bit_seq().len() - before.len()) as nat,
                ),
            decreases target - self.bit_seq().len(),
        {
            let ghost current = self.bit_seq();
            proof {
                lemma_fits_smaller(width, current.len() + 1, target);
            }
            self.push_bit(value);
            assert(self.bit_seq() =~= before + repeat(
                value,
                (self.bit_seq().len() - before.len()) as nat,
            ));
        }
        proof {
            let len = self.bit_seq().len();
            if len < target {
                lemma_div_mod(len as int, width as int);
                lemma_div_mod(target as int, width as int);
                let q1 = len as int / width as int;
                let q2 = target as int / width as int;
                let q0 = before.len() as int / width as int;
                lemma_div_mod(before.len() as int, width as int);
                assert(false) by (nonlinear_arith)
                    requires
                        len == q1 * width,
                        target == q2 * width,
                        len < target,
                        target < before.len() + width,
                        before.len() <= len,
                        0 < width,
                ;
            }
        }
    }

    /// Pushes the given block onto the end of the container.
    ///
    /// If the end of the container is not at a block boundary, it is first
    /// padded with clear bits up to the next boundary.
    ///
    /// This implementation pushes the block one bit at a time.
    fn push_block(&mut self, value: Self::Block)
        requires
            old(self).wf(),
            fits(
                Self::Block::width(),
                aligned_len(Self::Block::width(), old(self).bit_seq().len())
                    + Self::Block::width(),
            ),
        ensures
            final(self).wf(),
            final(self).bit_seq() == padded(old(self).bit_seq(), Self::Block::width(), false)
                + value.bits(),
    {
        let ghost width = Self::Block::width();
        let ghost before = self.bit_seq();
        let ghost target = aligned_len(width, before.len());
        proof {
            Self::Block::lemma_width();
            lemma_aligned_len(width, before.len());
            lemma_fits_smaller(width, target, target + width);
        }
        self.align_block(false);
        let ghost aligned = self.bit_seq();
        let nbits = Self::Block::nbits();
        let mut i: usize = 0;
        while i < nbits
            invariant
                self.wf(),
                nbits == width,
                width == Self::Block::width(),
                0 < width,
                i <= nbits,
                aligned.len() == target,
                self.bit_seq().len() == target + i,
                fits(width, target + width),
                self.bit_seq() == aligned + value.bits().take(i as int),
            decreases nbits - i,
        {
            proof {
                lemma_fits_smaller(width, (target + i + 1) as nat, target + width);
            }
            self.push_bit(value.get_bit(i));
            i += 1;
            assert(self.bit_seq() =~= aligned + value.bits().take(i as int));
        }
        assert(value.bits().take(nbits as int) =~= value.bits());
    }
}

/// Containers that can be sliced by a range of bit positions.
///
/// `Range` is the form in which the range is given: `a..b`, `a..`, `..b`,
/// `..`, or `..=b`.
pub trait BitSliceable<Range>: Sized {
    /// The type of the slice produced.
    type Slice;

    /// Whether `self` can be sliced by `range`: the container is usable, and
    /// the range does not end before it starts nor reach past the last bit.
    spec fn can_slice(&self, range: Range) -> bool;

    /// Slices or re-slices the given container.
    fn bit_slice(self, range: Range) -> (slice: Self::Slice)
        requires
            self.can_slice(range),
    ;
}

impl<'a, T: Bits + ?Sized> Bits for &'a T {
    type Block = T::Block;

    open spec fn wf(&self) -> bool {
        (**self).wf()
    }

    open spec fn bit_seq(&self) -> Seq<bool> {
        (**self).bit_seq()
    }

    proof fn lemma_fits(&self) {
        (**self).lemma_fits();
    }

    fn bit_len(&self) -> (len: u64) {
        T::bit_len(*self)
    }

    fn block_len(&self) -> (len: usize) {
        T::block_len(*self)
    }

    fn get_bit(&self, position: u64) -> (value: bool) {
        T::get_bit(*self, position)
    }

    fn get_block(&self, position: usize) -> (block: Self::Block) {
        T::get_block(*self, position)
    }

    fn get_bits(&self, start: u64, count: usize) -> (block: Self::Block) {
        T::get_bits(*self, start, count)
    }
}

} // verus!
