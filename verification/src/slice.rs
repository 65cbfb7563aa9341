//! Views of a range of the bits of a container.
//!
//! A view borrows its container and remembers where its range starts and
//! how long it is. Bit `i` of the view is bit `offset + i` of the container;
//! nothing is copied.

use crate::storage::{
    bits_in_block, block_count, lemma_block_bit, lemma_block_in_range, BlockBits, BlockType,
};
use crate::range::BitRange;
use crate::traits::{
    block_at, lemma_fits_smaller, overwrite, window, check_span, BitSliceable, Bits, BitsMut,
};
use vstd::pervasive::runtime_assert;
use vstd::prelude::*;

verus! {

/// A read-only view of the bits `offset .. offset + len` of a container.
pub struct BitSlice<'a, T: Bits + ?Sized> {
    /// The container whose bits are viewed.
    pub bits: &'a T,
    /// The position in the container of the first bit of the view.
    pub offset: u64,
    /// The number of bits in the view.
    pub len: u64,
}

/// A view of the bits `offset .. offset + len` of a container through which
/// they can be written.
pub struct BitSliceMut<'a, T: BitsMut + ?Sized> {
    /// The container whose bits are viewed.
    pub bits: &'a mut T,
    /// The position in the container of the first bit of the view.
    pub offset: u64,
    /// The number of bits in the view.
    pub len: u64,
}

/// Block `index` of the range of `bits` that starts at `offset` and has
/// `len` bits is a window of `bits`.
pub proof fn lemma_block_of_range(
    bits: Seq<bool>,
    width: nat,
    offset: nat,
    len: nat,
    index: nat,
)
    requires
        0 < width,
        offset + len <= bits.len(),
        index < block_count(width, len),
    ensures
        index * width < len,
        block_at(bits.subrange(offset as int, (offset + len) as int), width, index as int)
            == window(
            bits,
            width,
            (offset + index * width) as int,
            bits_in_block(width, len, index) as int,
        ),
{
    lemma_block_in_range(width, len, index);
    let range = bits.subrange(offset as int, (offset + len) as int);
    let count = bits_in_block(width, len, index) as int;
    let left = block_at(range, width, index as int);
    let right = window(bits, width, (offset + index * width) as int, count);
    assert forall|j: int| 0 <= j < width implies left[j] == right[j] by {
        lemma_block_bit(width, len, index, j as nat);
    }
    assert(left =~= right);
}

/// Writing block `index` of a range of `bits` writes a window of `bits`.
pub proof fn lemma_overwrite_range(
    bits: Seq<bool>,
    offset: nat,
    len: nat,
    start: int,
    count: int,
    value: Seq<bool>,
)
    requires
        offset + len <= bits.len(),
        0 <= start,
        0 <= count,
        start + count <= len,
    ensures
        overwrite(bits, offset + start, count, value).subrange(
            offset as int,
            (offset + len) as int,
        ) == overwrite(
            bits.subrange(offset as int, (offset + len) as int),
            start,
            count,
            value,
        ),
{
    assert(overwrite(bits, offset + start, count, value).subrange(
        offset as int,
        (offset + len) as int,
    ) =~= overwrite(bits.subrange(offset as int, (offset + len) as int), start, count, value));
}

impl<'a, T: Bits + ?Sized> BitSlice<'a, T> {
    /// A view of all the bits of `bits`.
    pub fn new(bits: &'a T) -> (slice: Self)
        requires
            bits.wf(),
        ensures
            slice.wf(),
            slice.bits == bits,
            slice.offset == 0,
            slice.len == bits.bit_seq().len(),
            slice.bit_seq() == bits.bit_seq(),
    {
        let len = bits.bit_len();
        let slice = BitSlice { bits, offset: 0, len };
        assert(slice.bit_seq() =~= bits.bit_seq());
        slice
    }

    /// The view of the bits `low .. high` of this view: a view of the same
    /// container that starts `low` bits further on.
    pub open spec fn sliced(self, low: nat, high: nat) -> Self {
        BitSlice { bits: self.bits, offset: (self.offset + low) as u64, len: (high - low) as u64 }
    }

    /// The number of bits in the view.
    pub fn len(&self) -> (len: u64)
        ensures
            len == self.len,
    {
        self.len
    }

    /// Whether the view has no bits.
    pub fn is_empty(&self) -> (empty: bool)
        ensures
            empty == (self.len == 0),
    {
        self.len == 0
    }
}

impl<'a, T: Bits + ?Sized> Bits for BitSlice<'a, T> {
    type Block = T::Block;

    open spec fn wf(&self) -> bool {
        self.bits.wf() && self.offset + self.len <= self.bits.bit_seq().len()
    }

    open spec fn bit_seq(&self) -> Seq<bool> {
        self.bits.bit_seq().subrange(self.offset as int, self.offset + self.len)
    }

    proof fn lemma_fits(&self) {
        T::Block::lemma_width();
        self.bits.lemma_fits();
        lemma_fits_smaller(T::Block::width(), self.len as nat, self.bits.bit_seq().len());
    }

    fn bit_len(&self) -> (len: u64) {
        self.len
    }

    fn get_bit(&self, position: u64) -> (value: bool) {
        runtime_assert(position < self.len);
        proof {
            self.bits.lemma_fits();
        }
        self.bits.get_bit(self.offset + position)
    }

    fn get_block(&self, position: usize) -> (block: T::Block) {
        proof {
            T::Block::lemma_width();
            self.bits.lemma_fits();
            lemma_block_of_range(
                self.bits.bit_seq(),
                T::Block::width(),
                self.offset as nat,
                self.len as nat,
                position as nat,
            );
        }
        runtime_assert(position < self.block_len());
        let count = T::Block::block_bits(self.len, position);
        let start = self.offset + T::Block::mul_nbits(position);
        self.bits.get_bits(start, count)
    }

    fn get_bits(&self, start: u64, count: usize) -> (block: T::Block) {
        check_span(start, count, self.len, T::Block::nbits());
        proof {
            self.bits.lemma_fits();
        }
        let block = self.bits.get_bits(self.offset + start, count);
        assert(block.bits() =~= window(
            self.bit_seq(),
            T::Block::width(),
            start as int,
            count as int,
        ));
        block
    }
}

impl<'a, T: BitsMut + ?Sized> BitSliceMut<'a, T> {
    /// A view of all the bits of `bits`.
    pub fn new(bits: &'a mut T) -> (slice: Self)
        requires
            old(bits).wf(),
        ensures
            slice.wf(),
            slice.bits.bit_seq() == old(bits).bit_seq(),
            final(bits).wf() == final(slice.bits).wf(),
            final(bits).bit_seq() == final(slice.bits).bit_seq(),
            slice.offset == 0,
            slice.len == old(bits).bit_seq().len(),
            slice.bit_seq() == old(bits).bit_seq(),
    {
        let len = bits.bit_len();
        let slice = BitSliceMut { bits, offset: 0, len };
        assert(slice.bit_seq() =~= slice.bits.bit_seq());
        slice
    }

    /// The number of bits in the view.
    pub fn len(&self) -> (len: u64)
        ensures
            len == self.len,
    {
        self.len
    }

    /// Whether the view has no bits.
    pub fn is_empty(&self) -> (empty: bool)
        ensures
            empty == (self.len == 0),
    {
        self.len == 0
    }
}

impl<'a, T: BitsMut + ?Sized> Bits for BitSliceMut<'a, T> {
    type Block = T::Block;

    open spec fn wf(&self) -> bool {
        self.bits.wf() && self.offset + self.len <= self.bits.bit_seq().len()
    }

    open spec fn bit_seq(&self) -> Seq<bool> {
        self.bits.bit_seq().subrange(self.offset as int, self.offset + self.len)
    }

    proof fn lemma_fits(&self) {
        T::Block::lemma_width();
        self.bits.lemma_fits();
        lemma_fits_smaller(T::Block::width(), self.len as nat, self.bits.bit_seq().len());
    }

    fn bit_len(&self) -> (len: u64) {
        self.len
    }

    fn get_bit(&self, position: u64) -> (value: bool) {
        runtime_assert(position < self.len);
        proof {
            self.bits.lemma_fits();
        }
        self.bits.get_bit(self.offset + position)
    }

    fn get_block(&self, position: usize) -> (block: T::Block) {
        proof {
            T::Block::lemma_width();
            self.bits.lemma_fits();
            lemma_block_of_range(
                self.bits.bit_seq(),
                T::Block::width(),
                self.offset as nat,
                self.len as nat,
                position as nat,
            );
        }
        runtime_assert(position < self.block_len());
        let count = T::Block::block_bits(self.len, position);
        let start = self.offset + T::Block::mul_nbits(position);
        self.bits.get_bits(start, count)
    }

    fn get_bits(&self, start: u64, count: usize) -> (block: T::Block) {
        check_span(start, count, self.len, T::Block::nbits());
        proof {
            self.bits.lemma_fits();
        }
        let block = self.bits.get_bits(self.offset + start, count);
        assert(block.bits() =~= window(
            self.bit_seq(),
            T::Block::width(),
            start as int,
            count as int,
        ));
        block
    }
}

impl<'a, T: BitsMut + ?Sized> BitsMut for BitSliceMut<'a, T> {
    fn set_bit(&mut self, position: u64, value: bool)
        ensures
            final(self).offset == old(self).offset,
            final(self).len == old(self).len,
            final(self).bits.bit_seq() == old(self).bits.bit_seq().update(
                old(self).offset + position,
                value,
            ),
            final(final(self).bits).bit_seq() == final(old(self).bits).bit_seq(),
            final(final(self).bits).wf() == final(old(self).bits).wf(),
    {
        runtime_assert(position < self.len);
        proof {
            self.bits.lemma_fits();
        }
        let ghost before = self.bit_seq();
        self.bits.set_bit(self.offset + position, value);
        assert(self.bit_seq() =~= before.update(position as int, value));
    }

    fn set_block(&mut self, position: usize, value: T::Block)
        ensures
            final(self).offset == old(self).offset,
            final(self).len == old(self).len,
            final(self).bits.bit_seq() == overwrite(
                old(self).bits.bit_seq(),
                old(self).offset + position * T::Block::width(),
                bits_in_block(T::Block::width(), old(self).len as nat, position as nat) as int,
                value.bits(),
            ),
            final(final(self).bits).bit_seq() == final(old(self).bits).bit_seq(),
            final(final(self).bits).wf() == final(old(self).bits).wf(),
    {
        let ghost width = T::Block::width();
        let ghost before = self.bit_seq();
        let ghost under = self.bits.bit_seq();
        proof {
            T::Block::lemma_width();
            self.bits.lemma_fits();
            lemma_block_in_range(width, self.len as nat, position as nat);
            lemma_block_bit(width, self.len as nat, position as nat, 0);
        }
        runtime_assert(position < self.block_len());
        let count = T::Block::block_bits(self.len, position);
        let start = self.offset + T::Block::mul_nbits(position);
        self.bits.set_bits(start, count, value);
        proof {
            lemma_overwrite_range(
                under,
                self.offset as nat,
                self.len as nat,
                position * width,
                count as int,
                value.bits(),
            );
            assert(overwrite(before, position * width, count as int, value.bits()) =~= overwrite(
                before,
                position * width,
                width as int,
                value.bits(),
            ));
        }
    }

    fn set_bits(&mut self, start: u64, count: usize, value: T::Block)
        ensures
            final(self).offset == old(self).offset,
            final(self).len == old(self).len,
            final(self).bits.bit_seq() == overwrite(
                old(self).bits.bit_seq(),
                old(self).offset + start,
                count as int,
                value.bits(),
            ),
            final(final(self).bits).bit_seq() == final(old(self).bits).bit_seq(),
            final(final(self).bits).wf() == final(old(self).bits).wf(),
    {
        let ghost under = self.bits.bit_seq();
        check_span(start, count, self.len, T::Block::nbits());
        proof {
            self.bits.lemma_fits();
        }
        self.bits.set_bits(self.offset + start, count, value);
        proof {
            lemma_overwrite_range(
                under,
                self.offset as nat,
                self.len as nat,
                start as int,
                count as int,
                value.bits(),
            );
        }
    }
}

impl<'a, T: Bits + ?Sized, R: BitRange> BitSliceable<R> for BitSlice<'a, T> {
    type Slice = BitSlice<'a, T>;

    open spec fn can_slice(&self, range: R) -> bool {
        self.wf() && range.within(self.len as nat)
    }

    /// Slices the view again. The result views the same container, from
    /// `range.low()` bits further on.
    fn bit_slice(self, range: R) -> (slice: BitSlice<'a, T>)
        ensures
            slice.wf(),
            slice == self.sliced(range.low(self.len as nat), range.high(self.len as nat)),
            slice.bits == self.bits,
            slice.offset == self.offset + range.low(self.len as nat),
            slice.len == range.high(self.len as nat) - range.low(self.len as nat),
            slice.bit_seq() == self.bit_seq().subrange(
                range.low(self.len as nat) as int,
                range.high(self.len as nat) as int,
            ),
    {
        proof {
            self.bits.lemma_fits();
        }
        let bounds = range.bounds(self.len);
        let slice = BitSlice {
            bits: self.bits,
            offset: self.offset + bounds.start,
            len: bounds.end - bounds.start,
        };
        assert(slice.bit_seq() =~= self.bit_seq().subrange(
            bounds.start as int,
            bounds.end as int,
        ));
        slice
    }
}

impl<'a, T: BitsMut + ?Sized, R: BitRange> BitSliceable<R> for BitSliceMut<'a, T> {
    type Slice = BitSliceMut<'a, T>;

    open spec fn can_slice(&self, range: R) -> bool {
        self.wf() && range.within(self.len as nat)
    }

    /// Slices the view again. The result views the same container, from
    /// `range.low()` bits further on.
    fn bit_slice(self, range: R) -> (slice: BitSliceMut<'a, T>)
        ensures
            slice.wf(),
            slice.bits.bit_seq() == old(self.bits).bit_seq(),
            final(slice.bits).bit_seq() == final(self.bits).bit_seq(),
            final(slice.bits).wf() == final(self.bits).wf(),
            slice.offset == self.offset + range.low(self.len as nat),
            slice.len == range.high(self.len as nat) - range.low(self.len as nat),
            slice.bit_seq() == self.bit_seq().subrange(
                range.low(self.len as nat) as int,
                range.high(self.len as nat) as int,
            ),
    {
        proof {
            self.bits.lemma_fits();
        }
        let ghost whole = self.bit_seq();
        let bounds = range.bounds(self.len);
        let slice = BitSliceMut {
            bits: self.bits,
            offset: self.offset + bounds.start,
            len: bounds.end - bounds.start,
        };
        assert(slice.bit_seq() =~= whole.subrange(bounds.start as int, bounds.end as int));
        slice
    }
}

impl<'a, Block: BlockType, R: BitRange> BitSliceable<R> for &'a [Block] {
    type Slice = BitSlice<'a, [Block]>;

    open spec fn can_slice(&self, range: R) -> bool {
        self.wf() && range.within(self.bit_seq().len())
    }

    fn bit_slice(self, range: R) -> (slice: BitSlice<'a, [Block]>)
        ensures
            slice.wf(),
            slice.bits == self,
            slice.offset == range.low(self.bit_seq().len()),
            slice.len == range.high(self.bit_seq().len()) - range.low(self.bit_seq().len()),
    {
        let bounds = range.bounds(self.bit_len());
        BitSlice { bits: self, offset: bounds.start, len: bounds.end - bounds.start }
    }
}

impl<'a, Block: BlockType, R: BitRange> BitSliceable<R> for &'a mut [Block] {
    type Slice = BitSliceMut<'a, [Block]>;

    open spec fn can_slice(&self, range: R) -> bool {
        self.wf() && range.within(self.bit_seq().len())
    }

    fn bit_slice(self, range: R) -> (slice: BitSliceMut<'a, [Block]>)
        ensures
            slice.wf(),
            slice.bits@ == old(self)@,
            final(slice.bits)@ == final(self)@,
            slice.offset == range.low(old(self).bit_seq().len()),
            slice.len == range.high(old(self).bit_seq().len()) - range.low(
                old(self).bit_seq().len(),
            ),
    {
        let bounds = range.bounds(self.bit_len());
        BitSliceMut { bits: self, offset: bounds.start, len: bounds.end - bounds.start }
    }
}

} // verus!
