//! Laws that relate the operations of a bit container to each other.
//!
//! Each law is stated over the model: the sequence of bits that
//! [`Bits::bit_seq`](crate::traits::Bits::bit_seq) gives, and the spec
//! functions that the contracts of the operations are written with.

use crate::bit_vec::BitVec;
use crate::blocks::{block_seq, lex_order, Order};
use crate::slice::BitSlice;
use crate::storage::{block_count, BlockBits, BlockType};
use crate::traits::{aligned_len, block_at, lemma_aligned_len, overwrite, padded, window, Bits};
use std::cmp::Ordering;
use vstd::prelude::*;
use vstd::std_specs::cmp::{PartialEqSpec, PartialOrdSpec};

verus! {

/// The bits of a container after `values` were pushed onto `bits` one by one,
/// first to last.
pub open spec fn push_all(bits: Seq<bool>, values: Seq<bool>) -> Seq<bool>
    decreases values.len(),
{
    if values.len() == 0 {
        bits
    } else {
        push_all(bits.push(values[0]), values.skip(1))
    }
}

/// After `set_bit(position, value)`, `get_bit(position)` gives `value`, every
/// other bit is as it was, and the length has not changed.
pub proof fn law_set_bit_then_get_bit(bits: Seq<bool>, position: int, value: bool)
    requires
        0 <= position < bits.len(),
    ensures
        bits.update(position, value).len() == bits.len(),
        bits.update(position, value)[position] == value,
        forall|other: int|
            0 <= other < bits.len() && other != position ==> bits.update(position, value)[other]
                == bits[other],
{
}

/// After `set_bits(start, count, value)`, `get_bits(start, count)` gives the
/// low `count` bits of `value`: the block `masked`, which is `value` with
/// the bits from `count` up cleared.
pub proof fn law_set_bits_then_get_bits<Block: BlockType>(
    bits: Seq<bool>,
    start: int,
    count: int,
    value: Block,
    read: Block,
    masked: Block,
)
    requires
        0 <= start,
        0 <= count <= Block::width(),
        start + count <= bits.len(),
        read.bits() == window(
            overwrite(bits, start, count, value.bits()),
            Block::width(),
            start,
            count,
        ),
        forall|i: int| 0 <= i < Block::width() ==> masked.bit(i) == (i < count && value.bit(i)),
    ensures
        read == masked,
{
    let written = overwrite(bits, start, count, value.bits());
    assert forall|i: int| 0 <= i < Block::width() implies read.bit(i) == masked.bit(i) by {
        assert(read.bit(i) == read.bits()[i]);
        if i < count {
            assert(written[start + i] == value.bits()[i]);
        }
    }
    Block::lemma_bits_injective(read, masked);
}

/// `set_bits` changes nothing outside the span it writes.
pub proof fn law_set_bits_keeps_the_rest(
    bits: Seq<bool>,
    start: int,
    count: int,
    value: Seq<bool>,
    other: int,
)
    requires
        0 <= other < bits.len(),
        !(start <= other < start + count),
    ensures
        overwrite(bits, start, count, value).len() == bits.len(),
        overwrite(bits, start, count, value)[other] == bits[other],
{
}

/// Bits pushed onto a container one by one are appended to it in the order
/// in which they were pushed.
pub proof fn law_push_all_appends(bits: Seq<bool>, values: Seq<bool>)
    ensures
        push_all(bits, values) == bits + values,
    decreases values.len(),
{
    if values.len() == 0 {
        assert(bits + values =~= bits);
    } else {
        law_push_all_appends(bits.push(values[0]), values.skip(1));
        assert(bits.push(values[0]) + values.skip(1) =~= bits + values);
    }
}

/// A container built from nothing by `push_bit` reads back, bit by bit, as
/// the sequence that was pushed.
pub proof fn law_push_then_get(values: Seq<bool>)
    ensures
        push_all(Seq::empty(), values) == values,
        forall|i: int| 0 <= i < values.len() ==> push_all(Seq::empty(), values)[i] == values[i],
{
    law_push_all_appends(Seq::empty(), values);
    assert(Seq::<bool>::empty() + values =~= values);
}

/// `align_block` twice in a row does what `align_block` does once, whatever
/// value the second one pads with.
pub proof fn law_align_block_idempotent(bits: Seq<bool>, width: nat, value: bool, again: bool)
    requires
        0 < width,
    ensures
        padded(padded(bits, width, value), width, again) == padded(bits, width, value),
        padded(bits, width, value).len() % width == 0,
{
    let once = padded(bits, width, value);
    lemma_aligned_len(width, bits.len());
    assert(once.len() == aligned_len(width, bits.len()));
    lemma_aligned_len(width, once.len());
    assert(padded(once, width, again) =~= once);
}

/// After `push_block(value)`, `get_block` at the index of the last block
/// gives `value`, whether or not the container ended on a block boundary
/// before. That index is the number of blocks that the container had.
pub proof fn law_push_block_then_get_block<Block: BlockType>(
    bits: Seq<bool>,
    value: Block,
    read: Block,
)
    requires
        read.bits() == block_at(
            padded(bits, Block::width(), false) + value.bits(),
            Block::width(),
            block_count(Block::width(), bits.len()) as int,
        ),
    ensures
        read == value,
        block_count(Block::width(), bits.len()) + 1 == block_count(
            Block::width(),
            (padded(bits, Block::width(), false) + value.bits()).len(),
        ),
{
    Block::lemma_width();
    let width = Block::width();
    let after = padded(bits, width, false) + value.bits();
    let index = block_count(width, bits.len()) as int;
    lemma_aligned_len(width, bits.len());
    assert(1 * width == width);
    assert(index * width == aligned_len(width, bits.len()));
    assert forall|i: int| 0 <= i < width implies read.bit(i) == value.bit(i) by {
        assert(read.bit(i) == read.bits()[i]);
        assert(after[index * width + i] == value.bits()[i]);
    }
    Block::lemma_bits_injective(read, value);
}

/// Slicing a slice is slicing the container: the range `c..d` of the range
/// `a..b` is the range `a + c .. a + d`.
pub proof fn law_slice_of_slice(bits: Seq<bool>, a: int, b: int, c: int, d: int)
    requires
        0 <= a <= b <= bits.len(),
        0 <= c <= d <= b - a,
    ensures
        bits.subrange(a, b).subrange(c, d) == bits.subrange(a + c, a + d),
{
    assert(bits.subrange(a, b).subrange(c, d) =~= bits.subrange(a + c, a + d));
}

/// Slicing a view again gives the view that slicing the container by the
/// combined range gives: the same container, the offsets added up.
pub proof fn law_slice_of_view<T: Bits + ?Sized>(view: BitSlice<T>, a: nat, b: nat, c: nat, d: nat)
    requires
        view.wf(),
        a <= b <= view.len,
        c <= d <= b - a,
    ensures
        view.sliced(a, b).sliced(c, d) == view.sliced(a + c, a + d),
        view.sliced(a, b).wf(),
        view.sliced(a, b).bit_seq() == view.bit_seq().subrange(a as int, b as int),
        view.sliced(a, b).sliced(c, d).bit_seq() == view.bit_seq().subrange(
            (a + c) as int,
            (a + d) as int,
        ),
{
    view.bits.lemma_fits();
    assert(view.sliced(a, b).bit_seq() =~= view.bit_seq().subrange(a as int, b as int));
    assert(view.sliced(a + c, a + d).bit_seq() =~= view.bit_seq().subrange(
        (a + c) as int,
        (a + d) as int,
    ));
}

/// Two vectors are equal exactly when they hold the same bits. How they
/// were built, how much room they have, and what their storage holds past
/// their last bit make no difference; nor do they to the blocks that a
/// vector hands out for hashing, or to the order of two vectors.
pub proof fn law_eq_ignores_storage<Block: BlockType>(a: BitVec<Block>, b: BitVec<Block>)
    requires
        a.inv(),
        b.inv(),
    ensures
        a.eq_spec(&b) <==> a@ == b@,
        a@ == b@ ==> block_seq::<Block>(a@) == block_seq::<Block>(b@),
        a@ == b@ ==> a.partial_cmp_spec(&b) == Some(Ordering::Equal),
{
    if a@ == b@ {
        law_order_reflexive(block_seq::<Block>(a@));
    }
}

/// A sequence of blocks is neither before nor after itself.
pub proof fn law_order_reflexive<Block: BlockType>(blocks: Seq<Block>)
    ensures
        lex_order(blocks, blocks) == Order::Equal,
    decreases blocks.len(),
{
    if blocks.len() > 0 {
        law_order_reflexive(blocks.skip(1));
    }
}

} // verus!
