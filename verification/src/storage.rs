//! Blocks and block arithmetic.
//!
//! Bits are packed into blocks: unsigned integers of a fixed width `W`, with
//! bit 0 in the least significant position. Everything above this module is
//! written once, against the [`BlockType`] trait, and never looks at a
//! particular width.

use vstd::arithmetic::div_mod::{lemma_fundamental_div_mod, lemma_fundamental_div_mod_converse};
use vstd::arithmetic::mul::lemma_mul_is_commutative;
use vstd::prelude::*;

verus! {

/// The number of blocks of `width` bits that it takes to hold `bit_len` bits:
/// `bit_len / width`, rounded up.
pub open spec fn block_count(width: nat, bit_len: nat) -> nat {
    ((bit_len + width - 1) / (width as int)) as nat
}

/// How many of the bits of block `index` belong to a container of `bit_len`
/// bits: all `width` of them, except in a last block that is only partly
/// used.
pub open spec fn bits_in_block(width: nat, bit_len: nat, index: nat) -> nat
    recommends
        index < block_count(width, bit_len),
{
    if bit_len - index * width < width {
        (bit_len - index * width) as nat
    } else {
        width
    }
}

/// The first `bit_len` bits held by `blocks`: bit `i` is bit `i % W` of block
/// `i / W`.
pub open spec fn packed_bits<Block: BlockType>(blocks: Seq<Block>, bit_len: nat) -> Seq<bool> {
    Seq::new(bit_len, |i: int| blocks[i / Block::width() as int].bit(i % Block::width() as int))
}

/// The number that a sequence of bits stands for: the first bit counts 1, the
/// second 2, the third 4, and so on.
pub open spec fn bits_value(bits: Seq<bool>) -> nat
    decreases bits.len(),
{
    if bits.len() == 0 {
        0
    } else {
        (if bits[0] {
            1nat
        } else {
            0nat
        }) + 2 * bits_value(bits.skip(1))
    }
}

/// Division with remainder by a positive width.
pub proof fn lemma_div_mod(x: int, w: int)
    requires
        0 <= x,
        0 < w,
    ensures
        x == (x / w) * w + x % w,
        0 <= x % w < w,
        0 <= x / w <= x,
{
    lemma_fundamental_div_mod(x, w);
    lemma_mul_is_commutative(w, x / w);
    let q = x / w;
    let r = x % w;
    assert(0 <= r < w);
    assert(q >= 0) by (nonlinear_arith)
        requires
            x == q * w + r,
            0 <= x,
            0 <= r < w,
    ;
    assert(q <= x) by (nonlinear_arith)
        requires
            x == q * w + r,
            0 <= q,
            0 <= r,
            1 <= w,
    ;
}

/// The quotient and remainder of `q * w + r` for an `r` below `w`.
pub proof fn lemma_div_mod_of(q: int, r: int, w: int)
    requires
        0 <= r < w,
    ensures
        (q * w + r) / w == q,
        (q * w + r) % w == r,
{
    lemma_fundamental_div_mod_converse(q * w + r, w, q, r);
}

/// A position among the bits of `count` whole blocks lies in one of them.
pub proof fn lemma_position_in_blocks(width: nat, count: nat, position: nat)
    requires
        0 < width,
        position < count * width,
    ensures
        position / width < count,
        position % width < width,
        position == (position / width) * width + position % width,
{
    let w = width as int;
    let p = position as int;
    let c = count as int;
    lemma_div_mod(p, w);
    let q = p / w;
    let r = p % w;
    assert(q < c) by (nonlinear_arith)
        requires
            p < c * w,
            p == q * w + r,
            0 <= r,
            0 < w,
    ;
}

/// Bit `offset` of block `index` is one of the bits of `count` whole blocks,
/// and `index` and `offset` are its quotient and remainder by the width.
pub proof fn lemma_bit_in_blocks(width: nat, count: nat, index: nat, offset: nat)
    requires
        index < count,
        offset < width,
    ensures
        index * width + offset < count * width,
        (index * width + offset) / width == index,
        (index * width + offset) % width == offset,
{
    let w = width as int;
    let c = count as int;
    let i = index as int;
    assert(i * w + w <= c * w) by (nonlinear_arith)
        requires
            i + 1 <= c,
            0 < w,
    ;
    lemma_div_mod_of(i, offset as int, w);
}

/// `block_count` written with a case split instead of a rounding division.
pub proof fn lemma_block_count(width: nat, bit_len: nat)
    requires
        0 < width,
    ensures
        block_count(width, bit_len) == (if bit_len % width == 0 {
            bit_len / width
        } else {
            bit_len / width + 1
        }),
        block_count(width, bit_len) <= bit_len,
{
    let w = width as int;
    let x = bit_len as int;
    lemma_div_mod(x, w);
    let q = x / w;
    let r = x % w;
    if r == 0 {
        assert(x + w - 1 == q * w + (w - 1));
        lemma_div_mod_of(q, w - 1, w);
    } else {
        assert(x + w - 1 == (q + 1) * w + (r - 1)) by (nonlinear_arith)
            requires
                x == q * w + r,
        ;
        lemma_div_mod_of(q + 1, r - 1, w);
        assert(q + 1 <= x) by (nonlinear_arith)
            requires
                x == q * w + r,
                0 <= q,
                1 <= r,
                1 <= w,
        ;
    }
}

/// More bits never take fewer blocks.
pub proof fn lemma_blocks_monotone(width: nat, smaller: nat, larger: nat)
    requires
        0 < width,
        smaller <= larger,
    ensures
        block_count(width, smaller) <= block_count(width, larger),
{
    let w = width as int;
    lemma_block_count(width, smaller);
    lemma_block_count(width, larger);
    lemma_div_mod(smaller as int, w);
    lemma_div_mod(larger as int, w);
    let qs = smaller as int / w;
    let ql = larger as int / w;
    if qs > ql {
        assert(qs * w >= (ql + 1) * w) by (nonlinear_arith)
            requires
                qs >= ql + 1,
                w > 0,
        ;
        assert((ql + 1) * w == ql * w + w) by (nonlinear_arith);
    }
}

/// A block index is in range exactly when its first bit is.
pub proof fn lemma_block_in_range(width: nat, bit_len: nat, index: nat)
    requires
        0 < width,
    ensures
        index < block_count(width, bit_len) <==> index * width < bit_len,
{
    let w = width as int;
    let x = bit_len as int;
    let i = index as int;
    lemma_block_count(width, bit_len);
    lemma_div_mod(x, w);
    let q = x / w;
    let r = x % w;
    if i < q {
        assert(i * w < x) by (nonlinear_arith)
            requires
                x == q * w + r,
                0 <= i < q,
                0 <= r,
                0 < w,
        ;
    } else if i == q {
        assert(i * w == x - r);
    } else {
        assert(i * w >= x) by (nonlinear_arith)
            requires
                x == q * w + r,
                i > q,
                r < w,
                0 < w,
        ;
    }
}

/// The block and the place within it of every bit of a container.
pub proof fn lemma_bit_address(width: nat, bit_len: nat, position: nat)
    requires
        0 < width,
        position < bit_len,
    ensures
        position / width < block_count(width, bit_len),
        position % width < bits_in_block(width, bit_len, position / width),
        position == (position / width) * width + position % width,
{
    let w = width as int;
    let p = position as int;
    lemma_div_mod(p, w);
    let q = p / w;
    assert(q * w <= p);
    lemma_block_in_range(width, bit_len, q as nat);
}

/// Bit `offset` of block `index` is bit `index * width + offset` of the
/// container, and belongs to it exactly when it lies among the block's
/// `bits_in_block` bits.
pub proof fn lemma_block_bit(width: nat, bit_len: nat, index: nat, offset: nat)
    requires
        0 < width,
        index < block_count(width, bit_len),
        offset < width,
    ensures
        offset < bits_in_block(width, bit_len, index) <==> index * width + offset < bit_len,
        0 < bits_in_block(width, bit_len, index) <= width,
        (index * width + offset) / width == index,
        (index * width + offset) % width == offset,
{
    lemma_block_in_range(width, bit_len, index);
    lemma_div_mod_of(index as int, offset as int, width as int);
}

/// Where a bit lives: the index of its block and its place within the block.
#[derive(Clone, Copy, Debug, PartialEq, Eq, Structural)]
pub struct Address {
    /// The index of the block that holds the bit.
    pub block_index: usize,
    /// The bit's place within that block, below the block width.
    pub bit_offset: usize,
}

impl Address {
    /// The address of bit `position` when blocks are `Block`s.
    pub fn new<Block: BlockType>(position: u64) -> (address: Address)
        requires
            position as int / Block::width() as int <= usize::MAX,
        ensures
            address.block_index == position as int / Block::width() as int,
            address.bit_offset == position as int % Block::width() as int,
            address.bit_offset < Block::width(),
            position == address.block_index * Block::width() + address.bit_offset,
    {
        proof {
            Block::lemma_width();
            lemma_div_mod(position as int, Block::width() as int);
        }
        Address { block_index: Block::div_nbits(position), bit_offset: Block::mod_nbits(position) }
    }
}

/// An unsigned integer of fixed width, used as a block of bits.
///
/// An implementation supplies the width, the meaning of each bit, the laws
/// that tie bits and value together, and the machine operations on whole
/// blocks. Everything else is
/// derived here, once, for every width.
pub trait BlockType: Copy + Sized {
    /// The number of bits in a block.
    spec fn width() -> nat;

    /// Whether bit `index` is set, for `0 <= index < width()`.
    spec fn bit(self, index: int) -> bool;

    /// The block's value as a number.
    spec fn value(self) -> nat;

    /// A block has at least one bit and at most 128.
    proof fn lemma_width()
        ensures
            0 < Self::width() <= 128,
    ;

    /// A block is determined by its bits.
    proof fn lemma_bits_injective(a: Self, b: Self)
        requires
            forall|i: int| 0 <= i < Self::width() ==> a.bit(i) == b.bit(i),
        ensures
            a == b,
    ;

    /// Bit 0 of a block is its least significant bit: the value of a block is
    /// the number that its bits stand for.
    proof fn lemma_value(self)
        ensures
            self.value() == bits_value(Seq::new(Self::width(), |i: int| self.bit(i))),
    ;

    /// A block is determined by its value.
    proof fn lemma_value_injective(a: Self, b: Self)
        requires
            a.value() == b.value(),
        ensures
            a == b,
    ;

    /// The number of bits in a block.
    fn nbits() -> (n: usize)
        ensures
            n == Self::width(),
            0 < n <= 128,
    ;

    /// The block with no bit set.
    fn zero() -> (block: Self)
        ensures
            forall|i: int| 0 <= i < Self::width() ==> !#[trigger] block.bit(i),
    ;

    /// The block with only bit 0 set.
    fn one() -> (block: Self)
        ensures
            forall|i: int| 0 <= i < Self::width() ==> #[trigger] block.bit(i) == (i == 0),
    ;

    /// Bitwise and.
    fn bit_and(self, other: Self) -> (block: Self)
        ensures
            forall|i: int|
                0 <= i < Self::width() ==> #[trigger] block.bit(i) == (self.bit(i) && other.bit(
                    i,
                )),
    ;

    /// Bitwise or.
    fn bit_or(self, other: Self) -> (block: Self)
        ensures
            forall|i: int|
                0 <= i < Self::width() ==> #[trigger] block.bit(i) == (self.bit(i) || other.bit(
                    i,
                )),
    ;

    /// Bitwise complement.
    fn bit_not(self) -> (block: Self)
        ensures
            forall|i: int| 0 <= i < Self::width() ==> #[trigger] block.bit(i) == !self.bit(i),
    ;

    /// Moves every bit `count` places up; the low `count` bits become clear.
    fn shl(self, count: usize) -> (block: Self)
        requires
            count < Self::width(),
        ensures
            forall|i: int|
                0 <= i < Self::width() ==> #[trigger] block.bit(i) == (i >= count && self.bit(
                    i - count,
                )),
    ;

    /// Moves every bit `count` places down; the high `count` bits become clear.
    fn shr(self, count: usize) -> (block: Self)
        requires
            count < Self::width(),
        ensures
            forall|i: int|
                0 <= i < Self::width() ==> #[trigger] block.bit(i) == (i + count < Self::width()
                    && self.bit(i + count)),
    ;

    /// Whether two blocks are the same.
    fn block_eq(self, other: Self) -> (same: bool)
        ensures
            same == (self == other),
    ;

    /// Whether `self` is below `other` as a number.
    fn block_lt(self, other: Self) -> (below: bool)
        ensures
            below == (self.value() < other.value()),
    ;

    /// The index of the block that holds bit `position`.
    fn div_nbits(position: u64) -> (index: usize)
        requires
            position as int / Self::width() as int <= usize::MAX,
        ensures
            index == position as int / Self::width() as int,
    {
        (position / (Self::nbits() as u64)) as usize
    }

    /// The place of bit `position` within its block.
    fn mod_nbits(position: u64) -> (offset: usize)
        ensures
            offset == position as int % Self::width() as int,
            offset < Self::width(),
    {
        (position % (Self::nbits() as u64)) as usize
    }

    /// The position of the first bit of block `index`.
    fn mul_nbits(index: usize) -> (position: u64)
        requires
            index * Self::width() <= u64::MAX,
        ensures
            position == index * Self::width(),
    {
        proof {
            lemma_mul_is_commutative(index as int, Self::width() as int);
        }
        (index as u64) * (Self::nbits() as u64)
    }

    /// The number of blocks that `bit_len` bits take.
    fn ceil_div_nbits(bit_len: u64) -> (count: usize)
        requires
            block_count(Self::width(), bit_len as nat) <= usize::MAX,
        ensures
            count == block_count(Self::width(), bit_len as nat),
    {
        proof {
            Self::lemma_width();
            lemma_block_count(Self::width(), bit_len as nat);
        }
        let width: u64 = Self::nbits() as u64;
        if bit_len % width == 0 {
            (bit_len / width) as usize
        } else {
            (bit_len / width + 1) as usize
        }
    }

    /// The number of bits in use in the last block of a container of
    /// `bit_len` bits, if it has any block.
    fn last_block_bits(bit_len: u64) -> (count: usize)
        ensures
            count == (if bit_len as int % Self::width() as int == 0 {
                Self::width()
            } else {
                (bit_len as int % Self::width() as int) as nat
            }),
            0 < bit_len ==> count == bits_in_block(
                Self::width(),
                bit_len as nat,
                (block_count(Self::width(), bit_len as nat) - 1) as nat,
            ),
    {
        proof {
            Self::lemma_width();
            let w = Self::width() as int;
            let x = bit_len as int;
            lemma_block_count(Self::width(), bit_len as nat);
            lemma_div_mod(x, w);
            if 0 < x {
                let q = x / w;
                if x % w == 0 {
                    assert(q >= 1) by (nonlinear_arith)
                        requires
                            x == q * w,
                            0 < x,
                            0 < w,
                            0 <= q,
                    ;
                    assert((q - 1) * w == x - w) by (nonlinear_arith)
                        requires
                            x == q * w,
                    ;
                }
            }
        }
        let masked = Self::mod_nbits(bit_len);
        if masked == 0 {
            Self::nbits()
        } else {
            masked
        }
    }

    /// The number of bits of block `position` that are in use in a container
    /// of `bit_len` bits.
    fn block_bits(bit_len: u64, position: usize) -> (count: usize)
        requires
            position < block_count(Self::width(), bit_len as nat),
        ensures
            count == bits_in_block(Self::width(), bit_len as nat, position as nat),
            0 < count <= Self::width(),
    {
        proof {
            Self::lemma_width();
            lemma_block_bit(Self::width(), bit_len as nat, position as nat, 0);
        }
        let block_start = Self::mul_nbits(position);
        let rest: u64 = bit_len - block_start;
        if rest < Self::nbits() as u64 {
            rest as usize
        } else {
            Self::nbits()
        }
    }

    /// The block whose low `count` bits are set and whose other bits are
    /// clear.
    fn low_mask(count: usize) -> (block: Self)
        requires
            count <= Self::width(),
        ensures
            forall|i: int| 0 <= i < Self::width() ==> #[trigger] block.bit(i) == (i < count),
    {
        let ones = Self::zero().bit_not();
        if count == Self::nbits() {
            ones
        } else {
            ones.shl(count).bit_not()
        }
    }

    /// The block with only bit `position` set.
    fn nth_mask(position: usize) -> (block: Self)
        requires
            position < Self::width(),
        ensures
            forall|i: int| 0 <= i < Self::width() ==> #[trigger] block.bit(i) == (i == position),
    {
        Self::one().shl(position)
    }

    /// Reads bit `position`.
    fn get_bit(self, position: usize) -> (value: bool)
        requires
            position < Self::width(),
        ensures
            value == self.bit(position as int),
    {
        let masked = self.bit_and(Self::nth_mask(position));
        let zero = Self::zero();
        proof {
            if !self.bit(position as int) {
                Self::lemma_bits_injective(masked, zero);
            } else {
                assert(masked.bit(position as int));
            }
        }
        !masked.block_eq(zero)
    }

    /// The block with bit `position` forced to `value` and the others kept.
    fn with_bit(self, position: usize, value: bool) -> (block: Self)
        requires
            position < Self::width(),
        ensures
            forall|i: int|
                0 <= i < Self::width() ==> #[trigger] block.bit(i) == (if i == position {
                    value
                } else {
                    self.bit(i)
                }),
    {
        let mask = Self::nth_mask(position);
        if value {
            self.bit_or(mask)
        } else {
            self.bit_and(mask.bit_not())
        }
    }

    /// Reads `count` bits starting at bit `start`: bit `i` of the result is
    /// bit `start + i` of `self` for `i < count`, and clear above.
    fn get_bits(self, start: usize, count: usize) -> (block: Self)
        requires
            start + count <= Self::width(),
        ensures
            forall|i: int|
                0 <= i < Self::width() ==> #[trigger] block.bit(i) == (i < count && self.bit(
                    start + i,
                )),
    {
        if count == 0 {
            Self::zero()
        } else {
            self.shr(start).bit_and(Self::low_mask(count))
        }
    }

    /// The block with the `count` bits from bit `start` on replaced by the
    /// low `count` bits of `value`, and the others kept.
    fn with_bits(self, start: usize, count: usize, value: Self) -> (block: Self)
        requires
            start + count <= Self::width(),
        ensures
            forall|i: int|
                0 <= i < Self::width() ==> #[trigger] block.bit(i) == (if start <= i < start
                    + count {
                    value.bit(i - start)
                } else {
                    self.bit(i)
                }),
    {
        if count == 0 {
            self
        } else {
            let mask = Self::low_mask(count).shl(start);
            let kept = self.bit_and(mask.bit_not());
            let placed = value.shl(start).bit_and(mask);
            kept.bit_or(placed)
        }
    }
}

/// The bits of a block as a sequence.
pub trait BlockBits: BlockType {
    /// The block as a sequence of `width()` bits, least significant first.
    spec fn bits(self) -> Seq<bool>;
}

impl<Block: BlockType> BlockBits for Block {
    open spec fn bits(self) -> Seq<bool> {
        Seq::new(Self::width(), |i: int| self.bit(i))
    }
}

} // verus!
