//! Containers walked block by block: for copying, equality and ordering.
//!
//! Everything here reads a container through [`Bits`] alone.

use crate::storage::{block_count, lemma_bit_address, BlockBits, BlockType};
use crate::traits::{block_at, Bits};
use vstd::prelude::*;

verus! {

/// The block whose bits are `bits`.
pub open spec fn block_of<Block: BlockType>(bits: Seq<bool>) -> Block {
    choose|block: Block| block.bits() == bits
}

/// The blocks of a container whose bits are `bits`, in order. Where the last
/// block reaches past the end, its bits there are clear.
pub open spec fn block_seq<Block: BlockType>(bits: Seq<bool>) -> Seq<Block> {
    Seq::new(
        block_count(Block::width(), bits.len()),
        |k: int| block_of::<Block>(block_at(bits, Block::width(), k)),
    )
}

/// How one sequence of blocks stands to another.
#[derive(Clone, Copy, Debug, PartialEq, Eq, Structural)]
pub enum Order {
    /// The first comes before the second.
    Less,
    /// Neither comes before the other.
    Equal,
    /// The first comes after the second.
    Greater,
}

/// The order of two sequences of blocks, as in a dictionary: the first place
/// in which they differ decides, by the values of the blocks there; where one
/// is the start of the other, the shorter comes first.
pub open spec fn lex_order<Block: BlockType>(a: Seq<Block>, b: Seq<Block>) -> Order
    decreases a.len(),
{
    if a.len() == 0 {
        if b.len() == 0 {
            Order::Equal
        } else {
            Order::Less
        }
    } else if b.len() == 0 {
        Order::Greater
    } else if a[0].value() < b[0].value() {
        Order::Less
    } else if a[0].value() > b[0].value() {
        Order::Greater
    } else {
        lex_order(a.skip(1), b.skip(1))
    }
}

/// A block is the block of its bits.
pub proof fn lemma_block_of<Block: BlockType>(block: Block)
    ensures
        block_of::<Block>(block.bits()) == block,
{
    let chosen = block_of::<Block>(block.bits());
    assert(chosen.bits() == block.bits());
    assert forall|i: int| 0 <= i < Block::width() implies chosen.bit(i) == block.bit(i) by {
        assert(chosen.bits()[i] == block.bits()[i]);
    }
    Block::lemma_bits_injective(chosen, block);
}

/// Containers with the same bits have the same blocks, and containers with
/// the same length and the same blocks have the same bits.
pub proof fn lemma_block_seq_injective<Block: BlockType>(a: Seq<bool>, b: Seq<bool>)
    requires
        a.len() == b.len(),
        forall|k: int|
            0 <= k < block_count(Block::width(), a.len()) ==> block_at(a, Block::width(), k)
                == block_at(b, Block::width(), k),
    ensures
        a == b,
{
    Block::lemma_width();
    let width = Block::width();
    assert forall|i: int| 0 <= i < a.len() implies a[i] == b[i] by {
        lemma_bit_address(width, a.len(), i as nat);
        let k = i / width as int;
        let o = i % width as int;
        assert(block_at(a, width, k)[o] == a[i]);
        assert(block_at(b, width, k)[o] == b[i]);
    }
    assert(a =~= b);
}

/// The order of two sequences that agree on their first `n` blocks is the
/// order of what follows.
pub proof fn lemma_lex_order_skip<Block: BlockType>(a: Seq<Block>, b: Seq<Block>, n: nat)
    requires
        n <= a.len(),
        n <= b.len(),
        forall|k: int| 0 <= k < n ==> a[k] == b[k],
    ensures
        lex_order(a, b) == lex_order(a.skip(n as int), b.skip(n as int)),
    decreases n,
{
    if n == 0 {
        assert(a.skip(0) =~= a);
        assert(b.skip(0) =~= b);
    } else {
        assert(a[0] == b[0]);
        let a1 = a.skip(1);
        let b1 = b.skip(1);
        assert forall|k: int| 0 <= k < n - 1 implies a1[k] == b1[k] by {
            assert(a1[k] == a[k + 1]);
            assert(b1[k] == b[k + 1]);
        }
        lemma_lex_order_skip(a1, b1, (n - 1) as nat);
        assert(a1.skip(n - 1) =~= a.skip(n as int));
        assert(b1.skip(n - 1) =~= b.skip(n as int));
    }
}

/// The blocks of a container, in order.
pub fn to_blocks<T: Bits + ?Sized>(bits: &T) -> (blocks: Vec<T::Block>)
    requires
        bits.wf(),
    ensures
        blocks@ == block_seq::<T::Block>(bits.bit_seq()),
        forall|k: int|
            0 <= k < blocks@.len() ==> (#[trigger] blocks@[k]).bits() == block_at(
                bits.bit_seq(),
                T::Block::width(),
                k,
            ),
{
    let block_len = bits.block_len();
    let mut blocks: Vec<T::Block> = Vec::with_capacity(block_len);
    let mut i: usize = 0;
    while i < block_len
        invariant
            bits.wf(),
            block_len == block_count(T::Block::width(), bits.bit_seq().len()),
            i <= block_len,
            blocks@.len() == i,
            forall|k: int| 0 <= k < i ==> blocks@[k] == block_seq::<T::Block>(bits.bit_seq())[k],
            forall|k: int|
                0 <= k < i ==> (#[trigger] blocks@[k]).bits() == block_at(
                    bits.bit_seq(),
                    T::Block::width(),
                    k,
                ),
        decreases block_len - i,
    {
        let block = bits.get_block(i);
        proof {
            lemma_block_of(block);
        }
        blocks.push(block);
        i += 1;
    }
    assert(blocks@ =~= block_seq::<T::Block>(bits.bit_seq()));
    blocks
}

/// Whether two containers hold the same bits: as many, and the same at each
/// position. They are compared a block at a time.
pub fn bits_eq<A: Bits + ?Sized, B: Bits<Block = A::Block> + ?Sized>(a: &A, b: &B) -> (equal: bool)
    requires
        a.wf(),
        b.wf(),
    ensures
        equal == (a.bit_seq() == b.bit_seq()),
{
    if a.bit_len() != b.bit_len() {
        return false;
    }
    let block_len = a.block_len();
    let mut i: usize = 0;
    while i < block_len
        invariant
            a.wf(),
            b.wf(),
            a.bit_seq().len() == b.bit_seq().len(),
            block_len == block_count(A::Block::width(), a.bit_seq().len()),
            i <= block_len,
            forall|k: int|
                0 <= k < i ==> block_at(a.bit_seq(), A::Block::width(), k) == block_at(
                    b.bit_seq(),
                    A::Block::width(),
                    k,
                ),
        decreases block_len - i,
    {
        let x = a.get_block(i);
        let y = b.get_block(i);
        if !x.block_eq(y) {
            proof {
                if a.bit_seq() == b.bit_seq() {
                    assert forall|j: int| 0 <= j < A::Block::width() implies x.bit(j) == y.bit(
                        j,
                    ) by {
                        assert(x.bits()[j] == y.bits()[j]);
                    }
                    A::Block::lemma_bits_injective(x, y);
                }
            }
            return false;
        }
        i += 1;
    }
    proof {
        lemma_block_seq_injective::<A::Block>(a.bit_seq(), b.bit_seq());
    }
    true
}

/// The order of two containers: that of their sequences of blocks, as in a
/// dictionary.
pub fn bits_order<A: Bits + ?Sized, B: Bits<Block = A::Block> + ?Sized>(a: &A, b: &B) -> (order:
    Order)
    requires
        a.wf(),
        b.wf(),
    ensures
        order == lex_order(
            block_seq::<A::Block>(a.bit_seq()),
            block_seq::<A::Block>(b.bit_seq()),
        ),
{
    let ghost left = block_seq::<A::Block>(a.bit_seq());
    let ghost right = block_seq::<A::Block>(b.bit_seq());
    let len1 = a.block_len();
    let len2 = b.block_len();
    let mut i: usize = 0;
    while i < len1 && i < len2
        invariant
            a.wf(),
            b.wf(),
            left == block_seq::<A::Block>(a.bit_seq()),
            right == block_seq::<A::Block>(b.bit_seq()),
            len1 == left.len(),
            len2 == right.len(),
            i <= len1,
            i <= len2,
            forall|k: int| 0 <= k < i ==> left[k] == right[k],
        decreases len1 - i,
    {
        let x = a.get_block(i);
        let y = b.get_block(i);
        proof {
            lemma_block_of(x);
            lemma_block_of(y);
            lemma_lex_order_skip(left, right, i as nat);
            assert(left.skip(i as int)[0] == x);
            assert(right.skip(i as int)[0] == y);
        }
        if x.block_lt(y) {
            return Order::Less;
        }
        if y.block_lt(x) {
            return Order::Greater;
        }
        proof {
            A::Block::lemma_value_injective(x, y);
        }
        i += 1;
    }
    proof {
        lemma_lex_order_skip(left, right, i as nat);
    }
    if len1 < len2 {
        Order::Less
    } else if len1 > len2 {
        Order::Greater
    } else {
        Order::Equal
    }
}

} // verus!
