//! The unsigned integers as blocks.
//!
//! Bit `i` of an integer is read by shifting it down `i` places and looking at
//! the lowest bit. What each machine operation does to the bits is shown with
//! the bit-vector solver, width by width.

use crate::storage::{bits_value, BlockType};
use vstd::prelude::*;

verus! {

proof fn lemma_u8_constants()
    by (bit_vector)
    ensures
        forall|i: u8| i < 8 ==> (0u8 >> i) & 1u8 != 1u8,
        forall|i: u8| i < 8 ==> (((1u8 >> i) & 1u8 == 1u8) <==> i == 0),
{
}

proof fn lemma_u8_logic(a: u8, b: u8, i: u8)
    by (bit_vector)
    requires
        i < 8,
    ensures
        (((a & b) >> i) & 1u8 == 1u8) <==> ((a >> i) & 1u8 == 1u8 && (b >> i) & 1u8
            == 1u8),
        (((a | b) >> i) & 1u8 == 1u8) <==> ((a >> i) & 1u8 == 1u8 || (b >> i) & 1u8
            == 1u8),
        (((!a) >> i) & 1u8 == 1u8) <==> !((a >> i) & 1u8 == 1u8),
{
}

proof fn lemma_u8_shifts(a: u8, n: u8, i: u8)
    by (bit_vector)
    requires
        n < 8,
        i < 8,
    ensures
        (((a << n) >> i) & 1u8 == 1u8) <==> (i >= n && (a >> ((i - n) as u8)) & 1u8
            == 1u8),
        (((a >> n) >> i) & 1u8 == 1u8) <==> (i + n < 8 && (a >> ((i + n) as u8))
            & 1u8 == 1u8),
{
}

proof fn lemma_u8_suffix_step(a: u8, b: u8, k: u8)
    by (bit_vector)
    requires
        k < 8,
        k == 7 || a >> ((k + 1) as u8) == b >> ((k + 1) as u8),
        ((a >> k) & 1u8 == 1u8) <==> ((b >> k) & 1u8 == 1u8),
    ensures
        a >> k == b >> k,
        k == 0 ==> a == b,
{
}

/// Two `u8` that agree on every bit from `k` up agree after a shift down by
/// `k`; with `k == 0`, they are the same.
proof fn lemma_u8_same_suffix(a: u8, b: u8, k: nat)
    requires
        k < 8,
        forall|i: int| k <= i < 8 ==> a.bit(i) == b.bit(i),
    ensures
        a >> (k as u8) == b >> (k as u8),
        k == 0 ==> a == b,
    decreases 8 - k,
{
    if k < 7 {
        lemma_u8_same_suffix(a, b, k + 1);
    }
    assert(a.bit(k as int) == b.bit(k as int));
    lemma_u8_suffix_step(a, b, k as u8);
}

proof fn lemma_u8_halves(a: u8, k: u8)
    by (bit_vector)
    requires
        k < 8,
    ensures
        k < 7 ==> a >> k == (if (a >> k) & 1u8 == 1u8 {
            1u8
        } else {
            0u8
        }) + 2 * (a >> ((k + 1) as u8)),
        k == 7 ==> a >> k == (if (a >> k) & 1u8 == 1u8 {
            1u8
        } else {
            0u8
        }),
        k == 0 ==> a >> k == a,
{
}

/// The bits of a `u8` from `k` up stand for the `u8` shifted down by `k`.
proof fn lemma_u8_value_suffix(a: u8, k: nat)
    requires
        k < 8,
    ensures
        bits_value(Seq::new(8, |i: int| a.bit(i)).skip(k as int)) == a >> (
        k as u8),
    decreases 8 - k,
{
    let bits = Seq::new(8, |i: int| a.bit(i));
    let rest = bits.skip(k as int);
    assert(rest[0] == a.bit(k as int));
    lemma_u8_halves(a, k as u8);
    if k < 7 {
        lemma_u8_value_suffix(a, k + 1);
        assert(rest.skip(1) =~= bits.skip((k + 1) as int));
    } else {
        assert(rest.skip(1) =~= Seq::<bool>::empty());
        assert(bits_value(rest.skip(1)) == 0);
    }
}

impl BlockType for u8 {
    open spec fn width() -> nat {
        8
    }

    open spec fn bit(self, index: int) -> bool {
        0 <= index < 8 && (self >> (index as u8)) & 1u8 == 1u8
    }

    open spec fn value(self) -> nat {
        self as nat
    }

    proof fn lemma_width() {
    }

    proof fn lemma_bits_injective(a: Self, b: Self) {
        lemma_u8_same_suffix(a, b, 0);
    }

    proof fn lemma_value(self) {
        let bits = Seq::new(8, |i: int| self.bit(i));
        lemma_u8_value_suffix(self, 0);
        lemma_u8_halves(self, 0);
        assert(bits.skip(0) =~= bits);
    }

    proof fn lemma_value_injective(a: Self, b: Self) {
    }

    fn nbits() -> (n: usize) {
        8
    }

    fn zero() -> (block: Self) {
        proof {
            lemma_u8_constants();
            assert forall|i: int| 0 <= i < 8 implies !#[trigger] 0u8.bit(i) by {
                assert((0u8 >> (i as u8)) & 1u8 != 1u8);
            }
        }
        0
    }

    fn one() -> (block: Self) {
        proof {
            lemma_u8_constants();
            assert forall|i: int| 0 <= i < 8 implies #[trigger] 1u8.bit(i) == (i
                == 0) by {
                assert(((1u8 >> (i as u8)) & 1u8 == 1u8) <==> (i as u8) == 0);
            }
        }
        1
    }

    fn bit_and(self, other: Self) -> (block: Self) {
        proof {
            assert forall|i: int| 0 <= i < 8 implies #[trigger] (self & other).bit(i) == (
            self.bit(i) && other.bit(i)) by {
                lemma_u8_logic(self, other, i as u8);
            }
        }
        self & other
    }

    fn bit_or(self, other: Self) -> (block: Self) {
        proof {
            assert forall|i: int| 0 <= i < 8 implies #[trigger] (self | other).bit(i) == (
            self.bit(i) || other.bit(i)) by {
                lemma_u8_logic(self, other, i as u8);
            }
        }
        self | other
    }

    fn bit_not(self) -> (block: Self) {
        proof {
            assert forall|i: int| 0 <= i < 8 implies #[trigger] (!self).bit(i)
                == !self.bit(i) by {
                lemma_u8_logic(self, self, i as u8);
            }
        }
        !self
    }

    fn shl(self, count: usize) -> (block: Self) {
        let n: u8 = count as u8;
        proof {
            assert forall|i: int| 0 <= i < 8 implies #[trigger] (self << n).bit(i) == (i
                >= count && self.bit(i - count)) by {
                lemma_u8_shifts(self, n, i as u8);
            }
        }
        self << n
    }

    fn shr(self, count: usize) -> (block: Self) {
        let n: u8 = count as u8;
        proof {
            assert forall|i: int| 0 <= i < 8 implies #[trigger] (self >> n).bit(i) == (i
                + count < 8 && self.bit(i + count)) by {
                lemma_u8_shifts(self, n, i as u8);
            }
        }
        self >> n
    }

    fn block_eq(self, other: Self) -> (same: bool) {
        self == other
    }

    fn block_lt(self, other: Self) -> (below: bool) {
        self < other
    }
}

proof fn lemma_u16_constants()
    by (bit_vector)
    ensures
        forall|i: u16| i < 16 ==> (0u16 >> i) & 1u16 != 1u16,
        forall|i: u16| i < 16 ==> (((1u16 >> i) & 1u16 == 1u16) <==> i == 0),
{
}

proof fn lemma_u16_logic(a: u16, b: u16, i: u16)
    by (bit_vector)
    requires
        i < 16,
    ensures
        (((a & b) >> i) & 1u16 == 1u16) <==> ((a >> i) & 1u16 == 1u16 && (b >> i) & 1u16
            == 1u16),
        (((a | b) >> i) & 1u16 == 1u16) <==> ((a >> i) & 1u16 == 1u16 || (b >> i) & 1u16
            == 1u16),
        (((!a) >> i) & 1u16 == 1u16) <==> !((a >> i) & 1u16 == 1u16),
{
}

proof fn lemma_u16_shifts(a: u16, n: u16, i: u16)
    by (bit_vector)
    requires
        n < 16,
        i < 16,
    ensures
        (((a << n) >> i) & 1u16 == 1u16) <==> (i >= n && (a >> ((i - n) as u16)) & 1u16
            == 1u16),
        (((a >> n) >> i) & 1u16 == 1u16) <==> (i + n < 16 && (a >> ((i + n) as u16))
            & 1u16 == 1u16),
{
}

proof fn lemma_u16_suffix_step(a: u16, b: u16, k: u16)
    by (bit_vector)
    requires
        k < 16,
        k == 15 || a >> ((k + 1) as u16) == b >> ((k + 1) as u16),
        ((a >> k) & 1u16 == 1u16) <==> ((b >> k) & 1u16 == 1u16),
    ensures
        a >> k == b >> k,
        k == 0 ==> a == b,
{
}

/// Two `u16` that agree on every bit from `k` up agree after a shift down by
/// `k`; with `k == 0`, they are the same.
proof fn lemma_u16_same_suffix(a: u16, b: u16, k: nat)
    requires
        k < 16,
        forall|i: int| k <= i < 16 ==> a.bit(i) == b.bit(i),
    ensures
        a >> (k as u16) == b >> (k as u16),
        k == 0 ==> a == b,
    decreases 16 - k,
{
    if k < 15 {
        lemma_u16_same_suffix(a, b, k + 1);
    }
    assert(a.bit(k as int) == b.bit(k as int));
    lemma_u16_suffix_step(a, b, k as u16);
}

proof fn lemma_u16_halves(a: u16, k: u16)
    by (bit_vector)
    requires
        k < 16,
    ensures
        k < 15 ==> a >> k == (if (a >> k) & 1u16 == 1u16 {
            1u16
        } else {
            0u16
        }) + 2 * (a >> ((k + 1) as u16)),
        k == 15 ==> a >> k == (if (a >> k) & 1u16 == 1u16 {
            1u16
        } else {
            0u16
        }),
        k == 0 ==> a >> k == a,
{
}

/// The bits of a `u16` from `k` up stand for the `u16` shifted down by `k`.
proof fn lemma_u16_value_suffix(a: u16, k: nat)
    requires
        k < 16,
    ensures
        bits_value(Seq::new(16, |i: int| a.bit(i)).skip(k as int)) == a >> (
        k as u16),
    decreases 16 - k,
{
    let bits = Seq::new(16, |i: int| a.bit(i));
    let rest = bits.skip(k as int);
    assert(rest[0] == a.bit(k as int));
    lemma_u16_halves(a, k as u16);
    if k < 15 {
        lemma_u16_value_suffix(a, k + 1);
        assert(rest.skip(1) =~= bits.skip((k + 1) as int));
    } else {
        assert(rest.skip(1) =~= Seq::<bool>::empty());
        assert(bits_value(rest.skip(1)) == 0);
    }
}

impl BlockType for u16 {
    open spec fn width() -> nat {
        16
    }

    open spec fn bit(self, index: int) -> bool {
        0 <= index < 16 && (self >> (index as u16)) & 1u16 == 1u16
    }

    open spec fn value(self) -> nat {
        self as nat
    }

    proof fn lemma_width() {
    }

    proof fn lemma_bits_injective(a: Self, b: Self) {
        lemma_u16_same_suffix(a, b, 0);
    }

    proof fn lemma_value(self) {
        let bits = Seq::new(16, |i: int| self.bit(i));
        lemma_u16_value_suffix(self, 0);
        lemma_u16_halves(self, 0);
        assert(bits.skip(0) =~= bits);
    }

    proof fn lemma_value_injective(a: Self, b: Self) {
    }

    fn nbits() -> (n: usize) {
        16
    }

    fn zero() -> (block: Self) {
        proof {
            lemma_u16_constants();
            assert forall|i: int| 0 <= i < 16 implies !#[trigger] 0u16.bit(i) by {
                assert((0u16 >> (i as u16)) & 1u16 != 1u16);
            }
        }
        0
    }

    fn one() -> (block: Self) {
        proof {
            lemma_u16_constants();
            assert forall|i: int| 0 <= i < 16 implies #[trigger] 1u16.bit(i) == (i
                == 0) by {
                assert(((1u16 >> (i as u16)) & 1u16 == 1u16) <==> (i as u16) == 0);
            }
        }
        1
    }

    fn bit_and(self, other: Self) -> (block: Self) {
        proof {
            assert forall|i: int| 0 <= i < 16 implies #[trigger] (self & other).bit(i) == (
            self.bit(i) && other.bit(i)) by {
                lemma_u16_logic(self, other, i as u16);
            }
        }
        self & other
    }

    fn bit_or(self, other: Self) -> (block: Self) {
        proof {
            assert forall|i: int| 0 <= i < 16 implies #[trigger] (self | other).bit(i) == (
            self.bit(i) || other.bit(i)) by {
                lemma_u16_logic(self, other, i as u16);
            }
        }
        self | other
    }

    fn bit_not(self) -> (block: Self) {
        proof {
            assert forall|i: int| 0 <= i < 16 implies #[trigger] (!self).bit(i)
                == !self.bit(i) by {
                lemma_u16_logic(self, self, i as u16);
            }
        }
        !self
    }

    fn shl(self, count: usize) -> (block: Self) {
        let n: u16 = count as u16;
        proof {
            assert forall|i: int| 0 <= i < 16 implies #[trigger] (self << n).bit(i) == (i
                >= count && self.bit(i - count)) by {
                lemma_u16_shifts(self, n, i as u16);
            }
        }
        self << n
    }

    fn shr(self, count: usize) -> (block: Self) {
        let n: u16 = count as u16;
        proof {
            assert forall|i: int| 0 <= i < 16 implies #[trigger] (self >> n).bit(i) == (i
                + count < 16 && self.bit(i + count)) by {
                lemma_u16_shifts(self, n, i as u16);
            }
        }
        self >> n
    }

    fn block_eq(self, other: Self) -> (same: bool) {
        self == other
    }

    fn block_lt(self, other: Self) -> (below: bool) {
        self < other
    }
}

proof fn lemma_u32_constants()
    by (bit_vector)
    ensures
        forall|i: u32| i < 32 ==> (0u32 >> i) & 1u32 != 1u32,
        forall|i: u32| i < 32 ==> (((1u32 >> i) & 1u32 == 1u32) <==> i == 0),
{
}

proof fn lemma_u32_logic(a: u32, b: u32, i: u32)
    by (bit_vector)
    requires
        i < 32,
    ensures
        (((a & b) >> i) & 1u32 == 1u32) <==> ((a >> i) & 1u32 == 1u32 && (b >> i) & 1u32
            == 1u32),
        (((a | b) >> i) & 1u32 == 1u32) <==> ((a >> i) & 1u32 == 1u32 || (b >> i) & 1u32
            == 1u32),
        (((!a) >> i) & 1u32 == 1u32) <==> !((a >> i) & 1u32 == 1u32),
{
}

proof fn lemma_u32_shifts(a: u32, n: u32, i: u32)
    by (bit_vector)
    requires
        n < 32,
        i < 32,
    ensures
        (((a << n) >> i) & 1u32 == 1u32) <==> (i >= n && (a >> ((i - n) as u32)) & 1u32
            == 1u32),
        (((a >> n) >> i) & 1u32 == 1u32) <==> (i + n < 32 && (a >> ((i + n) as u32))
            & 1u32 == 1u32),
{
}

proof fn lemma_u32_suffix_step(a: u32, b: u32, k: u32)
    by (bit_vector)
    requires
        k < 32,
        k == 31 || a >> ((k + 1) as u32) == b >> ((k + 1) as u32),
        ((a >> k) & 1u32 == 1u32) <==> ((b >> k) & 1u32 == 1u32),
    ensures
        a >> k == b >> k,
        k == 0 ==> a == b,
{
}

/// Two `u32` that agree on every bit from `k` up agree after a shift down by
/// `k`; with `k == 0`, they are the same.
proof fn lemma_u32_same_suffix(a: u32, b: u32, k: nat)
    requires
        k < 32,
        forall|i: int| k <= i < 32 ==> a.bit(i) == b.bit(i),
    ensures
        a >> (k as u32) == b >> (k as u32),
        k == 0 ==> a == b,
    decreases 32 - k,
{
    if k < 31 {
        lemma_u32_same_suffix(a, b, k + 1);
    }
    assert(a.bit(k as int) == b.bit(k as int));
    lemma_u32_suffix_step(a, b, k as u32);
}

proof fn lemma_u32_halves(a: u32, k: u32)
    by (bit_vector)
    requires
        k < 32,
    ensures
        k < 31 ==> a >> k == (if (a >> k) & 1u32 == 1u32 {
            1u32
        } else {
            0u32
        }) + 2 * (a >> ((k + 1) as u32)),
        k == 31 ==> a >> k == (if (a >> k) & 1u32 == 1u32 {
            1u32
        } else {
            0u32
        }),
        k == 0 ==> a >> k == a,
{
}

/// The bits of a `u32` from `k` up stand for the `u32` shifted down by `k`.
proof fn lemma_u32_value_suffix(a: u32, k: nat)
    requires
        k < 32,
    ensures
        bits_value(Seq::new(32, |i: int| a.bit(i)).skip(k as int)) == a >> (
        k as u32),
    decreases 32 - k,
{
    let bits = Seq::new(32, |i: int| a.bit(i));
    let rest = bits.skip(k as int);
    assert(rest[0] == a.bit(k as int));
    lemma_u32_halves(a, k as u32);
    if k < 31 {
        lemma_u32_value_suffix(a, k + 1);
        assert(rest.skip(1) =~= bits.skip((k + 1) as int));
    } else {
        assert(rest.skip(1) =~= Seq::<bool>::empty());
        assert(bits_value(rest.skip(1)) == 0);
    }
}

impl BlockType for u32 {
    open spec fn width() -> nat {
        32
    }

    open spec fn bit(self, index: int) -> bool {
        0 <= index < 32 && (self >> (index as u32)) & 1u32 == 1u32
    }

    open spec fn value(self) -> nat {
        self as nat
    }

    proof fn lemma_width() {
    }

    proof fn lemma_bits_injective(a: Self, b: Self) {
        lemma_u32_same_suffix(a, b, 0);
    }

    proof fn lemma_value(self) {
        let bits = Seq::new(32, |i: int| self.bit(i));
        lemma_u32_value_suffix(self, 0);
        lemma_u32_halves(self, 0);
        assert(bits.skip(0) =~= bits);
    }

    proof fn lemma_value_injective(a: Self, b: Self) {
    }

    fn nbits() -> (n: usize) {
        32
    }

    fn zero() -> (block: Self) {
        proof {
            lemma_u32_constants();
            assert forall|i: int| 0 <= i < 32 implies !#[trigger] 0u32.bit(i) by {
                assert((0u32 >> (i as u32)) & 1u32 != 1u32);
            }
        }
        0
    }

    fn one() -> (block: Self) {
        proof {
            lemma_u32_constants();
            assert forall|i: int| 0 <= i < 32 implies #[trigger] 1u32.bit(i) == (i
                == 0) by {
                assert(((1u32 >> (i as u32)) & 1u32 == 1u32) <==> (i as u32) == 0);
            }
        }
        1
    }

    fn bit_and(self, other: Self) -> (block: Self) {
        proof {
            assert forall|i: int| 0 <= i < 32 implies #[trigger] (self & other).bit(i) == (
            self.bit(i) && other.bit(i)) by {
                lemma_u32_logic(self, other, i as u32);
            }
        }
        self & other
    }

    fn bit_or(self, other: Self) -> (block: Self) {
        proof {
            assert forall|i: int| 0 <= i < 32 implies #[trigger] (self | other).bit(i) == (
            self.bit(i) || other.bit(i)) by {
                lemma_u32_logic(self, other, i as u32);
            }
        }
        self | other
    }

    fn bit_not(self) -> (block: Self) {
        proof {
            assert forall|i: int| 0 <= i < 32 implies #[trigger] (!self).bit(i)
                == !self.bit(i) by {
                lemma_u32_logic(self, self, i as u32);
            }
        }
        !self
    }

    fn shl(self, count: usize) -> (block: Self) {
        let n: u32 = count as u32;
        proof {
            assert forall|i: int| 0 <= i < 32 implies #[trigger] (self << n).bit(i) == (i
                >= count && self.bit(i - count)) by {
                lemma_u32_shifts(self, n, i as u32);
            }
        }
        self << n
    }

    fn shr(self, count: usize) -> (block: Self) {
        let n: u32 = count as u32;
        proof {
            assert forall|i: int| 0 <= i < 32 implies #[trigger] (self >> n).bit(i) == (i
                + count < 32 && self.bit(i + count)) by {
                lemma_u32_shifts(self, n, i as u32);
            }
        }
        self >> n
    }

    fn block_eq(self, other: Self) -> (same: bool) {
        self == other
    }

    fn block_lt(self, other: Self) -> (below: bool) {
        self < other
    }
}

proof fn lemma_u64_constants()
    by (bit_vector)
    ensures
        forall|i: u64| i < 64 ==> (0u64 >> i) & 1u64 != 1u64,
        forall|i: u64| i < 64 ==> (((1u64 >> i) & 1u64 == 1u64) <==> i == 0),
{
}

proof fn lemma_u64_logic(a: u64, b: u64, i: u64)
    by (bit_vector)
    requires
        i < 64,
    ensures
        (((a & b) >> i) & 1u64 == 1u64) <==> ((a >> i) & 1u64 == 1u64 && (b >> i) & 1u64
            == 1u64),
        (((a | b) >> i) & 1u64 == 1u64) <==> ((a >> i) & 1u64 == 1u64 || (b >> i) & 1u64
            == 1u64),
        (((!a) >> i) & 1u64 == 1u64) <==> !((a >> i) & 1u64 == 1u64),
{
}

proof fn lemma_u64_shifts(a: u64, n: u64, i: u64)
    by (bit_vector)
    requires
        n < 64,
        i < 64,
    ensures
        (((a << n) >> i) & 1u64 == 1u64) <==> (i >= n && (a >> ((i - n) as u64)) & 1u64
            == 1u64),
        (((a >> n) >> i) & 1u64 == 1u64) <==> (i + n < 64 && (a >> ((i + n) as u64))
            & 1u64 == 1u64),
{
}

proof fn lemma_u64_suffix_step(a: u64, b: u64, k: u64)
    by (bit_vector)
    requires
        k < 64,
        k == 63 || a >> ((k + 1) as u64) == b >> ((k + 1) as u64),
        ((a >> k) & 1u64 == 1u64) <==> ((b >> k) & 1u64 == 1u64),
    ensures
        a >> k == b >> k,
        k == 0 ==> a == b,
{
}

/// Two `u64` that agree on every bit from `k` up agree after a shift down by
/// `k`; with `k == 0`, they are the same.
proof fn lemma_u64_same_suffix(a: u64, b: u64, k: nat)
    requires
        k < 64,
        forall|i: int| k <= i < 64 ==> a.bit(i) == b.bit(i),
    ensures
        a >> (k as u64) == b >> (k as u64),
        k == 0 ==> a == b,
    decreases 64 - k,
{
    if k < 63 {
        lemma_u64_same_suffix(a, b, k + 1);
    }
    assert(a.bit(k as int) == b.bit(k as int));
    lemma_u64_suffix_step(a, b, k as u64);
}

proof fn lemma_u64_halves(a: u64, k: u64)
    by (bit_vector)
    requires
        k < 64,
    ensures
        k < 63 ==> a >> k == (if (a >> k) & 1u64 == 1u64 {
            1u64
        } else {
            0u64
        }) + 2 * (a >> ((k + 1) as u64)),
        k == 63 ==> a >> k == (if (a >> k) & 1u64 == 1u64 {
            1u64
        } else {
            0u64
        }),
        k == 0 ==> a >> k == a,
{
}

/// The bits of a `u64` from `k` up stand for the `u64` shifted down by `k`.
proof fn lemma_u64_value_suffix(a: u64, k: nat)
    requires
        k < 64,
    ensures
        bits_value(Seq::new(64, |i: int| a.bit(i)).skip(k as int)) == a >> (
        k as u64),
    decreases 64 - k,
{
    let bits = Seq::new(64, |i: int| a.bit(i));
    let rest = bits.skip(k as int);
    assert(rest[0] == a.bit(k as int));
    lemma_u64_halves(a, k as u64);
    if k < 63 {
        lemma_u64_value_suffix(a, k + 1);
        assert(rest.skip(1) =~= bits.skip((k + 1) as int));
    } else {
        assert(rest.skip(1) =~= Seq::<bool>::empty());
        assert(bits_value(rest.skip(1)) == 0);
    }
}

impl BlockType for u64 {
    open spec fn width() -> nat {
        64
    }

    open spec fn bit(self, index: int) -> bool {
        0 <= index < 64 && (self >> (index as u64)) & 1u64 == 1u64
    }

    open spec fn value(self) -> nat {
        self as nat
    }

    proof fn lemma_width() {
    }

    proof fn lemma_bits_injective(a: Self, b: Self) {
        lemma_u64_same_suffix(a, b, 0);
    }

    proof fn lemma_value(self) {
        let bits = Seq::new(64, |i: int| self.bit(i));
        lemma_u64_value_suffix(self, 0);
        lemma_u64_halves(self, 0);
        assert(bits.skip(0) =~= bits);
    }

    proof fn lemma_value_injective(a: Self, b: Self) {
    }

    fn nbits() -> (n: usize) {
        64
    }

    fn zero() -> (block: Self) {
        proof {
            lemma_u64_constants();
            assert forall|i: int| 0 <= i < 64 implies !#[trigger] 0u64.bit(i) by {
                assert((0u64 >> (i as u64)) & 1u64 != 1u64);
            }
        }
        0
    }

    fn one() -> (block: Self) {
        proof {
            lemma_u64_constants();
            assert forall|i: int| 0 <= i < 64 implies #[trigger] 1u64.bit(i) == (i
                == 0) by {
                assert(((1u64 >> (i as u64)) & 1u64 == 1u64) <==> (i as u64) == 0);
            }
        }
        1
    }

    fn bit_and(self, other: Self) -> (block: Self) {
        proof {
            assert forall|i: int| 0 <= i < 64 implies #[trigger] (self & other).bit(i) == (
            self.bit(i) && other.bit(i)) by {
                lemma_u64_logic(self, other, i as u64);
            }
        }
        self & other
    }

    fn bit_or(self, other: Self) -> (block: Self) {
        proof {
            assert forall|i: int| 0 <= i < 64 implies #[trigger] (self | other).bit(i) == (
            self.bit(i) || other.bit(i)) by {
                lemma_u64_logic(self, other, i as u64);
            }
        }
        self | other
    }

    fn bit_not(self) -> (block: Self) {
        proof {
            assert forall|i: int| 0 <= i < 64 implies #[trigger] (!self).bit(i)
                == !self.bit(i) by {
                lemma_u64_logic(self, self, i as u64);
            }
        }
        !self
    }

    fn shl(self, count: usize) -> (block: Self) {
        let n: u64 = count as u64;
        proof {
            assert forall|i: int| 0 <= i < 64 implies #[trigger] (self << n).bit(i) == (i
                >= count && self.bit(i - count)) by {
                lemma_u64_shifts(self, n, i as u64);
            }
        }
        self << n
    }

    fn shr(self, count: usize) -> (block: Self) {
        let n: u64 = count as u64;
        proof {
            assert forall|i: int| 0 <= i < 64 implies #[trigger] (self >> n).bit(i) == (i
                + count < 64 && self.bit(i + count)) by {
                lemma_u64_shifts(self, n, i as u64);
            }
        }
        self >> n
    }

    fn block_eq(self, other: Self) -> (same: bool) {
        self == other
    }

    fn block_lt(self, other: Self) -> (below: bool) {
        self < other
    }
}

proof fn lemma_u128_constants()
    by (bit_vector)
    ensures
        forall|i: u128| i < 128 ==> (0u128 >> i) & 1u128 != 1u128,
        forall|i: u128| i < 128 ==> (((1u128 >> i) & 1u128 == 1u128) <==> i == 0),
{
}

proof fn lemma_u128_logic(a: u128, b: u128, i: u128)
    by (bit_vector)
    requires
        i < 128,
    ensures
        (((a & b) >> i) & 1u128 == 1u128) <==> ((a >> i) & 1u128 == 1u128 && (b >> i) & 1u128
            == 1u128),
        (((a | b) >> i) & 1u128 == 1u128) <==> ((a >> i) & 1u128 == 1u128 || (b >> i) & 1u128
            == 1u128),
        (((!a) >> i) & 1u128 == 1u128) <==> !((a >> i) & 1u128 == 1u128),
{
}

proof fn lemma_u128_shifts(a: u128, n: u128, i: u128)
    by (bit_vector)
    requires
        n < 128,
        i < 128,
    ensures
        (((a << n) >> i) & 1u128 == 1u128) <==> (i >= n && (a >> ((i - n) as u128)) & 1u128
            == 1u128),
        (((a >> n) >> i) & 1u128 == 1u128) <==> (i + n < 128 && (a >> ((i + n) as u128))
            & 1u128 == 1u128),
{
}

proof fn lemma_u128_suffix_step(a: u128, b: u128, k: u128)
    by (bit_vector)
    requires
        k < 128,
        k == 127 || a >> ((k + 1) as u128) == b >> ((k + 1) as u128),
        ((a >> k) & 1u128 == 1u128) <==> ((b >> k) & 1u128 == 1u128),
    ensures
        a >> k == b >> k,
        k == 0 ==> a == b,
{
}

/// Two `u128` that agree on every bit from `k` up agree after a shift down by
/// `k`; with `k == 0`, they are the same.
proof fn lemma_u128_same_suffix(a: u128, b: u128, k: nat)
    requires
        k < 128,
        forall|i: int| k <= i < 128 ==> a.bit(i) == b.bit(i),
    ensures
        a >> (k as u128) == b >> (k as u128),
        k == 0 ==> a == b,
    decreases 128 - k,
{
    if k < 127 {
        lemma_u128_same_suffix(a, b, k + 1);
    }
    assert(a.bit(k as int) == b.bit(k as int));
    lemma_u128_suffix_step(a, b, k as u128);
}

proof fn lemma_u128_halves(a: u128, k: u128)
    by (bit_vector)
    requires
        k < 128,
    ensures
        k < 127 ==> a >> k == (if (a >> k) & 1u128 == 1u128 {
            1u128
        } else {
            0u128
        }) + 2 * (a >> ((k + 1) as u128)),
        k == 127 ==> a >> k == (if (a >> k) & 1u128 == 1u128 {
            1u128
        } else {
            0u128
        }),
        k == 0 ==> a >> k == a,
{
}

/// The bits of a `u128` from `k` up stand for the `u128` shifted down by `k`.
proof fn lemma_u128_value_suffix(a: u128, k: nat)
    requires
        k < 128,
    ensures
        bits_value(Seq::new(128, |i: int| a.bit(i)).skip(k as int)) == a >> (
        k as u128),
    decreases 128 - k,
{
    let bits = Seq::new(128, |i: int| a.bit(i));
    let rest = bits.skip(k as int);
    assert(rest[0] == a.bit(k as int));
    lemma_u128_halves(a, k as u128);
    if k < 127 {
        lemma_u128_value_suffix(a, k + 1);
        assert(rest.skip(1) =~= bits.skip((k + 1) as int));
    } else {
        assert(rest.skip(1) =~= Seq::<bool>::empty());
        assert(bits_value(rest.skip(1)) == 0);
    }
}

impl BlockType for u128 {
    open spec fn width() -> nat {
        128
    }

    open spec fn bit(self, index: int) -> bool {
        0 <= index < 128 && (self >> (index as u128)) & 1u128 == 1u128
    }

    open spec fn value(self) -> nat {
        self as nat
    }

    proof fn lemma_width() {
    }

    proof fn lemma_bits_injective(a: Self, b: Self) {
        lemma_u128_same_suffix(a, b, 0);
    }

    proof fn lemma_value(self) {
        let bits = Seq::new(128, |i: int| self.bit(i));
        lemma_u128_value_suffix(self, 0);
        lemma_u128_halves(self, 0);
        assert(bits.skip(0) =~= bits);
    }

    proof fn lemma_value_injective(a: Self, b: Self) {
    }

    fn nbits() -> (n: usize) {
        128
    }

    fn zero() -> (block: Self) {
        proof {
            lemma_u128_constants();
            assert forall|i: int| 0 <= i < 128 implies !#[trigger] 0u128.bit(i) by {
                assert((0u128 >> (i as u128)) & 1u128 != 1u128);
            }
        }
        0
    }

    fn one() -> (block: Self) {
        proof {
            lemma_u128_constants();
            assert forall|i: int| 0 <= i < 128 implies #[trigger] 1u128.bit(i) == (i
                == 0) by {
                assert(((1u128 >> (i as u128)) & 1u128 == 1u128) <==> (i as u128) == 0);
            }
        }
        1
    }

    fn bit_and(self, other: Self) -> (block: Self) {
        proof {
            assert forall|i: int| 0 <= i < 128 implies #[trigger] (self & other).bit(i) == (
            self.bit(i) && other.bit(i)) by {
                lemma_u128_logic(self, other, i as u128);
            }
        }
        self & other
    }

    fn bit_or(self, other: Self) -> (block: Self) {
        proof {
            assert forall|i: int| 0 <= i < 128 implies #[trigger] (self | other).bit(i) == (
            self.bit(i) || other.bit(i)) by {
                lemma_u128_logic(self, other, i as u128);
            }
        }
        self | other
    }

    fn bit_not(self) -> (block: Self) {
        proof {
            assert forall|i: int| 0 <= i < 128 implies #[trigger] (!self).bit(i)
                == !self.bit(i) by {
                lemma_u128_logic(self, self, i as u128);
            }
        }
        !self
    }

    fn shl(self, count: usize) -> (block: Self) {
        let n: u128 = count as u128;
        proof {
            assert forall|i: int| 0 <= i < 128 implies #[trigger] (self << n).bit(i) == (i
                >= count && self.bit(i - count)) by {
                lemma_u128_shifts(self, n, i as u128);
            }
        }
        self << n
    }

    fn shr(self, count: usize) -> (block: Self) {
        let n: u128 = count as u128;
        proof {
            assert forall|i: int| 0 <= i < 128 implies #[trigger] (self >> n).bit(i) == (i
                + count < 128 && self.bit(i + count)) by {
                lemma_u128_shifts(self, n, i as u128);
            }
        }
        self >> n
    }

    fn block_eq(self, other: Self) -> (same: bool) {
        self == other
    }

    fn block_lt(self, other: Self) -> (below: bool) {
        self < other
    }
}

proof fn lemma_usize_constants()
    by (bit_vector)
    ensures
        forall|i: usize| i < usize::BITS ==> (0usize >> i) & 1usize != 1usize,
        forall|i: usize| i < usize::BITS ==> (((1usize >> i) & 1usize == 1usize) <==> i == 0),
{
}

proof fn lemma_usize_logic(a: usize, b: usize, i: usize)
    by (bit_vector)
    requires
        i < usize::BITS,
    ensures
        (((a & b) >> i) & 1usize == 1usize) <==> ((a >> i) & 1usize == 1usize && (b >> i) & 1usize
            == 1usize),
        (((a | b) >> i) & 1usize == 1usize) <==> ((a >> i) & 1usize == 1usize || (b >> i) & 1usize
            == 1usize),
        (((!a) >> i) & 1usize == 1usize) <==> !((a >> i) & 1usize == 1usize),
{
}

proof fn lemma_usize_shifts(a: usize, n: usize, i: usize)
    by (bit_vector)
    requires
        n < usize::BITS,
        i < usize::BITS,
    ensures
        (((a << n) >> i) & 1usize == 1usize) <==> (i >= n && (a >> ((i - n) as usize)) & 1usize
            == 1usize),
        (((a >> n) >> i) & 1usize == 1usize) <==> (i + n < usize::BITS && (a >> ((i + n) as usize))
            & 1usize == 1usize),
{
}

proof fn lemma_usize_suffix_step(a: usize, b: usize, k: usize)
    by (bit_vector)
    requires
        k < usize::BITS,
        k == usize::BITS - 1 || a >> ((k + 1) as usize) == b >> ((k + 1) as usize),
        ((a >> k) & 1usize == 1usize) <==> ((b >> k) & 1usize == 1usize),
    ensures
        a >> k == b >> k,
        k == 0 ==> a == b,
{
}

/// Two `usize` that agree on every bit from `k` up agree after a shift down by
/// `k`; with `k == 0`, they are the same.
proof fn lemma_usize_same_suffix(a: usize, b: usize, k: nat)
    requires
        k < usize::BITS,
        forall|i: int| k <= i < usize::BITS ==> a.bit(i) == b.bit(i),
    ensures
        a >> (k as usize) == b >> (k as usize),
        k == 0 ==> a == b,
    decreases usize::BITS - k,
{
    if k < usize::BITS - 1 {
        lemma_usize_same_suffix(a, b, k + 1);
    }
    assert(a.bit(k as int) == b.bit(k as int));
    lemma_usize_suffix_step(a, b, k as usize);
}

proof fn lemma_usize_halves(a: usize, k: usize)
    by (bit_vector)
    requires
        k < usize::BITS,
    ensures
        k < usize::BITS - 1 ==> a >> k == (if (a >> k) & 1usize == 1usize {
            1usize
        } else {
            0usize
        }) + 2 * (a >> ((k + 1) as usize)),
        k == usize::BITS - 1 ==> a >> k == (if (a >> k) & 1usize == 1usize {
            1usize
        } else {
            0usize
        }),
        k == 0 ==> a >> k == a,
{
}

/// The bits of a `usize` from `k` up stand for the `usize` shifted down by `k`.
proof fn lemma_usize_value_suffix(a: usize, k: nat)
    requires
        k < usize::BITS,
    ensures
        bits_value(Seq::new(usize::BITS as nat, |i: int| a.bit(i)).skip(k as int)) == a >> (
        k as usize),
    decreases usize::BITS - k,
{
    let bits = Seq::new(usize::BITS as nat, |i: int| a.bit(i));
    let rest = bits.skip(k as int);
    assert(rest[0] == a.bit(k as int));
    lemma_usize_halves(a, k as usize);
    if k < usize::BITS - 1 {
        lemma_usize_value_suffix(a, k + 1);
        assert(rest.skip(1) =~= bits.skip((k + 1) as int));
    } else {
        assert(rest.skip(1) =~= Seq::<bool>::empty());
        assert(bits_value(rest.skip(1)) == 0);
    }
}

impl BlockType for usize {
    open spec fn width() -> nat {
        usize::BITS as nat
    }

    open spec fn bit(self, index: int) -> bool {
        0 <= index < usize::BITS && (self >> (index as usize)) & 1usize == 1usize
    }

    open spec fn value(self) -> nat {
        self as nat
    }

    proof fn lemma_width() {
    }

    proof fn lemma_bits_injective(a: Self, b: Self) {
        lemma_usize_same_suffix(a, b, 0);
    }

    proof fn lemma_value(self) {
        let bits = Seq::new(usize::BITS as nat, |i: int| self.bit(i));
        lemma_usize_value_suffix(self, 0);
        lemma_usize_halves(self, 0);
        assert(bits.skip(0) =~= bits);
    }

    proof fn lemma_value_injective(a: Self, b: Self) {
    }

    fn nbits() -> (n: usize) {
        usize::BITS as usize
    }

    fn zero() -> (block: Self) {
        proof {
            lemma_usize_constants();
            assert forall|i: int| 0 <= i < usize::BITS implies !#[trigger] 0usize.bit(i) by {
                assert((0usize >> (i as usize)) & 1usize != 1usize);
            }
        }
        0
    }

    fn one() -> (block: Self) {
        proof {
            lemma_usize_constants();
            assert forall|i: int| 0 <= i < usize::BITS implies #[trigger] 1usize.bit(i) == (i
                == 0) by {
                assert(((1usize >> (i as usize)) & 1usize == 1usize) <==> (i as usize) == 0);
            }
        }
        1
    }

    fn bit_and(self, other: Self) -> (block: Self) {
        proof {
            assert forall|i: int| 0 <= i < usize::BITS implies #[trigger] (self & other).bit(i) == (
            self.bit(i) && other.bit(i)) by {
                lemma_usize_logic(self, other, i as usize);
            }
        }
        self & other
    }

    fn bit_or(self, other: Self) -> (block: Self) {
        proof {
            assert forall|i: int| 0 <= i < usize::BITS implies #[trigger] (self | other).bit(i) == (
            self.bit(i) || other.bit(i)) by {
                lemma_usize_logic(self, other, i as usize);
            }
        }
        self | other
    }

    fn bit_not(self) -> (block: Self) {
        proof {
            assert forall|i: int| 0 <= i < usize::BITS implies #[trigger] (!self).bit(i)
                == !self.bit(i) by {
                lemma_usize_logic(self, self, i as usize);
            }
        }
        !self
    }

    fn shl(self, count: usize) -> (block: Self) {
        let n: usize = count as usize;
        proof {
            assert forall|i: int| 0 <= i < usize::BITS implies #[trigger] (self << n).bit(i) == (i
                >= count && self.bit(i - count)) by {
                lemma_usize_shifts(self, n, i as usize);
            }
        }
        self << n
    }

    fn shr(self, count: usize) -> (block: Self) {
        let n: usize = count as usize;
        proof {
            assert forall|i: int| 0 <= i < usize::BITS implies #[trigger] (self >> n).bit(i) == (i
                + count < usize::BITS && self.bit(i + count)) by {
                lemma_usize_shifts(self, n, i as usize);
            }
        }
        self >> n
    }

    fn block_eq(self, other: Self) -> (same: bool) {
        self == other
    }

    fn block_lt(self, other: Self) -> (below: bool) {
        self < other
    }
}

} // verus!
