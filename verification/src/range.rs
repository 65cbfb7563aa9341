//! The ranges that a container can be sliced by.

use std::ops::{Range, RangeFrom, RangeFull, RangeInclusive, RangeTo, RangeToInclusive};
use vstd::pervasive::runtime_assert;
use vstd::prelude::*;

verus! {

/// Declares `std::ops::RangeFrom`, the type of `a..`, with its one public
/// field, `start`.
#[verifier::external_type_specification]
#[verifier::reject_recursive_types(Idx)]
pub struct ExRangeFrom<Idx>(RangeFrom<Idx>);

/// Declares `std::ops::RangeTo`, the type of `..b`, with its one public
/// field, `end`.
#[verifier::external_type_specification]
#[verifier::reject_recursive_types(Idx)]
pub struct ExRangeTo<Idx>(RangeTo<Idx>);

/// Declares `std::ops::RangeFull`, the type of `..`, which has no fields.
#[verifier::external_type_specification]
pub struct ExRangeFull(RangeFull);

/// Declares `std::ops::RangeToInclusive`, the type of `..=b`, with its one
/// public field, `end`.
#[verifier::external_type_specification]
#[verifier::reject_recursive_types(Idx)]
pub struct ExRangeToInclusive<Idx>(RangeToInclusive<Idx>);

/// Specifies `RangeInclusive::start`: it gives the lower bound that the range
/// was made with.
pub assume_specification<Idx>[ RangeInclusive::<Idx>::start ](
    range: &RangeInclusive<Idx>,
) -> (start: &Idx)
    ensures
        *start == range@.start,
;

/// Specifies `RangeInclusive::end`: it gives the upper bound that the range
/// was made with.
pub assume_specification<Idx>[ RangeInclusive::<Idx>::end ](
    range: &RangeInclusive<Idx>,
) -> (end: &Idx)
    ensures
        *end == range@.end,
;

/// A range of bit positions, as given to `bit_slice`.
///
/// Whatever its form, a range that selects something from a container of
/// `len` bits stands for a half-open range `low .. high` with
/// `low <= high <= len`.
pub trait BitRange: Sized {
    /// Whether the range lies within a container of `len` bits.
    spec fn within(self, len: nat) -> bool;

    /// The position of the first bit selected.
    spec fn low(self, len: nat) -> nat;

    /// The position after the last bit selected.
    spec fn high(self, len: nat) -> nat;

    /// The half-open range `low .. high` that `self` stands for in a
    /// container of `len` bits.
    fn bounds(self, len: u64) -> (range: Range<u64>)
        requires
            self.within(len as nat),
        ensures
            range.start == self.low(len as nat),
            range.end == self.high(len as nat),
            range.start <= range.end <= len,
    ;
}

impl BitRange for Range<u64> {
    open spec fn within(self, len: nat) -> bool {
        self.start <= self.end <= len
    }

    open spec fn low(self, len: nat) -> nat {
        self.start as nat
    }

    open spec fn high(self, len: nat) -> nat {
        self.end as nat
    }

    fn bounds(self, len: u64) -> (range: Range<u64>) {
        runtime_assert(self.start <= self.end && self.end <= len);
        self
    }
}

impl BitRange for RangeFrom<u64> {
    open spec fn within(self, len: nat) -> bool {
        self.start <= len
    }

    open spec fn low(self, len: nat) -> nat {
        self.start as nat
    }

    open spec fn high(self, len: nat) -> nat {
        len
    }

    fn bounds(self, len: u64) -> (range: Range<u64>) {
        runtime_assert(self.start <= len);
        self.start..len
    }
}

impl BitRange for RangeTo<u64> {
    open spec fn within(self, len: nat) -> bool {
        self.end <= len
    }

    open spec fn low(self, len: nat) -> nat {
        0
    }

    open spec fn high(self, len: nat) -> nat {
        self.end as nat
    }

    fn bounds(self, len: u64) -> (range: Range<u64>) {
        runtime_assert(self.end <= len);
        0..self.end
    }
}

impl BitRange for RangeFull {
    open spec fn within(self, len: nat) -> bool {
        true
    }

    open spec fn low(self, len: nat) -> nat {
        0
    }

    open spec fn high(self, len: nat) -> nat {
        len
    }

    fn bounds(self, len: u64) -> (range: Range<u64>) {
        0..len
    }
}

impl BitRange for RangeToInclusive<u64> {
    open spec fn within(self, len: nat) -> bool {
        self.end < len
    }

    open spec fn low(self, len: nat) -> nat {
        0
    }

    open spec fn high(self, len: nat) -> nat {
        (self.end + 1) as nat
    }

    fn bounds(self, len: u64) -> (range: Range<u64>) {
        runtime_assert(self.end < len);
        0..self.end + 1
    }
}

impl BitRange for RangeInclusive<u64> {
    open spec fn within(self, len: nat) -> bool {
        self@.start <= self@.end + 1 && self@.end < len
    }

    open spec fn low(self, len: nat) -> nat {
        self@.start as nat
    }

    open spec fn high(self, len: nat) -> nat {
        (self@.end + 1) as nat
    }

    fn bounds(self, len: u64) -> (range: Range<u64>) {
        let start = *self.start();
        let end = *self.end();
        runtime_assert(end < len && start <= end + 1);
        start..end + 1
    }
}

} // verus!
