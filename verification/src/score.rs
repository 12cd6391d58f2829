//! Scores: 64-bit floating-point numbers, held as their IEEE 754 bits.

use vstd::prelude::*;
use crate::order::Place;

verus! {

/// The sign bit.
pub const SIGN: u64 = 0x8000_0000_0000_0000;

/// The bits of positive infinity.
pub const INFINITY: u64 = 0x7ff0_0000_0000_0000;

/// Whether the sign bit is set.
pub open spec fn is_negative(bits: u64) -> bool {
    bits >= SIGN
}

/// The bits without the sign.
pub open spec fn magnitude(bits: u64) -> int {
    if is_negative(bits) {
        bits - SIGN
    } else {
        bits as int
    }
}

/// Whether the bits stand for no number.
pub open spec fn is_nan(bits: u64) -> bool {
    magnitude(bits) > INFINITY
}

/// Whether the bits stand for a finite number.
pub open spec fn is_finite(bits: u64) -> bool {
    magnitude(bits) < INFINITY
}

/// The total order of IEEE 754: negative values come before positive ones, and
/// among negative ones the greater magnitude comes first.
pub open spec fn score_less(a: u64, b: u64) -> bool {
    if is_negative(a) {
        !is_negative(b) || magnitude(a) > magnitude(b)
    } else {
        !is_negative(b) && magnitude(a) < magnitude(b)
    }
}

/// A score, held as its bits, and ordered by the total order.
#[derive(Clone, Copy, Debug, PartialEq, Eq, Structural)]
pub struct OrderedF64(pub u64);

impl View for OrderedF64 {
    type V = u64;

    open spec fn view(&self) -> u64 {
        self.0
    }
}

impl OrderedF64 {
    /// Whether the score is no number.
    pub fn is_nan(&self) -> (yes: bool)
        ensures
            yes == is_nan(self@),
    {
        if self.0 >= SIGN {
            self.0 - SIGN > INFINITY
        } else {
            self.0 > INFINITY
        }
    }

    /// Whether the score is a finite number.
    pub fn is_finite(&self) -> (yes: bool)
        ensures
            yes == is_finite(self@),
    {
        if self.0 >= SIGN {
            self.0 - SIGN < INFINITY
        } else {
            self.0 < INFINITY
        }
    }

    /// How two scores stand to each other.
    pub fn compare(&self, other: &OrderedF64) -> (place: Place)
        ensures
            place == Place::Before <==> score_less(self@, other@),
            place == Place::Same <==> self@ == other@,
            place == Place::After <==> score_less(other@, self@),
    {
        if self.0 == other.0 {
            Place::Same
        } else if self.0 >= SIGN {
            if other.0 < SIGN || self.0 > other.0 {
                Place::Before
            } else {
                Place::After
            }
        } else if other.0 < SIGN && self.0 < other.0 {
            Place::Before
        } else {
            Place::After
        }
    }
}

} // verus!
