//! Binary64 readings held by their bit patterns, with IEEE-754 ordering.

use vstd::prelude::*;

verus! {

/// An IEEE-754 binary64 value, held by its bit pattern (sign bit first,
/// then eleven exponent bits, then fifty-two fraction bits).
#[derive(Debug, Clone, Copy, PartialEq, Eq, Hash, Structural)]
pub struct F64Bits {
    pub bits: u64,
}

/// The bit pattern of the sign bit alone.
pub open spec fn sign_bit() -> int {
    0x8000_0000_0000_0000
}

/// The bit pattern of positive infinity.
pub open spec fn infinity_bits() -> int {
    0x7ff0_0000_0000_0000
}

impl F64Bits {
    /// Whether the sign bit is set.
    pub open spec fn is_negative(self) -> bool {
        self.bits >= sign_bit()
    }

    /// The bit pattern with the sign bit cleared.
    pub open spec fn magnitude(self) -> int {
        if self.is_negative() {
            self.bits - sign_bit()
        } else {
            self.bits as int
        }
    }

    /// Whether the value is a NaN: all exponent bits set and a nonzero fraction.
    pub open spec fn is_nan(self) -> bool {
        self.magnitude() > infinity_bits()
    }

    /// Whether the value is positive or negative zero.
    pub open spec fn is_zero(self) -> bool {
        self.magnitude() == 0
    }

    /// IEEE-754 `<`: false when either side is NaN, false between the two
    /// zeros, and otherwise the order of the magnitudes, reversed for two
    /// negative values (binary64 magnitudes grow with their bit patterns).
    pub open spec fn lt_spec(self, other: F64Bits) -> bool {
        if self.is_nan() || other.is_nan() {
            false
        } else if self.is_zero() && other.is_zero() {
            false
        } else if !self.is_negative() && !other.is_negative() {
            self.magnitude() < other.magnitude()
        } else if self.is_negative() && !other.is_negative() {
            true
        } else if !self.is_negative() && other.is_negative() {
            false
        } else {
            self.magnitude() > other.magnitude()
        }
    }

    /// Executable IEEE-754 `<` on two bit patterns.
    pub fn less_than(self, other: F64Bits) -> (r: bool)
        ensures
            r == self.lt_spec(other),
    {
        let sign: u64 = 0x8000_0000_0000_0000;
        let infinity: u64 = 0x7ff0_0000_0000_0000;
        let neg_a = self.bits >= sign;
        let neg_b = other.bits >= sign;
        let mag_a: u64 = if neg_a { self.bits - sign } else { self.bits };
        let mag_b: u64 = if neg_b { other.bits - sign } else { other.bits };
        if mag_a > infinity || mag_b > infinity {
            false
        } else if mag_a == 0 && mag_b == 0 {
            false
        } else if !neg_a && !neg_b {
            mag_a < mag_b
        } else if neg_a && !neg_b {
            true
        } else if !neg_a && neg_b {
            false
        } else {
            mag_a > mag_b
        }
    }
}

} // verus!
