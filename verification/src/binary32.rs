//! IEEE 754 binary32 numbers, held as bit patterns.
//!
//! Every finite binary32 number is a whole multiple of the smallest subnormal, `2^-149`. The
//! contracts measure numbers in that quantum, so that they speak of integers alone.

use vstd::arithmetic::power2::pow2;
use vstd::prelude::*;

verus! {

/// The sign bit.
pub const SIGN_BIT: u32 = 0x8000_0000;

/// The pattern of positive infinity; a magnitude above it is not a number.
pub const INFINITY_BITS: u32 = 0x7F80_0000;

/// The pattern of the quiet not-a-number that arithmetic gives.
pub const QUIET_NAN_BITS: u32 = 0x7FC0_0000;

/// The pattern of one half.
pub const HALF_BITS: u32 = 0x3F00_0000;

/// The pattern of one.
pub const ONE_BITS: u32 = 0x3F80_0000;

/// The pattern of the number nearest to pi.
pub const PI_BITS: u32 = 0x4049_0FDB;

/// A binary32 number: one sign bit, eight exponent bits and twenty-three fraction bits.
#[derive(Clone, Copy, Debug)]
pub struct Binary32 {
    pub bits: u32,
}

impl Binary32 {
    /// The sign bit is set.
    pub open spec fn negative(self) -> bool {
        self.bits >= SIGN_BIT
    }

    /// The pattern without its sign bit.
    pub open spec fn magnitude(self) -> nat {
        (self.bits as nat) % 0x8000_0000
    }

    /// The number is neither infinite nor a not-a-number.
    pub open spec fn finite(self) -> bool {
        self.magnitude() < INFINITY_BITS
    }

    /// The number is positive or negative infinity.
    pub open spec fn infinite(self) -> bool {
        self.magnitude() == INFINITY_BITS
    }

    /// The pattern is a not-a-number.
    pub open spec fn nan(self) -> bool {
        self.magnitude() > INFINITY_BITS
    }

    /// The number is positive or negative zero.
    pub open spec fn zero(self) -> bool {
        self.magnitude() == 0
    }

    /// How often the significand is doubled: zero for subnormals and the lowest normal binade.
    pub open spec fn shift(self) -> nat {
        magnitude_shift(self.magnitude())
    }

    /// The significand as an integer, with its implicit leading bit.
    pub open spec fn significand(self) -> nat {
        magnitude_significand(self.magnitude())
    }

    /// The absolute value of a finite number, in quanta of `2^-149`.
    pub open spec fn quanta(self) -> nat {
        magnitude_quanta(self.magnitude())
    }

    /// The value of a finite number, in quanta of `2^-149`.
    pub open spec fn value(self) -> int {
        if self.negative() {
            -(self.quanta() as int)
        } else {
            self.quanta() as int
        }
    }

    /// The position of a number that is not a not-a-number in the order of the numbers. The two
    /// zeros share one position.
    pub open spec fn rank(self) -> int {
        if self.negative() {
            -(self.magnitude() as int)
        } else {
            self.magnitude() as int
        }
    }

    /// `self <= other`, as floating-point numbers compare.
    pub open spec fn at_most(self, other: Binary32) -> bool {
        !self.nan() && !other.nan() && self.rank() <= other.rank()
    }

    /// `self < other`, as floating-point numbers compare.
    pub open spec fn below(self, other: Binary32) -> bool {
        !self.nan() && !other.nan() && self.rank() < other.rank()
    }
}

/// How often the significand of a magnitude is doubled.
pub open spec fn magnitude_shift(magnitude: nat) -> nat {
    let exponent = magnitude / 0x80_0000;
    if exponent == 0 {
        0
    } else {
        (exponent - 1) as nat
    }
}

/// The significand of a magnitude, with its implicit leading bit.
pub open spec fn magnitude_significand(magnitude: nat) -> nat {
    (magnitude - magnitude_shift(magnitude) * 0x80_0000) as nat
}

/// A magnitude in quanta of `2^-149`.
pub open spec fn magnitude_quanta(magnitude: nat) -> nat {
    magnitude_significand(magnitude) * pow2(magnitude_shift(magnitude))
}

/// The number with the given sign and magnitude.
pub open spec fn signed(negative: bool, magnitude: nat) -> Binary32 {
    Binary32 { bits: (magnitude + if negative { 0x8000_0000nat } else { 0 }) as u32 }
}

/// The quiet not-a-number that arithmetic gives.
pub open spec fn quiet_nan() -> Binary32 {
    Binary32 { bits: QUIET_NAN_BITS }
}

} // verus!
