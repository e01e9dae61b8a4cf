//! Binary32 numbers held by their bit patterns: what a pattern means, and
//! the order of the numbers.

use vstd::prelude::*;
use crate::rounding::packed;

verus! {

/// The sign bit of a binary32 pattern.
pub const SIGN_BIT: u32 = 0x8000_0000;

/// The pattern of positive infinity; a larger magnitude is not a number.
pub const INFINITY_BITS: u32 = 0x7f80_0000;

/// The pattern of `0.0`.
pub const ZERO_BITS: u32 = 0;

/// The pattern of `1.0`.
pub const ONE_BITS: u32 = 0x3f80_0000;

/// The pattern of `0.5`.
pub const HALF_BITS: u32 = 0x3f00_0000;

/// The pattern of `2.0`.
pub const TWO_BITS: u32 = 0x4000_0000;

/// The pattern of the largest finite binary32 number.
pub const MAX_BITS: u32 = 0x7f7f_ffff;

/// The pattern of the smallest (most negative) finite binary32 number.
pub const MIN_BITS: u32 = 0xff7f_ffff;

/// The pattern of the NaN that an operation without a result gives.
pub const NAN_BITS: u32 = 0x7fc0_0000;

/// A binary32 number.
#[derive(Clone, Copy, Debug, PartialEq, Eq, Structural)]
pub struct Scalar {
    pub bits: u32,
}

impl Scalar {
    /// The bits without the sign.
    pub open spec fn magnitude(self) -> int {
        if self.bits >= SIGN_BIT {
            self.bits - SIGN_BIT
        } else {
            self.bits as int
        }
    }

    /// Whether the sign bit is set.
    pub open spec fn negative(self) -> bool {
        self.bits >= SIGN_BIT
    }

    /// Whether the pattern is not a number.
    pub open spec fn nan(self) -> bool {
        self.magnitude() > INFINITY_BITS
    }

    /// Whether the number is neither a NaN nor an infinity.
    pub open spec fn finite(self) -> bool {
        self.magnitude() < INFINITY_BITS
    }

    /// An integer that orders the numbers as their values do. Both zeros
    /// have rank 0; the infinities have the extreme ranks among numbers.
    pub open spec fn rank(self) -> int {
        if self.negative() {
            -self.magnitude()
        } else {
            self.magnitude()
        }
    }

    /// `self < other`: both are numbers and the value of `self` is smaller.
    pub open spec fn less(self, other: Scalar) -> bool {
        !self.nan() && !other.nan() && self.rank() < other.rank()
    }

    /// `self <= other`: both are numbers and the value of `self` is not larger.
    pub open spec fn at_most(self, other: Scalar) -> bool {
        !self.nan() && !other.nan() && self.rank() <= other.rank()
    }

    /// `self == other` as numbers: a NaN equals nothing, the two zeros are equal.
    pub open spec fn same(self, other: Scalar) -> bool {
        !self.nan() && !other.nan() && self.rank() == other.rank()
    }

    /// The smaller of two numbers. A NaN yields to the other argument; of two
    /// equal numbers the first is kept.
    pub open spec fn lower(self, other: Scalar) -> Scalar {
        if self.nan() {
            other
        } else if other.less(self) {
            other
        } else {
            self
        }
    }

    /// The larger of two numbers. A NaN yields to the other argument; of two
    /// equal numbers the first is kept.
    pub open spec fn upper(self, other: Scalar) -> Scalar {
        if self.nan() {
            other
        } else if self.less(other) {
            other
        } else {
            self
        }
    }

    /// `self` restricted to `[low, high]`: `low` if `self < low`, else `high`
    /// if `self > high`, else `self` (a NaN passes through).
    pub open spec fn clamped(self, low: Scalar, high: Scalar) -> Scalar {
        if self.less(low) {
            low
        } else if high.less(self) {
            high
        } else {
            self
        }
    }

    /// The number with the sign bit flipped.
    pub open spec fn negated(self) -> Scalar {
        if self.bits >= SIGN_BIT {
            Scalar { bits: (self.bits - SIGN_BIT) as u32 }
        } else {
            Scalar { bits: (self.bits + SIGN_BIT) as u32 }
        }
    }

    /// The number with the sign bit cleared.
    pub open spec fn absolute(self) -> Scalar {
        Scalar { bits: self.magnitude() as u32 }
    }

    /// The exponent field.
    pub open spec fn exponent(self) -> int {
        self.magnitude() / 0x80_0000
    }

    /// The significand of a normal number, with its leading bit: the value
    /// of the number is `significand * 2^(exponent - 150)`.
    pub open spec fn significand(self) -> int {
        self.magnitude() % 0x80_0000 + 0x80_0000
    }

    /// The digits of a finite number: its significand, which a subnormal
    /// number has without a leading bit.
    pub open spec fn digits(self) -> nat {
        if self.exponent() == 0 {
            self.magnitude() as nat
        } else {
            self.significand() as nat
        }
    }

    /// The scale of a finite number: its value is
    /// `digits * 2^(scale - 150)`, negated where the sign bit is set.
    pub open spec fn scale(self) -> int {
        if self.exponent() == 0 {
            1
        } else {
            self.exponent()
        }
    }

    /// The number with the given bit pattern.
    pub fn from_bits(bits: u32) -> (r: Scalar)
        ensures
            r.bits == bits,
    {
        Scalar { bits }
    }

    /// The bit pattern of the number.
    pub fn to_bits(self) -> (r: u32)
        ensures
            r == self.bits,
    {
        self.bits
    }

    /// `0.0`.
    pub fn zero() -> (r: Scalar)
        ensures
            r.bits == ZERO_BITS,
    {
        Scalar { bits: ZERO_BITS }
    }

    /// `1.0`.
    pub fn one() -> (r: Scalar)
        ensures
            r.bits == ONE_BITS,
    {
        Scalar { bits: ONE_BITS }
    }

    pub(crate) fn magnitude_bits(self) -> (m: u32)
        ensures
            m == self.magnitude(),
    {
        if self.bits >= SIGN_BIT {
            self.bits - SIGN_BIT
        } else {
            self.bits
        }
    }

    /// The digits and the scale of a finite number.
    pub(crate) fn parts(self) -> (r: (u64, i32))
        requires
            self.finite(),
        ensures
            r.0 == self.digits(),
            r.1 == self.scale(),
            r.0 < 0x100_0000,
            1 <= r.1 <= 254,
    {
        let m: u32 = self.magnitude_bits();
        if m / 0x80_0000 == 0 {
            (m as u64, 1)
        } else {
            ((m % 0x80_0000 + 0x80_0000) as u64, (m / 0x80_0000) as i32)
        }
    }

    /// The integer that orders the numbers as their values do.
    pub fn rank_of(self) -> (k: i64)
        ensures
            k == self.rank(),
    {
        self.rank_value()
    }

    fn rank_value(self) -> (k: i64)
        ensures
            k == self.rank(),
    {
        let m: u32 = self.magnitude_bits();
        if self.bits >= SIGN_BIT {
            0 - (m as i64)
        } else {
            m as i64
        }
    }

    pub fn is_nan(self) -> (r: bool)
        ensures
            r == self.nan(),
    {
        self.magnitude_bits() > INFINITY_BITS
    }

    pub fn is_finite(self) -> (r: bool)
        ensures
            r == self.finite(),
    {
        self.magnitude_bits() < INFINITY_BITS
    }

    /// Whether the sign bit is clear (true of `0.0`, false of `-0.0`).
    pub fn is_sign_positive(self) -> (r: bool)
        ensures
            r == !self.negative(),
    {
        self.bits < SIGN_BIT
    }

    pub fn lt(self, other: Scalar) -> (r: bool)
        ensures
            r == self.less(other),
    {
        !self.is_nan() && !other.is_nan() && self.rank_value() < other.rank_value()
    }

    pub fn le(self, other: Scalar) -> (r: bool)
        ensures
            r == self.at_most(other),
    {
        !self.is_nan() && !other.is_nan() && self.rank_value() <= other.rank_value()
    }

    pub fn gt(self, other: Scalar) -> (r: bool)
        ensures
            r == other.less(self),
    {
        other.lt(self)
    }

    pub fn ge(self, other: Scalar) -> (r: bool)
        ensures
            r == other.at_most(self),
    {
        other.le(self)
    }

    /// Equality of numbers: false where either is a NaN, true of the two zeros.
    pub fn equals(self, other: Scalar) -> (r: bool)
        ensures
            r == self.same(other),
    {
        !self.is_nan() && !other.is_nan() && self.rank_value() == other.rank_value()
    }

    /// The smaller of two numbers; the other one where one is a NaN.
    pub fn min(self, other: Scalar) -> (r: Scalar)
        ensures
            r == self.lower(other),
    {
        if self.is_nan() {
            other
        } else if other.lt(self) {
            other
        } else {
            self
        }
    }

    /// The larger of two numbers; the other one where one is a NaN.
    pub fn max(self, other: Scalar) -> (r: Scalar)
        ensures
            r == self.upper(other),
    {
        if self.is_nan() {
            other
        } else if self.lt(other) {
            other
        } else {
            self
        }
    }

    pub fn neg(self) -> (r: Scalar)
        ensures
            r == self.negated(),
            r.rank() == -self.rank(),
            r.nan() == self.nan(),
    {
        if self.bits >= SIGN_BIT {
            Scalar { bits: self.bits - SIGN_BIT }
        } else {
            Scalar { bits: self.bits + SIGN_BIT }
        }
    }

    pub fn abs(self) -> (r: Scalar)
        ensures
            r == self.absolute(),
            !r.negative(),
            r.rank() == self.magnitude(),
    {
        Scalar { bits: self.magnitude_bits() }
    }

    /// A finite number is its digits in units of its scale.
    pub proof fn lemma_own_bits(self)
        requires
            self.finite(),
        ensures
            self.bits == packed(self.negative(), self.digits(), self.scale() - 150),
            self.scale() >= 2 ==> self.digits() >= 0x80_0000,
            self.digits() < 0x100_0000,
            1 <= self.scale() <= 254,
    {
    }
}

} // verus!
