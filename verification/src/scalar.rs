//! Single-precision scalars held as bit patterns: classification, sign
//! handling and ordered comparison.

use vstd::prelude::*;

verus! {

/// Bit pattern of the sign.
pub const SIGN_BIT: u32 = 0x8000_0000;

/// Magnitude pattern of infinity; every larger magnitude is a NaN.
pub const INFINITY_MAG: u32 = 0x7F80_0000;

/// The quiet NaN that every invalid operation returns.
pub const NAN_BITS: u32 = 0x7FC0_0000;

/// Bit pattern of `1.0`.
pub const ONE_BITS: u32 = 0x3F80_0000;

/// An IEEE 754 binary32 value, carried as its bit pattern: one sign bit, eight
/// bits of biased exponent and twenty-three bits of fraction.
#[derive(Clone, Copy, Debug)]
pub struct Scalar {
    pub bits: u32,
}

impl Scalar {
    /// The low 31 bits: biased exponent and fraction.
    pub open spec fn mag(self) -> nat {
        (self.bits % 0x8000_0000) as nat
    }

    /// The sign bit is set.
    pub open spec fn spec_is_negative(self) -> bool {
        self.bits >= 0x8000_0000
    }

    /// The magnitude lies above that of infinity.
    pub open spec fn spec_is_nan(self) -> bool {
        self.mag() > 0x7F80_0000
    }

    /// Positive or negative infinity.
    pub open spec fn spec_is_infinite(self) -> bool {
        self.mag() == 0x7F80_0000
    }

    /// Neither an infinity nor a NaN.
    pub open spec fn spec_is_finite(self) -> bool {
        self.mag() < 0x7F80_0000
    }

    /// Positive and negative zero alike.
    pub open spec fn spec_is_zero(self) -> bool {
        self.mag() == 0
    }

    /// The scalar with the given sign and magnitude pattern.
    pub open spec fn compose(negative: bool, mag: nat) -> Scalar {
        Scalar { bits: (mag + if negative { 0x8000_0000nat } else { 0nat }) as u32 }
    }

    /// Positive zero.
    pub open spec fn zero() -> Scalar {
        Scalar { bits: 0 }
    }

    /// The scalar `1.0`.
    pub open spec fn one() -> Scalar {
        Scalar { bits: 0x3F80_0000 }
    }

    /// The quiet NaN that every invalid operation returns.
    pub open spec fn nan() -> Scalar {
        Scalar { bits: 0x7FC0_0000 }
    }

    /// The same magnitude with the sign bit cleared.
    pub open spec fn spec_abs(self) -> Scalar {
        Scalar { bits: (self.bits % 0x8000_0000) as u32 }
    }

    /// The same magnitude with the sign bit flipped.
    pub open spec fn spec_neg(self) -> Scalar {
        Scalar::compose(!self.spec_is_negative(), self.mag())
    }

    /// The magnitude pattern with the sign applied. Magnitude patterns grow
    /// with the values they stand for, so on scalars that are not NaN this
    /// integer orders as the values do, and both zeros share the key 0.
    pub open spec fn key(self) -> int {
        if self.spec_is_negative() {
            -(self.mag() as int)
        } else {
            self.mag() as int
        }
    }

    /// `self > other` as IEEE 754 orders: false when either side is NaN.
    pub open spec fn spec_gt(self, other: Scalar) -> bool {
        !self.spec_is_nan() && !other.spec_is_nan() && self.key() > other.key()
    }

    /// `self == other` as IEEE 754 compares: NaN equals nothing, and the two
    /// zeros are equal.
    pub open spec fn spec_same_value(self, other: Scalar) -> bool {
        !self.spec_is_nan() && !other.spec_is_nan() && self.key() == other.key()
    }

    /// The scalar with the given bit pattern.
    pub fn from_bits(bits: u32) -> (r: Scalar)
        ensures
            r.bits == bits,
    {
        Scalar { bits }
    }

    /// The bit pattern of the scalar.
    pub fn to_bits(self) -> (r: u32)
        ensures
            r == self.bits,
    {
        self.bits
    }

    /// The low 31 bits: biased exponent and fraction.
    pub fn magnitude(self) -> (r: u32)
        ensures
            r == self.mag(),
            r < 0x8000_0000,
    {
        if self.bits >= SIGN_BIT {
            self.bits - SIGN_BIT
        } else {
            self.bits
        }
    }

    /// Whether the sign bit is set; it is for negative zero too.
    #[verifier::when_used_as_spec(spec_is_negative)]
    pub fn is_negative(self) -> (r: bool)
        ensures
            r == self.spec_is_negative(),
    {
        self.bits >= SIGN_BIT
    }

    /// Whether the scalar is a NaN.
    #[verifier::when_used_as_spec(spec_is_nan)]
    pub fn is_nan(self) -> (r: bool)
        ensures
            r == self.spec_is_nan(),
    {
        self.magnitude() > INFINITY_MAG
    }

    /// Whether the scalar is positive or negative infinity.
    #[verifier::when_used_as_spec(spec_is_infinite)]
    pub fn is_infinite(self) -> (r: bool)
        ensures
            r == self.spec_is_infinite(),
    {
        self.magnitude() == INFINITY_MAG
    }

    /// Whether the scalar is neither an infinity nor a NaN.
    #[verifier::when_used_as_spec(spec_is_finite)]
    pub fn is_finite(self) -> (r: bool)
        ensures
            r == self.spec_is_finite(),
    {
        self.magnitude() < INFINITY_MAG
    }

    /// Whether the scalar is positive or negative zero.
    #[verifier::when_used_as_spec(spec_is_zero)]
    pub fn is_zero(self) -> (r: bool)
        ensures
            r == self.spec_is_zero(),
    {
        self.magnitude() == 0
    }

    /// Builds the scalar with the given sign and magnitude pattern.
    pub fn pack(negative: bool, mag: u32) -> (r: Scalar)
        requires
            mag < 0x8000_0000,
        ensures
            r == Scalar::compose(negative, mag as nat),
            r.mag() == mag,
            r.spec_is_negative() == negative,
    {
        if negative {
            Scalar { bits: mag + SIGN_BIT }
        } else {
            Scalar { bits: mag }
        }
    }

    /// The absolute value: the sign bit cleared, a NaN's payload kept.
    #[verifier::when_used_as_spec(spec_abs)]
    pub fn abs(self) -> (r: Scalar)
        ensures
            r == self.spec_abs(),
            r.mag() == self.mag(),
            !r.spec_is_negative(),
    {
        Scalar { bits: self.magnitude() }
    }

    /// The negation: the sign bit flipped, a NaN's payload kept.
    #[verifier::when_used_as_spec(spec_neg)]
    pub fn neg(self) -> (r: Scalar)
        ensures
            r == self.spec_neg(),
            r.mag() == self.mag(),
            r.spec_is_negative() == !self.spec_is_negative(),
    {
        Scalar::pack(!self.is_negative(), self.magnitude())
    }

    /// `self > other` in the IEEE 754 order.
    #[verifier::when_used_as_spec(spec_gt)]
    pub fn gt(self, other: Scalar) -> (r: bool)
        ensures
            r == self.spec_gt(other),
    {
        if self.is_nan() || other.is_nan() {
            return false;
        }
        let a: u32 = self.magnitude();
        let b: u32 = other.magnitude();
        if self.is_negative() {
            other.is_negative() && a < b
        } else if other.is_negative() {
            a > 0 || b > 0
        } else {
            a > b
        }
    }

    /// `self == other` as IEEE 754 compares.
    #[verifier::when_used_as_spec(spec_same_value)]
    pub fn same_value(self, other: Scalar) -> (r: bool)
        ensures
            r == self.spec_same_value(other),
    {
        if self.is_nan() || other.is_nan() {
            return false;
        }
        let a: u32 = self.magnitude();
        let b: u32 = other.magnitude();
        if a == 0 && b == 0 {
            true
        } else {
            a == b && self.is_negative() == other.is_negative()
        }
    }
}

} // verus!
