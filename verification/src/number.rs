//! The arithmetic that the solvers are stated over. The scalars that they
//! compute with are one instance of it.

use crate::scalar::Scalar;
use vstd::prelude::*;

verus! {

/// The operations that elimination, decomposition and substitution are made
/// of. The models of the solvers are written once, over any type that has
/// them; what a solver computes is its model over `Scalar`.
pub trait Number: Sized {
    /// The number zero.
    spec fn zero_element() -> Self;

    /// The number one.
    spec fn one_element() -> Self;

    /// The small number that takes the place of a pivot that is zero.
    spec fn tiny_element() -> Self;

    /// `self + other`.
    spec fn plus(self, other: Self) -> Self;

    /// `self - other`.
    spec fn minus(self, other: Self) -> Self;

    /// `self * other`.
    spec fn times(self, other: Self) -> Self;

    /// `self / other`.
    spec fn over(self, other: Self) -> Self;

    /// The absolute value.
    spec fn absolute(self) -> Self;

    /// `self > other`.
    spec fn exceeds(self, other: Self) -> bool;

    /// `self == 0`.
    spec fn vanishes(self) -> bool;
}

impl Number for Scalar {
    open spec fn zero_element() -> Scalar {
        Scalar::zero()
    }

    open spec fn one_element() -> Scalar {
        Scalar::one()
    }

    open spec fn tiny_element() -> Scalar {
        Scalar { bits: 0x1E3C_E508 }
    }

    open spec fn plus(self, other: Scalar) -> Scalar {
        self.spec_add(other)
    }

    open spec fn minus(self, other: Scalar) -> Scalar {
        self.spec_sub(other)
    }

    open spec fn times(self, other: Scalar) -> Scalar {
        self.spec_mul(other)
    }

    open spec fn over(self, other: Scalar) -> Scalar {
        self.spec_div(other)
    }

    open spec fn absolute(self) -> Scalar {
        self.spec_abs()
    }

    open spec fn exceeds(self, other: Scalar) -> bool {
        self.spec_gt(other)
    }

    open spec fn vanishes(self) -> bool {
        self.spec_is_zero()
    }
}

} // verus!
