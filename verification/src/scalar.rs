//! The arithmetic that matrix elements must offer.

use vstd::prelude::*;

verus! {

/// A copyable element type with a zero, a one, addition, subtraction and
/// multiplication.
///
/// Each operation is a total function of its operands, named by a spec
/// function, so that results of matrix code can be stated exactly.  The only
/// algebraic law that the library relies on is that addition commutes.
pub trait Scalar: Copy {
    /// The zero: what every dot product starts from.
    spec fn zero_value() -> Self;

    /// The one: what the slope of the logistic function is measured from.
    spec fn one_value() -> Self;

    /// `self + rhs`.
    spec fn sum(self, rhs: Self) -> Self;

    /// `self - rhs`.
    spec fn difference(self, rhs: Self) -> Self;

    /// `self * rhs`.
    spec fn product(self, rhs: Self) -> Self;

    /// Addition does not depend on the order of its operands.
    proof fn sum_commutes(self, rhs: Self)
        ensures
            self.sum(rhs) == rhs.sum(self),
    ;

    /// Computes the zero.
    fn zero() -> (r: Self)
        ensures
            r == Self::zero_value(),
    ;

    /// Computes the one.
    fn one() -> (r: Self)
        ensures
            r == Self::one_value(),
    ;

    /// Computes `self + rhs`.
    fn plus(self, rhs: Self) -> (r: Self)
        ensures
            r == self.sum(rhs),
    ;

    /// Computes `self - rhs`.
    fn minus(self, rhs: Self) -> (r: Self)
        ensures
            r == self.difference(rhs),
    ;

    /// Computes `self * rhs`.
    fn times(self, rhs: Self) -> (r: Self)
        ensures
            r == self.product(rhs),
    ;
}

/// Signed 64-bit integers with wrapping arithmetic: the ring of integers
/// modulo 2^64.
impl Scalar for i64 {
    open spec fn zero_value() -> Self {
        0
    }

    open spec fn one_value() -> Self {
        1
    }

    open spec fn sum(self, rhs: Self) -> Self {
        self.wrapping_add(rhs)
    }

    open spec fn difference(self, rhs: Self) -> Self {
        self.wrapping_sub(rhs)
    }

    open spec fn product(self, rhs: Self) -> Self {
        self.wrapping_mul(rhs)
    }

    proof fn sum_commutes(self, rhs: Self) {
    }

    fn zero() -> (r: Self) {
        0
    }

    fn one() -> (r: Self) {
        1
    }

    fn plus(self, rhs: Self) -> (r: Self) {
        self.wrapping_add(rhs)
    }

    fn minus(self, rhs: Self) -> (r: Self) {
        self.wrapping_sub(rhs)
    }

    fn times(self, rhs: Self) -> (r: Self) {
        self.wrapping_mul(rhs)
    }
}

} // verus!
