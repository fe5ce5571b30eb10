//! The numeric capabilities that a matrix entry has to offer, and the
//! machine integers that offer them.

use vstd::prelude::*;

verus! {

/// What a matrix entry must be able to do: the two identities, the four
/// arithmetic operations, a magnitude, a strict comparison and an equality
/// test.
///
/// Every operation is total except `div`, whose divisor must not be zero.
/// Each executable operation is tied to a specification function of the same
/// meaning, over which the contracts of the matrix algorithms are stated.
/// The few laws asked of every scalar say that zero and one behave as zero
/// and one; exact arithmetic has the further laws of `Field`.
pub trait Scalar: Copy {
    /// The additive identity.
    spec fn zero_value() -> Self;

    /// The multiplicative identity.
    spec fn one_value() -> Self;

    /// The sum of two scalars.
    spec fn add_spec(self, rhs: Self) -> Self;

    /// The difference of two scalars.
    spec fn sub_spec(self, rhs: Self) -> Self;

    /// The product of two scalars.
    spec fn mul_spec(self, rhs: Self) -> Self;

    /// The quotient of two scalars; meaningful for a divisor other than zero.
    spec fn div_spec(self, rhs: Self) -> Self;

    /// The magnitude by which pivots are compared.
    spec fn abs_spec(self) -> Self;

    /// Whether `self` is strictly greater than `rhs`.
    spec fn gt_spec(self, rhs: Self) -> bool;

    fn zero() -> (r: Self)
        ensures
            r == Self::zero_value(),
    ;

    fn one() -> (r: Self)
        ensures
            r == Self::one_value(),
    ;

    fn add(self, rhs: Self) -> (r: Self)
        ensures
            r == self.add_spec(rhs),
    ;

    fn sub(self, rhs: Self) -> (r: Self)
        ensures
            r == self.sub_spec(rhs),
    ;

    fn mul(self, rhs: Self) -> (r: Self)
        ensures
            r == self.mul_spec(rhs),
    ;

    fn div(self, rhs: Self) -> (r: Self)
        requires
            rhs != Self::zero_value(),
        ensures
            r == self.div_spec(rhs),
    ;

    fn abs(self) -> (r: Self)
        ensures
            r == self.abs_spec(),
    ;

    fn gt(self, rhs: Self) -> (b: bool)
        ensures
            b == self.gt_spec(rhs),
    ;

    fn same(self, rhs: Self) -> (b: bool)
        ensures
            b == (self == rhs),
    ;

    /// Zero has magnitude zero, so a magnitude other than zero belongs to a
    /// scalar other than zero.
    proof fn lemma_abs_zero()
        ensures
            Self::zero_value().abs_spec() == Self::zero_value(),
    ;

    /// One has a magnitude greater than zero, and zero is not greater than it.
    proof fn lemma_abs_one()
        ensures
            Self::one_value().abs_spec().gt_spec(Self::zero_value()),
            !Self::zero_value().gt_spec(Self::one_value().abs_spec()),
            Self::one_value().abs_spec() != Self::zero_value(),
    ;

    /// Zero times any scalar is zero.
    proof fn lemma_zero_mul(x: Self)
        ensures
            Self::zero_value().mul_spec(x) == Self::zero_value(),
    ;

    /// Subtracting zero changes nothing.
    proof fn lemma_sub_zero(x: Self)
        ensures
            x.sub_spec(Self::zero_value()) == x,
    ;

    /// Dividing by one changes nothing.
    proof fn lemma_div_one(x: Self)
        ensures
            x.div_spec(Self::one_value()) == x,
    ;
}

/// `num_traits::Zero::zero` for `i64`: the constant `0`.
#[verifier::external_body]
fn zero_i64() -> (r: i64)
    ensures
        r == 0,
{
    num_traits::Zero::zero()
}

/// `num_traits::One::one` for `i64`: the constant `1`.
#[verifier::external_body]
fn one_i64() -> (r: i64)
    ensures
        r == 1,
{
    num_traits::One::one()
}

/// `num_traits::Signed::abs` for `i64`: the argument itself where it is not
/// negative, its negation otherwise. The negation of `i64::MIN` overflows, so
/// that argument is left out.
#[verifier::external_body]
fn abs_i64(x: i64) -> (r: i64)
    requires
        x != i64::MIN,
    ensures
        r == (if x < 0 { -x } else { x as int }),
{
    num_traits::Signed::abs(&x)
}

/// Machine integers are scalars whose arithmetic wraps around: sums,
/// differences and products are taken modulo 2^64, division truncates
/// towards zero, and both `i64::MIN / -1` and the magnitude of `i64::MIN`
/// are `i64::MIN`.
impl Scalar for i64 {
    open spec fn zero_value() -> i64 {
        0
    }

    open spec fn one_value() -> i64 {
        1
    }

    open spec fn add_spec(self, rhs: i64) -> i64 {
        self.wrapping_add(rhs)
    }

    open spec fn sub_spec(self, rhs: i64) -> i64 {
        self.wrapping_sub(rhs)
    }

    open spec fn mul_spec(self, rhs: i64) -> i64 {
        self.wrapping_mul(rhs)
    }

    open spec fn div_spec(self, rhs: i64) -> i64 {
        match self.checked_div(rhs) {
            Some(q) => q,
            None => self,
        }
    }

    open spec fn abs_spec(self) -> i64 {
        if self < 0 && self != i64::MIN {
            (-self) as i64
        } else {
            self
        }
    }

    open spec fn gt_spec(self, rhs: i64) -> bool {
        self > rhs
    }

    fn zero() -> (r: i64) {
        zero_i64()
    }

    fn one() -> (r: i64) {
        one_i64()
    }

    fn add(self, rhs: i64) -> (r: i64) {
        self.wrapping_add(rhs)
    }

    fn sub(self, rhs: i64) -> (r: i64) {
        self.wrapping_sub(rhs)
    }

    fn mul(self, rhs: i64) -> (r: i64) {
        self.wrapping_mul(rhs)
    }

    fn div(self, rhs: i64) -> (r: i64) {
        match self.checked_div(rhs) {
            Some(q) => q,
            None => self,
        }
    }

    fn abs(self) -> (r: i64) {
        if self == i64::MIN {
            self
        } else {
            abs_i64(self)
        }
    }

    fn gt(self, rhs: i64) -> (b: bool) {
        self > rhs
    }

    fn same(self, rhs: i64) -> (b: bool) {
        self == rhs
    }

    proof fn lemma_abs_zero() {
    }

    proof fn lemma_abs_one() {
    }

    proof fn lemma_zero_mul(x: i64) {
    }

    proof fn lemma_sub_zero(x: i64) {
    }

    proof fn lemma_div_one(x: i64) {
    }
}

} // verus!
