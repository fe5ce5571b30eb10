//! The field of two elements: `bool` as a scalar, with `false` for zero and
//! `true` for one. Matrices over it are inverted exactly.

use crate::display::Render;
use crate::field::Field;
use crate::scalar::Scalar;
use vstd::prelude::*;
use vstd::string::*;

verus! {

/// Arithmetic modulo two: the sum and the difference are the exclusive or,
/// the product is the conjunction, and the only divisor is one.
impl Scalar for bool {
    open spec fn zero_value() -> bool {
        false
    }

    open spec fn one_value() -> bool {
        true
    }

    open spec fn add_spec(self, rhs: bool) -> bool {
        self != rhs
    }

    open spec fn sub_spec(self, rhs: bool) -> bool {
        self != rhs
    }

    open spec fn mul_spec(self, rhs: bool) -> bool {
        self && rhs
    }

    open spec fn div_spec(self, rhs: bool) -> bool {
        self
    }

    open spec fn abs_spec(self) -> bool {
        self
    }

    open spec fn gt_spec(self, rhs: bool) -> bool {
        self && !rhs
    }

    fn zero() -> (r: bool) {
        false
    }

    fn one() -> (r: bool) {
        true
    }

    fn add(self, rhs: bool) -> (r: bool) {
        self != rhs
    }

    fn sub(self, rhs: bool) -> (r: bool) {
        self != rhs
    }

    fn mul(self, rhs: bool) -> (r: bool) {
        self && rhs
    }

    fn div(self, rhs: bool) -> (r: bool) {
        self
    }

    fn abs(self) -> (r: bool) {
        self
    }

    fn gt(self, rhs: bool) -> (b: bool) {
        self && !rhs
    }

    fn same(self, rhs: bool) -> (b: bool) {
        self == rhs
    }

    proof fn lemma_abs_zero() {
    }

    proof fn lemma_abs_one() {
    }

    proof fn lemma_zero_mul(x: bool) {
    }

    proof fn lemma_sub_zero(x: bool) {
    }

    proof fn lemma_div_one(x: bool) {
    }
}

impl Field for bool {
    proof fn lemma_add_commutative(a: bool, b: bool) {
    }

    proof fn lemma_add_associative(a: bool, b: bool, c: bool) {
    }

    proof fn lemma_add_zero(a: bool) {
    }

    proof fn lemma_add_then_sub(a: bool, b: bool) {
    }

    proof fn lemma_sub_then_add(a: bool, b: bool) {
    }

    proof fn lemma_mul_commutative(a: bool, b: bool) {
    }

    proof fn lemma_mul_associative(a: bool, b: bool, c: bool) {
    }

    proof fn lemma_mul_one(a: bool) {
    }

    proof fn lemma_mul_distributive(a: bool, b: bool, c: bool) {
    }

    proof fn lemma_div_then_mul(a: bool, b: bool) {
    }

    proof fn lemma_one_not_zero() {
    }

    proof fn lemma_abs_positive(a: bool) {
    }

    proof fn lemma_gt_asymmetric(a: bool, b: bool) {
    }
}

impl Render for bool {
    open spec fn rendered(&self) -> Seq<char> {
        if *self {
            seq!['1']
        } else {
            seq!['0']
        }
    }

    fn render(&self) -> (s: String) {
        proof {
            reveal_strlit("1");
            reveal_strlit("0");
        }
        let s = if *self {
            String::from_str("1")
        } else {
            String::from_str("0")
        };
        assert(s@ =~= self.rendered());
        s
    }
}

} // verus!
