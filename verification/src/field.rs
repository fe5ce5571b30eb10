//! Scalars whose arithmetic is exact: the laws of a field, together with the
//! laws of the magnitude by which pivots are chosen.

use crate::scalar::Scalar;
use vstd::prelude::*;

verus! {

/// A scalar whose operations obey the laws of a field, and whose magnitude
/// and comparison tell zero from the other scalars. Rational numbers with
/// their usual order are the model; the laws say nothing of rounding, so
/// whatever is proved from them holds of exact arithmetic only.
pub trait Field: Scalar {
    proof fn lemma_add_commutative(a: Self, b: Self)
        ensures
            a.add_spec(b) == b.add_spec(a),
    ;

    proof fn lemma_add_associative(a: Self, b: Self, c: Self)
        ensures
            a.add_spec(b).add_spec(c) == a.add_spec(b.add_spec(c)),
    ;

    proof fn lemma_add_zero(a: Self)
        ensures
            a.add_spec(Self::zero_value()) == a,
    ;

    /// Subtraction undoes addition.
    proof fn lemma_add_then_sub(a: Self, b: Self)
        ensures
            a.add_spec(b).sub_spec(b) == a,
    ;

    /// Addition undoes subtraction.
    proof fn lemma_sub_then_add(a: Self, b: Self)
        ensures
            a.sub_spec(b).add_spec(b) == a,
    ;

    proof fn lemma_mul_commutative(a: Self, b: Self)
        ensures
            a.mul_spec(b) == b.mul_spec(a),
    ;

    proof fn lemma_mul_associative(a: Self, b: Self, c: Self)
        ensures
            a.mul_spec(b).mul_spec(c) == a.mul_spec(b.mul_spec(c)),
    ;

    proof fn lemma_mul_one(a: Self)
        ensures
            a.mul_spec(Self::one_value()) == a,
    ;

    proof fn lemma_mul_distributive(a: Self, b: Self, c: Self)
        ensures
            a.mul_spec(b.add_spec(c)) == a.mul_spec(b).add_spec(a.mul_spec(c)),
    ;

    /// Multiplication undoes division by a scalar other than zero.
    proof fn lemma_div_then_mul(a: Self, b: Self)
        requires
            b != Self::zero_value(),
        ensures
            a.div_spec(b).mul_spec(b) == a,
    ;

    proof fn lemma_one_not_zero()
        ensures
            Self::one_value() != Self::zero_value(),
    ;

    /// A scalar other than zero has a magnitude greater than zero.
    proof fn lemma_abs_positive(a: Self)
        requires
            a != Self::zero_value(),
        ensures
            a.abs_spec().gt_spec(Self::zero_value()),
    ;

    /// Of two scalars at most one is greater than the other.
    proof fn lemma_gt_asymmetric(a: Self, b: Self)
        requires
            a.gt_spec(b),
        ensures
            !b.gt_spec(a),
    ;
}

pub proof fn lemma_zero_add<T: Field>(a: T)
    ensures
        T::zero_value().add_spec(a) == a,
{
    T::lemma_add_commutative(T::zero_value(), a);
    T::lemma_add_zero(a);
}

pub proof fn lemma_add_cancel<T: Field>(a: T, b: T, c: T)
    requires
        a.add_spec(c) == b.add_spec(c),
    ensures
        a == b,
{
    T::lemma_add_then_sub(a, c);
    T::lemma_add_then_sub(b, c);
}

pub proof fn lemma_mul_zero<T: Field>(a: T)
    ensures
        a.mul_spec(T::zero_value()) == T::zero_value(),
        T::zero_value().mul_spec(a) == T::zero_value(),
{
    T::lemma_zero_mul(a);
    T::lemma_mul_commutative(a, T::zero_value());
}

pub proof fn lemma_one_mul<T: Field>(a: T)
    ensures
        T::one_value().mul_spec(a) == a,
{
    T::lemma_mul_commutative(T::one_value(), a);
    T::lemma_mul_one(a);
}

pub proof fn lemma_mul_distributive_right<T: Field>(a: T, b: T, c: T)
    ensures
        a.add_spec(b).mul_spec(c) == a.mul_spec(c).add_spec(b.mul_spec(c)),
{
    T::lemma_mul_commutative(a.add_spec(b), c);
    T::lemma_mul_distributive(c, a, b);
    T::lemma_mul_commutative(c, a);
    T::lemma_mul_commutative(c, b);
}

/// `(a + b) + (c + d) == (a + c) + (b + d)`.
pub proof fn lemma_add_interchange<T: Field>(a: T, b: T, c: T, d: T)
    ensures
        a.add_spec(b).add_spec(c.add_spec(d)) == a.add_spec(c).add_spec(b.add_spec(d)),
{
    T::lemma_add_associative(a, b, c.add_spec(d));
    T::lemma_add_associative(b, c, d);
    T::lemma_add_commutative(b, c);
    T::lemma_add_associative(c, b, d);
    T::lemma_add_associative(a, c, b.add_spec(d));
}

/// `(a - s) - t == a - (s + t)`.
pub proof fn lemma_sub_sub<T: Field>(a: T, s: T, t: T)
    ensures
        a.sub_spec(s).sub_spec(t) == a.sub_spec(s.add_spec(t)),
{
    let l = a.sub_spec(s).sub_spec(t);
    let r = a.sub_spec(s.add_spec(t));
    T::lemma_add_commutative(s, t);
    T::lemma_add_associative(l, t, s);
    T::lemma_sub_then_add(a.sub_spec(s), t);
    T::lemma_sub_then_add(a, s);
    assert(l.add_spec(s.add_spec(t)) == a);
    T::lemma_sub_then_add(a, s.add_spec(t));
    lemma_add_cancel(l, r, s.add_spec(t));
}

/// `(d + m) + (w - m) == d + w`.
pub proof fn lemma_add_sub_same<T: Field>(d: T, m: T, w: T)
    ensures
        d.add_spec(m).add_spec(w.sub_spec(m)) == d.add_spec(w),
{
    T::lemma_add_associative(d, m, w.sub_spec(m));
    T::lemma_add_commutative(m, w.sub_spec(m));
    T::lemma_sub_then_add(w, m);
}

/// A factor other than zero can be cancelled.
pub proof fn lemma_mul_cancel<T: Field>(a: T, x: T, y: T)
    requires
        a != T::zero_value(),
        a.mul_spec(x) == a.mul_spec(y),
    ensures
        x == y,
{
    let inv = T::one_value().div_spec(a);
    T::lemma_div_then_mul(T::one_value(), a);
    lemma_one_mul(x);
    lemma_one_mul(y);
    T::lemma_mul_associative(inv, a, x);
    T::lemma_mul_associative(inv, a, y);
}

/// `(y - d) / f * f + d == y`, with the product written either way round.
pub proof fn lemma_solve<T: Field>(y: T, d: T, f: T)
    requires
        f != T::zero_value(),
    ensures
        f.mul_spec(y.sub_spec(d).div_spec(f)).add_spec(d) == y,
{
    let q = y.sub_spec(d).div_spec(f);
    T::lemma_div_then_mul(y.sub_spec(d), f);
    T::lemma_mul_commutative(f, q);
    T::lemma_sub_then_add(y, d);
}

} // verus!
