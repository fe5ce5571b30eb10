//! What inversion returns, over a field: the inverse, where there is one.

use crate::factors::{decomposes, lemma_lup_decomposes, lower, occurs, permuted, upper};
use crate::field::Field;
use crate::inverse::{backward, forward, inverse, solution, substituted};
use crate::linear::{
    apply, column, dot, has_shape, is_null_vector, is_singular, lemma_apply_identity,
    lemma_apply_product, lemma_apply_unit, lemma_apply_zeros, lemma_product_column, product, zeros,
};
use crate::lup::{is_square, lup};
use crate::matrix::identity;
use crate::scalar::Scalar;
use crate::solving::{
    lemma_backward_inverts_upper, lemma_forward_solves, lemma_lower_injective, lemma_upper_injective,
    picks,
};
use vstd::prelude::*;

verus! {

/// Whether `x` is the inverse of the square table `a`: a table of the same
/// shape whose product with `a`, taken either way round, is the identity.
pub open spec fn is_inverse_of<T: Scalar>(x: Seq<Seq<T>>, a: Seq<Seq<T>>) -> bool {
    &&& has_shape(x, a.len() as int, a.len() as int)
    &&& product(a, x) == identity::<T>(a.len())
    &&& product(x, a) == identity::<T>(a.len())
}

/// Whether the square table `a` has an inverse.
pub open spec fn is_invertible<T: Scalar>(a: Seq<Seq<T>>) -> bool {
    exists|x: Seq<Seq<T>>| is_inverse_of(x, a)
}

/// A decomposed table takes no two vectors to the same vector.
pub proof fn lemma_decomposed_injective<T: Field>(
    a: Seq<Seq<T>>,
    f: Seq<Seq<T>>,
    p: Seq<usize>,
    u: Seq<T>,
    v: Seq<T>,
)
    requires
        a.len() > 0,
        has_shape(a, a.len() as int, a.len() as int),
        decomposes(a, f, p),
        u.len() == a.len(),
        v.len() == a.len(),
        apply(a, u) == apply(a, v),
    ensures
        u == v,
{
    let n = a.len() as int;
    let pa = permuted(a, p);
    assert forall|i: int| 0 <= i < n implies #[trigger] apply(pa, u)[i] == apply(pa, v)[i] by {
        let r = p[i] as int;
        assert(apply(a, u)[r] == dot(a[r], u, 0, n));
        assert(apply(a, v)[r] == dot(a[r], v, 0, n));
    }
    assert(apply(pa, u) =~= apply(pa, v));
    assert(has_shape(upper(f), n, n));
    lemma_apply_product(lower(f), upper(f), u);
    lemma_apply_product(lower(f), upper(f), v);
    lemma_lower_injective(f, apply(upper(f), u), apply(upper(f), v));
    lemma_upper_injective(f, u, v);
}

/// The solution for column `j` is the vector that the decomposed table
/// takes to column `j` of the identity.
pub proof fn lemma_solution<T: Field>(a: Seq<Seq<T>>, f: Seq<Seq<T>>, p: Seq<usize>, j: int)
    requires
        a.len() > 0,
        has_shape(a, a.len() as int, a.len() as int),
        decomposes(a, f, p),
        0 <= j < a.len(),
    ensures
        solution(f, p, j).len() == a.len(),
        apply(a, solution(f, p, j)) == column(identity::<T>(a.len()), j),
{
    let n = a.len() as int;
    let y = forward(f, p, j, n);
    let x = solution(f, p, j);
    lemma_forward_solves(f, p, j);
    lemma_backward_inverts_upper(f, y);
    assert(x == backward(f, y, 0));
    assert(has_shape(upper(f), n, n));
    lemma_apply_product(lower(f), upper(f), x);
    let pa = permuted(a, p);
    assert(apply(pa, x) == picks::<T>(p, j));
    let e = column(identity::<T>(a.len()), j);
    assert forall|r: int| 0 <= r < n implies #[trigger] apply(a, x)[r] == e[r] by {
        assert(occurs(p, r));
        let i = choose|i: int| 0 <= i < p.len() && #[trigger] p[i] == r;
        assert(apply(pa, x)[i] == dot(pa[i], x, 0, n));
        assert(pa[i] == a[r]);
        assert(picks::<T>(p, j)[i] == identity::<T>(a.len())[r][j]);
    }
    assert(apply(a, x) =~= e);
}

/// The substituted table is a right inverse of the decomposed table.
pub proof fn lemma_right_inverse<T: Field>(a: Seq<Seq<T>>, f: Seq<Seq<T>>, p: Seq<usize>)
    requires
        a.len() > 0,
        has_shape(a, a.len() as int, a.len() as int),
        decomposes(a, f, p),
    ensures
        has_shape(substituted(f, p), a.len() as int, a.len() as int),
        product(a, substituted(f, p)) == identity::<T>(a.len()),
{
    let n = a.len() as int;
    let x = substituted(f, p);
    let id = identity::<T>(a.len());
    assert(has_shape(x, n, n));
    assert(x[0].len() == n);
    assert forall|i: int, j: int| 0 <= i < n && 0 <= j < n implies #[trigger] product(a, x)[i][j]
        == id[i][j] by {
        lemma_solution(a, f, p, j);
        assert(column(x, j) =~= solution(f, p, j));
        assert(apply(a, solution(f, p, j))[i] == dot(a[i], solution(f, p, j), 0, n));
        assert(column(id, j)[i] == id[i][j]);
    }
    assert(product(a, x) =~~= id);
}

/// A right inverse of a decomposed table is a left inverse too.
pub proof fn lemma_left_inverse<T: Field>(a: Seq<Seq<T>>, f: Seq<Seq<T>>, p: Seq<usize>, x: Seq<Seq<T>>)
    requires
        a.len() > 0,
        has_shape(a, a.len() as int, a.len() as int),
        decomposes(a, f, p),
        has_shape(x, a.len() as int, a.len() as int),
        product(a, x) == identity::<T>(a.len()),
    ensures
        product(x, a) == identity::<T>(a.len()),
{
    let n = a.len() as int;
    let id = identity::<T>(a.len());
    assert(a[0].len() == n);
    assert forall|i: int, c: int| 0 <= i < n && 0 <= c < n implies #[trigger] product(x, a)[i][c]
        == id[i][c] by {
        let col = column(a, c);
        let z = column(product(x, a), c);
        lemma_product_column(x, a, c);
        lemma_apply_product(a, x, col);
        lemma_apply_identity(col);
        let e = column(id, c);
        lemma_apply_unit(a, n, c);
        assert(apply(a, z) == apply(a, e));
        lemma_decomposed_injective(a, f, p, z, e);
        assert(z[i] == product(x, a)[i][c]);
        assert(e[i] == id[i][c]);
    }
    assert(product(x, a) =~~= id);
}

/// What inversion returns is the inverse: its product with the inverted
/// table, taken either way round, is the identity.
pub proof fn lemma_inverse_is_inverse<T: Field>(a: Seq<Seq<T>>)
    requires
        is_square(a),
        a.len() <= usize::MAX,
    ensures
        inverse(a) matches Some(x) ==> is_inverse_of(x, a),
{
    lemma_lup_decomposes(a);
    match lup(a) {
        None => {},
        Some((f, p)) => {
            lemma_right_inverse(a, f, p);
            lemma_left_inverse(a, f, p, substituted(f, p));
        },
    }
}

/// Inversion returns `None` for a square table that has no inverse.
pub proof fn lemma_singular_gives_none<T: Field>(a: Seq<Seq<T>>)
    requires
        is_square(a),
        a.len() <= usize::MAX,
        !is_invertible(a),
    ensures
        inverse(a) is None,
{
    lemma_inverse_is_inverse(a);
}

/// A table that takes a vector other than zero to zero has no inverse.
pub proof fn lemma_singular_not_invertible<T: Field>(a: Seq<Seq<T>>)
    requires
        is_square(a),
        is_singular(a),
    ensures
        !is_invertible(a),
{
    if is_invertible(a) {
        let x = choose|x: Seq<Seq<T>>| is_inverse_of(x, a);
        let v = choose|v: Seq<T>| is_null_vector(a, v);
        lemma_apply_product(x, a, v);
        lemma_apply_identity(v);
        lemma_apply_zeros(x, a.len());
        assert(v == zeros::<T>(a.len()));
    }
}

/// A table has at most one inverse.
pub proof fn lemma_inverse_unique<T: Field>(a: Seq<Seq<T>>, x: Seq<Seq<T>>, y: Seq<Seq<T>>)
    requires
        is_square(a),
        is_inverse_of(x, a),
        is_inverse_of(y, a),
    ensures
        x == y,
{
    let n = a.len() as int;
    let id = identity::<T>(a.len());
    assert forall|i: int, c: int| 0 <= i < n && 0 <= c < n implies #[trigger] x[i][c] == y[i][c] by {
        let u = column(x, c);
        let v = column(y, c);
        lemma_product_column(a, x, c);
        lemma_product_column(a, y, c);
        assert(apply(a, u) == apply(a, v));
        lemma_apply_product(x, a, u);
        lemma_apply_product(x, a, v);
        lemma_apply_identity(u);
        lemma_apply_identity(v);
        assert(u[i] == v[i]);
    }
    assert(x =~~= y);
}

/// Inversion finds the inverse of every square table that has one.
pub proof fn lemma_invertible_is_inverted<T: Field>(a: Seq<Seq<T>>)
    requires
        is_square(a),
        a.len() <= usize::MAX,
        is_invertible(a),
    ensures
        inverse(a) matches Some(x) && is_inverse_of(x, a),
{
    lemma_lup_decomposes(a);
    lemma_inverse_is_inverse(a);
    if lup(a) is None {
        lemma_singular_not_invertible(a);
    }
}

/// Inverting the inverse gives the table back.
pub proof fn lemma_double_inverse<T: Field>(a: Seq<Seq<T>>)
    requires
        is_square(a),
        a.len() <= usize::MAX,
    ensures
        inverse(a) matches Some(x) ==> inverse(x) == Some(a),
{
    lemma_inverse_is_inverse(a);
    match inverse(a) {
        None => {},
        Some(x) => {
            assert(is_square(x));
            assert(is_inverse_of(a, x));
            lemma_invertible_is_inverted(x);
            lemma_inverse_unique(x, inverse(x).unwrap(), a);
        },
    }
}

} // verus!
