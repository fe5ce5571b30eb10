//! Vectors and tables over a scalar: dot products, the product of a table
//! with a vector and with a table, and the laws that hold of them over a
//! field.

use crate::field::{
    lemma_add_interchange, lemma_mul_distributive_right, lemma_mul_zero, lemma_one_mul,
    lemma_zero_add, Field,
};
use crate::matrix::{grid, identity};
use crate::scalar::Scalar;
use vstd::prelude::*;

verus! {

/// The sum of the products `u[t] * v[t]` for `t` from `lo` to `hi - 1`.
pub open spec fn dot<T: Scalar>(u: Seq<T>, v: Seq<T>, lo: int, hi: int) -> T
    decreases hi - lo,
{
    if hi <= lo {
        T::zero_value()
    } else {
        dot(u, v, lo, hi - 1).add_spec(u[hi - 1].mul_spec(v[hi - 1]))
    }
}

/// Column `j` of the table `m`.
pub open spec fn column<T>(m: Seq<Seq<T>>, j: int) -> Seq<T> {
    Seq::new(m.len(), |i: int| m[i][j])
}

/// The vector of `n` zeros.
pub open spec fn zeros<T: Scalar>(n: nat) -> Seq<T> {
    Seq::new(n, |i: int| T::zero_value())
}

/// The vector `s + c * w`, entry by entry.
pub open spec fn axpy<T: Scalar>(s: Seq<T>, c: T, w: Seq<T>) -> Seq<T> {
    Seq::new(s.len(), |t: int| s[t].add_spec(c.mul_spec(w[t])))
}

/// The product of the table `m` with the column vector `v`.
pub open spec fn apply<T: Scalar>(m: Seq<Seq<T>>, v: Seq<T>) -> Seq<T> {
    Seq::new(m.len(), |i: int| dot(m[i], v, 0, v.len() as int))
}

/// The product of the tables `a` and `b`.
pub open spec fn product<T: Scalar>(a: Seq<Seq<T>>, b: Seq<Seq<T>>) -> Seq<Seq<T>> {
    grid(a.len(), b[0].len(), |i: int, j: int| dot(a[i], column(b, j), 0, b.len() as int))
}

/// Whether `m` has `rows` rows of `cols` entries each.
pub open spec fn has_shape<T>(m: Seq<Seq<T>>, rows: int, cols: int) -> bool {
    &&& m.len() == rows
    &&& forall|i: int| 0 <= i < rows ==> #[trigger] m[i].len() == cols
}

/// Dot products over vectors that agree on the range are equal.
pub proof fn lemma_dot_same<T: Scalar>(u: Seq<T>, v: Seq<T>, u2: Seq<T>, v2: Seq<T>, lo: int, hi: int)
    requires
        forall|t: int| lo <= t < hi ==> #[trigger] u[t] == u2[t],
        forall|t: int| lo <= t < hi ==> #[trigger] v[t] == v2[t],
    ensures
        dot(u, v, lo, hi) == dot(u2, v2, lo, hi),
    decreases hi - lo,
{
    if hi > lo {
        lemma_dot_same(u, v, u2, v2, lo, hi - 1);
        assert(u[hi - 1] == u2[hi - 1]);
        assert(v[hi - 1] == v2[hi - 1]);
    }
}

/// A dot product whose left factors are all zero is zero.
pub proof fn lemma_dot_zero_left<T: Field>(u: Seq<T>, v: Seq<T>, lo: int, hi: int)
    requires
        forall|t: int| lo <= t < hi ==> #[trigger] u[t] == T::zero_value(),
    ensures
        dot(u, v, lo, hi) == T::zero_value(),
    decreases hi - lo,
{
    if hi > lo {
        lemma_dot_zero_left(u, v, lo, hi - 1);
        assert(u[hi - 1] == T::zero_value());
        lemma_mul_zero(v[hi - 1]);
        T::lemma_add_zero(T::zero_value());
    }
}

/// A dot product whose right factors are all zero is zero.
pub proof fn lemma_dot_zero_right<T: Field>(u: Seq<T>, v: Seq<T>, lo: int, hi: int)
    requires
        forall|t: int| lo <= t < hi ==> #[trigger] v[t] == T::zero_value(),
    ensures
        dot(u, v, lo, hi) == T::zero_value(),
    decreases hi - lo,
{
    if hi > lo {
        lemma_dot_zero_right(u, v, lo, hi - 1);
        assert(v[hi - 1] == T::zero_value());
        lemma_mul_zero(u[hi - 1]);
        T::lemma_add_zero(T::zero_value());
    }
}

/// A dot product over a range is the sum of the dot products over its two parts.
pub proof fn lemma_dot_split<T: Field>(u: Seq<T>, v: Seq<T>, lo: int, mid: int, hi: int)
    requires
        lo <= mid <= hi,
    ensures
        dot(u, v, lo, hi) == dot(u, v, lo, mid).add_spec(dot(u, v, mid, hi)),
    decreases hi - mid,
{
    if hi == mid {
        T::lemma_add_zero(dot(u, v, lo, mid));
    } else {
        lemma_dot_split(u, v, lo, mid, hi - 1);
        T::lemma_add_associative(dot(u, v, lo, mid), dot(u, v, mid, hi - 1), u[hi - 1].mul_spec(v[hi - 1]));
    }
}

/// A dot product is its first term plus the dot product of the rest.
pub proof fn lemma_dot_first<T: Field>(u: Seq<T>, v: Seq<T>, lo: int, hi: int)
    requires
        lo < hi,
    ensures
        dot(u, v, lo, hi) == u[lo].mul_spec(v[lo]).add_spec(dot(u, v, lo + 1, hi)),
{
    lemma_dot_split(u, v, lo, lo + 1, hi);
    assert(dot(u, v, lo, lo) == T::zero_value());
    assert(dot(u, v, lo, lo + 1) == dot(u, v, lo, lo).add_spec(u[lo].mul_spec(v[lo])));
    lemma_zero_add(u[lo].mul_spec(v[lo]));
}

/// The dot product with a vector that is one at `c` and zero elsewhere
/// picks the entry at `c`.
pub proof fn lemma_dot_pick_left<T: Field>(u: Seq<T>, v: Seq<T>, c: int, lo: int, hi: int)
    requires
        lo <= c < hi,
        u[c] == T::one_value(),
        forall|t: int| lo <= t < hi && t != c ==> #[trigger] u[t] == T::zero_value(),
    ensures
        dot(u, v, lo, hi) == v[c],
{
    lemma_dot_split(u, v, lo, c, hi);
    lemma_dot_first(u, v, c, hi);
    lemma_dot_zero_left(u, v, lo, c);
    lemma_dot_zero_left(u, v, c + 1, hi);
    lemma_one_mul(v[c]);
    T::lemma_add_zero(v[c]);
    lemma_zero_add(v[c]);
}

/// The same with the factors exchanged.
pub proof fn lemma_dot_pick_right<T: Field>(u: Seq<T>, v: Seq<T>, c: int, lo: int, hi: int)
    requires
        lo <= c < hi,
        v[c] == T::one_value(),
        forall|t: int| lo <= t < hi && t != c ==> #[trigger] v[t] == T::zero_value(),
    ensures
        dot(u, v, lo, hi) == u[c],
{
    lemma_dot_split(u, v, lo, c, hi);
    lemma_dot_first(u, v, c, hi);
    lemma_dot_zero_right(u, v, lo, c);
    lemma_dot_zero_right(u, v, c + 1, hi);
    T::lemma_mul_one(u[c]);
    T::lemma_add_zero(u[c]);
    lemma_zero_add(u[c]);
}

/// The dot product is linear in its left factor.
pub proof fn lemma_dot_axpy<T: Field>(s: Seq<T>, c: T, w: Seq<T>, v: Seq<T>, m: int)
    requires
        0 <= m <= s.len(),
    ensures
        dot(axpy(s, c, w), v, 0, m) == dot(s, v, 0, m).add_spec(c.mul_spec(dot(w, v, 0, m))),
    decreases m,
{
    if m == 0 {
        lemma_mul_zero(c);
        T::lemma_add_zero(T::zero_value());
    } else {
        lemma_dot_axpy(s, c, w, v, m - 1);
        let t = m - 1;
        let ds = dot(s, v, 0, t);
        let dw = dot(w, v, 0, t);
        assert(axpy(s, c, w)[t] == s[t].add_spec(c.mul_spec(w[t])));
        lemma_mul_distributive_right(s[t], c.mul_spec(w[t]), v[t]);
        T::lemma_mul_associative(c, w[t], v[t]);
        lemma_add_interchange(ds, c.mul_spec(dw), s[t].mul_spec(v[t]), c.mul_spec(w[t].mul_spec(v[t])));
        T::lemma_mul_distributive(c, dw, w[t].mul_spec(v[t]));
    }
}

/// A row of a product times a vector is the row times the product of the
/// other table with the vector, for the first `k` entries of the row.
proof fn lemma_row_associative<T: Field>(r: Seq<T>, b: Seq<Seq<T>>, v: Seq<T>, k: int)
    requires
        0 <= k <= b.len(),
        has_shape(b, b.len() as int, v.len() as int),
    ensures
        dot(Seq::new(v.len(), |c: int| dot(r, column(b, c), 0, k)), v, 0, v.len() as int) == dot(
            r,
            apply(b, v),
            0,
            k,
        ),
    decreases k,
{
    let m = v.len() as int;
    let now = Seq::new(v.len(), |c: int| dot(r, column(b, c), 0, k));
    if k == 0 {
        lemma_dot_zero_left(now, v, 0, m);
    } else {
        lemma_row_associative(r, b, v, k - 1);
        let before = Seq::new(v.len(), |c: int| dot(r, column(b, c), 0, k - 1));
        assert(now =~= axpy(before, r[k - 1], b[k - 1]));
        lemma_dot_axpy(before, r[k - 1], b[k - 1], v, m);
    }
}

/// `(a * b) * v == a * (b * v)`.
pub proof fn lemma_apply_product<T: Field>(a: Seq<Seq<T>>, b: Seq<Seq<T>>, v: Seq<T>)
    requires
        b.len() > 0,
        has_shape(b, b.len() as int, v.len() as int),
    ensures
        apply(product(a, b), v) == apply(a, apply(b, v)),
{
    assert forall|i: int| 0 <= i < a.len() implies #[trigger] apply(product(a, b), v)[i] == apply(
        a,
        apply(b, v),
    )[i] by {
        lemma_row_associative(a[i], b, v, b.len() as int);
        assert(product(a, b)[i] =~= Seq::new(v.len(), |c: int| dot(a[i], column(b, c), 0, b.len() as int)));
    }
    assert(apply(product(a, b), v) =~= apply(a, apply(b, v)));
}

/// A column of a product is the left table applied to the column of the
/// right table.
pub proof fn lemma_product_column<T: Scalar>(a: Seq<Seq<T>>, b: Seq<Seq<T>>, j: int)
    requires
        0 <= j < b[0].len(),
    ensures
        column(product(a, b), j) == apply(a, column(b, j)),
{
    assert(column(product(a, b), j) =~= apply(a, column(b, j)));
}

/// The identity applied to a vector is the vector.
pub proof fn lemma_apply_identity<T: Field>(v: Seq<T>)
    ensures
        apply(identity::<T>(v.len()), v) == v,
{
    let n = v.len() as int;
    let id = identity::<T>(v.len());
    assert forall|i: int| 0 <= i < n implies #[trigger] apply(id, v)[i] == v[i] by {
        assert forall|t: int| 0 <= t < n && t != i implies #[trigger] id[i][t] == T::zero_value() by {}
        assert(id[i][i] == T::one_value());
        lemma_dot_pick_left(id[i], v, i, 0, n);
    }
    assert(apply(id, v) =~= v);
}

/// A table applied to column `c` of the identity is its column `c`.
pub proof fn lemma_apply_unit<T: Field>(a: Seq<Seq<T>>, n: int, c: int)
    requires
        0 <= c < n,
    ensures
        apply(a, column(identity::<T>(n as nat), c)) == column(a, c),
{
    let e = column(identity::<T>(n as nat), c);
    assert forall|i: int| 0 <= i < a.len() implies #[trigger] apply(a, e)[i] == column(a, c)[i] by {
        assert forall|t: int| 0 <= t < n && t != c implies #[trigger] e[t] == T::zero_value() by {
            assert(identity::<T>(n as nat)[t][c] == T::zero_value());
        }
        assert(identity::<T>(n as nat)[c][c] == T::one_value());
        lemma_dot_pick_right(a[i], e, c, 0, n);
    }
    assert(apply(a, e) =~= column(a, c));
}

/// A table applied to the zero vector is the zero vector.
pub proof fn lemma_apply_zeros<T: Field>(m: Seq<Seq<T>>, n: nat)
    ensures
        apply(m, zeros::<T>(n)) == zeros::<T>(m.len()),
{
    let z = zeros::<T>(n);
    assert forall|i: int| 0 <= i < m.len() implies #[trigger] apply(m, z)[i] == T::zero_value() by {
        lemma_dot_zero_right(m[i], z, 0, n as int);
    }
    assert(apply(m, z) =~= zeros::<T>(m.len()));
}

/// Whether `v` is a vector other than zero that the table `a` takes to zero.
pub open spec fn is_null_vector<T: Scalar>(a: Seq<Seq<T>>, v: Seq<T>) -> bool {
    &&& v.len() == a.len()
    &&& v != zeros::<T>(a.len())
    &&& apply(a, v) == zeros::<T>(a.len())
}

/// Whether the table `a` takes some vector other than zero to zero.
pub open spec fn is_singular<T: Scalar>(a: Seq<Seq<T>>) -> bool {
    exists|v: Seq<T>| is_null_vector(a, v)
}

} // verus!
