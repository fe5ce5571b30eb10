//! What the decomposition's result is, over a field: the rows of the
//! decomposed table, in the order that pivoting chose, are the product of a
//! unit lower triangular table and an upper triangular one.

use crate::field::{lemma_add_sub_same, lemma_zero_add, Field};
use crate::inverse::backward;
use crate::linear::{
    apply, column, dot, has_shape, is_null_vector, is_singular, lemma_apply_product,
    lemma_apply_zeros, lemma_dot_first, lemma_dot_pick_left, lemma_dot_same, lemma_dot_split,
    lemma_dot_zero_left, lemma_dot_zero_right, product, zeros,
};
use crate::solving::lemma_backward_solves;
use crate::lup::{eliminated, identity_order, lup, lup_from, nonzero_diagonal, pivot_scan};
use crate::matrix::swapped;
use crate::scalar::Scalar;
use vstd::prelude::*;

verus! {

/// The least of three integers.
pub open spec fn least(i: int, j: int, k: int) -> int {
    if i <= j && i <= k {
        i
    } else if j <= k {
        j
    } else {
        k
    }
}

/// Whether `r` is an entry of `p`.
pub open spec fn occurs(p: Seq<usize>, r: int) -> bool {
    exists|i: int| 0 <= i < p.len() && #[trigger] p[i] == r
}

/// Whether `p` is an order of the rows `0` to `n - 1`: it has `n` entries,
/// each below `n`, and every row occurs in it.
pub open spec fn is_order(p: Seq<usize>, n: int) -> bool {
    &&& p.len() == n
    &&& forall|i: int| 0 <= i < n ==> #[trigger] p[i] < n
    &&& forall|r: int| 0 <= r < n ==> #[trigger] occurs(p, r)
}

/// The rows of `a` in the order `p`.
pub open spec fn permuted<T>(a: Seq<Seq<T>>, p: Seq<usize>) -> Seq<Seq<T>> {
    Seq::new(p.len(), |i: int| a[p[i] as int])
}

/// The unit lower triangular factor held in the first `k` columns of the
/// working table `w`: its multipliers below the diagonal, ones on it.
pub open spec fn lower_part<T: Scalar>(w: Seq<Seq<T>>, k: int) -> Seq<Seq<T>> {
    Seq::new(
        w.len(),
        |i: int|
            Seq::new(
                w.len(),
                |t: int|
                    if t < i && t < k {
                        w[i][t]
                    } else if t == i {
                        T::one_value()
                    } else {
                        T::zero_value()
                    },
            ),
    )
}

/// What is left of the working table `w` when the multipliers in its first
/// `k` columns are taken out.
pub open spec fn upper_part<T: Scalar>(w: Seq<Seq<T>>, k: int) -> Seq<Seq<T>> {
    Seq::new(
        w.len(),
        |t: int|
            Seq::new(
                w.len(),
                |j: int|
                    if j < t && j < k {
                        T::zero_value()
                    } else {
                        w[t][j]
                    },
            ),
    )
}

/// The factor L of the combined factors `f`.
pub open spec fn lower<T: Scalar>(f: Seq<Seq<T>>) -> Seq<Seq<T>> {
    lower_part(f, f.len() as int)
}

/// The factor U of the combined factors `f`.
pub open spec fn upper<T: Scalar>(f: Seq<Seq<T>>) -> Seq<Seq<T>> {
    upper_part(f, f.len() as int)
}

/// The entry in row `i` and column `j` of the product of the two parts of
/// `w`, written out over the entries that are not zero.
pub open spec fn entry_form<T: Scalar>(w: Seq<Seq<T>>, i: int, j: int, k: int) -> T {
    dot(w[i], column(w, j), 0, least(i, j, k)).add_spec(
        if j < i && j < k {
            w[i][j].mul_spec(w[j][j])
        } else {
            w[i][j]
        },
    )
}

/// Whether the working table `w`, after `k` columns, stands for the rows of
/// `a` in the order `p`.
pub open spec fn stands_for<T: Scalar>(a: Seq<Seq<T>>, w: Seq<Seq<T>>, p: Seq<usize>, k: int) -> bool {
    forall|i: int, j: int|
        0 <= i < a.len() && 0 <= j < a.len() ==> a[p[i] as int][j] == #[trigger] entry_form(w, i, j, k)
}

pub proof fn lemma_order_swapped(p: Seq<usize>, n: int, a: int, b: int)
    requires
        is_order(p, n),
        0 <= a < n,
        0 <= b < n,
    ensures
        is_order(swapped(p, a, b), n),
{
    let q = swapped(p, a, b);
    assert forall|r: int| 0 <= r < n implies #[trigger] occurs(q, r) by {
        assert(occurs(p, r));
        let i = choose|i: int| 0 <= i < p.len() && #[trigger] p[i] == r;
        let i2 = if i == a {
            b
        } else if i == b {
            a
        } else {
            i
        };
        assert(q[i2] == r);
    }
}

pub proof fn lemma_identity_order(n: nat)
    requires
        n <= usize::MAX,
    ensures
        is_order(identity_order(n), n as int),
{
    let p = identity_order(n);
    assert forall|r: int| 0 <= r < n implies #[trigger] occurs(p, r) by {
        assert(p[r] == r);
    }
}

/// The pivot search stays within the rows it has looked at, and what it
/// holds is zero or the magnitude of the entry it points at.
pub proof fn lemma_pivot_scan<T: Scalar>(w: Seq<Seq<T>>, k: int, r: int)
    requires
        k <= r,
    ensures
        k <= pivot_scan(w, k, r).1,
        pivot_scan(w, k, r).1 < r || pivot_scan(w, k, r).1 == k,
        pivot_scan(w, k, r).0 == T::zero_value() || pivot_scan(w, k, r).0 == w[pivot_scan(w, k, r).1][k].abs_spec(),
    decreases r - k,
{
    if r > k {
        lemma_pivot_scan(w, k, r - 1);
    }
}

proof fn lemma_stands_for_start<T: Field>(a: Seq<Seq<T>>)
    requires
        a.len() <= usize::MAX,
    ensures
        stands_for(a, a, identity_order(a.len()), 0),
{
    let p = identity_order(a.len());
    assert forall|i: int, j: int| 0 <= i < a.len() && 0 <= j < a.len() implies a[p[i] as int][j]
        == #[trigger] entry_form(a, i, j, 0) by {
        assert(p[i] == i);
        lemma_zero_add(a[i][j]);
        assert(least(i, j, 0) == 0);
    }
}

proof fn lemma_stands_for_swapped<T: Field>(a: Seq<Seq<T>>, w: Seq<Seq<T>>, p: Seq<usize>, k: int, at: int)
    requires
        has_shape(w, a.len() as int, a.len() as int),
        p.len() == a.len(),
        0 <= k <= at < a.len(),
        stands_for(a, w, p, k),
    ensures
        stands_for(a, swapped(w, k, at), swapped(p, k, at), k),
{
    let ws = swapped(w, k, at);
    let ps = swapped(p, k, at);
    assert forall|i: int, j: int| 0 <= i < a.len() && 0 <= j < a.len() implies a[ps[i] as int][j]
        == #[trigger] entry_form(ws, i, j, k) by {
        let i0 = if i == k {
            at
        } else if i == at {
            k
        } else {
            i
        };
        assert(a[p[i0] as int][j] == entry_form(w, i0, j, k));
        assert(ps[i] == p[i0]);
        assert(ws[i] == w[i0]);
        let m = least(i, j, k);
        assert(m == least(i0, j, k));
        assert forall|t: int| 0 <= t < m implies #[trigger] column(ws, j)[t] == column(w, j)[t] by {
            assert(ws[t] == w[t]);
        }
        lemma_dot_same(ws[i], column(ws, j), w[i0], column(w, j), 0, m);
        if j < k {
            assert(ws[j] == w[j]);
        }
    }
}

proof fn lemma_stands_for_eliminated<T: Field>(a: Seq<Seq<T>>, w: Seq<Seq<T>>, p: Seq<usize>, k: int)
    requires
        has_shape(w, a.len() as int, a.len() as int),
        p.len() == a.len(),
        0 <= k < a.len(),
        w[k][k] != T::zero_value(),
        stands_for(a, w, p, k),
    ensures
        stands_for(a, eliminated(w, k), p, k + 1),
{
    let e = eliminated(w, k);
    assert forall|i: int, j: int| 0 <= i < a.len() && 0 <= j < a.len() implies a[p[i] as int][j]
        == #[trigger] entry_form(e, i, j, k + 1) by {
        assert(a[p[i] as int][j] == entry_form(w, i, j, k));
        let m = least(i, j, k);
        assert forall|t: int| 0 <= t < m implies #[trigger] column(e, j)[t] == column(w, j)[t] by {
            assert(e[t] == w[t]);
        }
        assert forall|t: int| 0 <= t < m implies #[trigger] e[i][t] == w[i][t] by {}
        lemma_dot_same(e[i], column(e, j), w[i], column(w, j), 0, m);
        let d = dot(w[i], column(w, j), 0, m);
        assert(e[k] == w[k]);
        if i > k {
            let q = w[i][k].div_spec(w[k][k]);
            assert(e[i][k] == q);
            if j > k {
                assert(least(i, j, k + 1) == k + 1);
                assert(m == k);
                assert(column(e, j)[k] == w[k][j]);
                assert(dot(e[i], column(e, j), 0, k + 1) == d.add_spec(q.mul_spec(w[k][j])));
                assert(e[i][j] == w[i][j].sub_spec(q.mul_spec(w[k][j])));
                lemma_add_sub_same(d, q.mul_spec(w[k][j]), w[i][j]);
            } else if j == k {
                assert(least(i, j, k + 1) == k);
                T::lemma_div_then_mul(w[i][k], w[k][k]);
            } else {
                assert(least(i, j, k + 1) == j);
                assert(e[j] == w[j]);
                assert(e[i][j] == w[i][j]);
            }
        } else {
            assert(least(i, j, k + 1) == m);
            assert(e[i] == w[i]);
            if j < i {
                assert(e[j] == w[j]);
            }
        }
    }
}

/// The entry form is the entry of the product of the two parts.
proof fn lemma_entry_form<T: Field>(w: Seq<Seq<T>>, i: int, j: int, k: int)
    requires
        has_shape(w, w.len() as int, w.len() as int),
        0 <= i < w.len(),
        0 <= j < w.len(),
        0 <= k <= w.len(),
    ensures
        product(lower_part(w, k), upper_part(w, k))[i][j] == entry_form(w, i, j, k),
{
    let n = w.len() as int;
    let lo = lower_part(w, k);
    let up = upper_part(w, k);
    let row = lo[i];
    let col = column(up, j);
    assert(up[0].len() == n);
    assert(product(lo, up)[i][j] == dot(row, col, 0, n));
    let m = least(i, j, k);
    assert forall|t: int| 0 <= t < m implies #[trigger] row[t] == w[i][t] by {}
    assert forall|t: int| 0 <= t < m implies #[trigger] col[t] == column(w, j)[t] by {
        assert(up[t][j] == w[t][j]);
    }
    lemma_dot_same(row, col, w[i], column(w, j), 0, m);
    lemma_dot_split(row, col, 0, m, n);
    if j < i && j < k {
        assert(m == j);
        lemma_dot_first(row, col, j, n);
        assert forall|t: int| j + 1 <= t < n implies #[trigger] col[t] == T::zero_value() by {
            assert(up[t][j] == T::zero_value());
        }
        lemma_dot_zero_right(row, col, j + 1, n);
        assert(row[j] == w[i][j]);
        assert(col[j] == up[j][j]);
        assert(up[j][j] == w[j][j]);
        T::lemma_add_zero(w[i][j].mul_spec(w[j][j]));
    } else {
        assert(m <= i);
        assert(row[i] == T::one_value());
        assert forall|t: int| m <= t < n && t != i implies #[trigger] row[t] == T::zero_value() by {}
        lemma_dot_pick_left(row, col, i, m, n);
        assert(col[i] == up[i][j]);
        assert(up[i][j] == w[i][j]);
    }
}

/// A working table that stands for the rows of `a` has parts whose product
/// is those rows.
pub proof fn lemma_parts_product<T: Field>(a: Seq<Seq<T>>, w: Seq<Seq<T>>, p: Seq<usize>, k: int)
    requires
        a.len() > 0,
        has_shape(a, a.len() as int, a.len() as int),
        has_shape(w, a.len() as int, a.len() as int),
        is_order(p, a.len() as int),
        0 <= k <= a.len(),
        stands_for(a, w, p, k),
    ensures
        product(lower_part(w, k), upper_part(w, k)) == permuted(a, p),
{
    let n = a.len() as int;
    let l = product(lower_part(w, k), upper_part(w, k));
    let r = permuted(a, p);
    assert(upper_part(w, k)[0].len() == n);
    assert forall|i: int, j: int| 0 <= i < n && 0 <= j < n implies #[trigger] l[i][j] == r[i][j] by {
        lemma_entry_form(w, i, j, k);
        assert(a[p[i] as int][j] == entry_form(w, i, j, k));
    }
    assert forall|i: int| 0 <= i < n implies #[trigger] l[i] =~= r[i] by {
        assert(p[i] < n);
    }
    assert(l =~= r);
}

/// Whether the combined factors `f` and the order `p` decompose the square
/// table `a`: `p` is an order of its rows, no pivot is zero, and the product
/// of the two factors is the rows of `a` in that order.
pub open spec fn decomposes<T: Scalar>(a: Seq<Seq<T>>, f: Seq<Seq<T>>, p: Seq<usize>) -> bool {
    &&& has_shape(f, a.len() as int, a.len() as int)
    &&& is_order(p, a.len() as int)
    &&& nonzero_diagonal(f)
    &&& product(lower(f), upper(f)) == permuted(a, p)
}

/// A search that ends on magnitude zero has seen nothing but zeros.
pub proof fn lemma_pivot_scan_zero<T: Field>(w: Seq<Seq<T>>, k: int, r: int)
    requires
        k <= r,
    ensures
        pivot_scan(w, k, r).0 == T::zero_value() || pivot_scan(w, k, r).0.gt_spec(T::zero_value()),
        pivot_scan(w, k, r).0 == T::zero_value() ==> forall|t: int|
            k <= t < r ==> #[trigger] w[t][k] == T::zero_value(),
    decreases r - k,
{
    if r > k {
        lemma_pivot_scan_zero(w, k, r - 1);
        let zero = T::zero_value();
        let (best, at) = pivot_scan(w, k, r - 1);
        let x = w[r - 1][k];
        let m = x.abs_spec();
        if x == zero {
            T::lemma_abs_zero();
            if m.gt_spec(best) {
                if best == zero {
                    T::lemma_gt_asymmetric(zero, zero);
                } else {
                    T::lemma_gt_asymmetric(best, zero);
                }
            }
        } else {
            T::lemma_abs_positive(x);
            if m == zero {
                T::lemma_gt_asymmetric(zero, zero);
            }
        }
    }
}

/// Where column `k` has no pivot other than zero, the decomposed table
/// takes a vector other than zero to zero.
proof fn lemma_no_pivot<T: Field>(a: Seq<Seq<T>>, w: Seq<Seq<T>>, p: Seq<usize>, k: int)
    requires
        a.len() > 0,
        has_shape(a, a.len() as int, a.len() as int),
        has_shape(w, a.len() as int, a.len() as int),
        is_order(p, a.len() as int),
        0 <= k < a.len(),
        stands_for(a, w, p, k),
        forall|t: int| 0 <= t < k ==> #[trigger] w[t][t] != T::zero_value(),
        forall|t: int| k <= t < a.len() ==> #[trigger] w[t][k] == T::zero_value(),
    ensures
        is_singular(a),
{
    let n = a.len() as int;
    let zero = T::zero_value();
    let one = T::one_value();
    let rhs = Seq::new(k as nat, |t: int| zero.sub_spec(w[t][k]));
    let z = backward(w, rhs, 0);
    lemma_backward_solves(w, rhs, 0);
    let v = Seq::new(
        n as nat,
        |c: int|
            if c < k {
                z[c]
            } else if c == k {
                one
            } else {
                zero
            },
    );
    let lo = lower_part(w, k);
    let up = upper_part(w, k);
    assert forall|t: int| 0 <= t < n implies #[trigger] apply(up, v)[t] == zero by {
        let row = up[t];
        assert(apply(up, v)[t] == dot(row, v, 0, n));
        if t < k {
            lemma_dot_split(row, v, 0, t, n);
            assert forall|c: int| 0 <= c < t implies #[trigger] row[c] == zero by {}
            lemma_dot_zero_left(row, v, 0, t);
            lemma_zero_add(dot(row, v, t, n));
            lemma_dot_split(row, v, t, k, n);
            assert forall|c: int| t <= c < k implies #[trigger] row[c] == w[t][c] by {}
            assert forall|c: int| t <= c < k implies #[trigger] v[c] == z[c] by {}
            lemma_dot_same(row, v, w[t], z, t, k);
            lemma_dot_first(w[t], z, t, k);
            assert(w[t][t].mul_spec(z[t]).add_spec(dot(w[t], z, t + 1, k)) == rhs[t]);
            lemma_dot_first(row, v, k, n);
            assert forall|c: int| k + 1 <= c < n implies #[trigger] v[c] == zero by {}
            lemma_dot_zero_right(row, v, k + 1, n);
            assert(row[k] == w[t][k]);
            assert(v[k] == one);
            T::lemma_mul_one(w[t][k]);
            T::lemma_add_zero(w[t][k]);
            T::lemma_sub_then_add(zero, w[t][k]);
        } else {
            lemma_dot_split(row, v, 0, k + 1, n);
            assert forall|c: int| 0 <= c < k + 1 implies #[trigger] row[c] == zero by {
                assert(w[t][k] == zero);
            }
            lemma_dot_zero_left(row, v, 0, k + 1);
            assert forall|c: int| k + 1 <= c < n implies #[trigger] v[c] == zero by {}
            lemma_dot_zero_right(row, v, k + 1, n);
            T::lemma_add_zero(zero);
        }
    }
    assert(apply(up, v) =~= zeros::<T>(n as nat));
    lemma_parts_product(a, w, p, k);
    assert(has_shape(up, n, n));
    lemma_apply_product(lo, up, v);
    lemma_apply_zeros(lo, n as nat);
    let pa = permuted(a, p);
    assert(apply(pa, v) == zeros::<T>(n as nat));
    assert forall|r: int| 0 <= r < n implies #[trigger] apply(a, v)[r] == zero by {
        assert(occurs(p, r));
        let i = choose|i: int| 0 <= i < p.len() && #[trigger] p[i] == r;
        assert(apply(pa, v)[i] == dot(pa[i], v, 0, n));
        assert(pa[i] == a[r]);
    }
    assert(apply(a, v) =~= zeros::<T>(n as nat));
    T::lemma_one_not_zero();
    assert(v[k] != zeros::<T>(n as nat)[k]);
    assert(is_null_vector(a, v));
}

proof fn lemma_lup_from<T: Field>(a: Seq<Seq<T>>, w: Seq<Seq<T>>, p: Seq<usize>, k: int)
    requires
        a.len() > 0,
        has_shape(a, a.len() as int, a.len() as int),
        has_shape(w, a.len() as int, a.len() as int),
        is_order(p, a.len() as int),
        0 <= k <= a.len(),
        stands_for(a, w, p, k),
        forall|t: int| 0 <= t < k ==> #[trigger] w[t][t] != T::zero_value(),
    ensures
        lup_from(w, p, k) matches Some(fp) ==> decomposes(a, fp.0, fp.1),
        lup_from(w, p, k) is None ==> is_singular(a),
    decreases a.len() - k,
{
    let n = a.len() as int;
    if k >= n {
        lemma_parts_product(a, w, p, n);
    } else {
        let (best, at) = pivot_scan(w, k, n);
        lemma_pivot_scan(w, k, n);
        if best != T::zero_value() {
            T::lemma_abs_zero();
            let ws = swapped(w, k, at);
            let ps = swapped(p, k, at);
            lemma_stands_for_swapped(a, w, p, k, at);
            lemma_order_swapped(p, n, k, at);
            assert(ws[k][k] == w[at][k]);
            let e = eliminated(ws, k);
            lemma_stands_for_eliminated(a, ws, ps, k);
            assert forall|t: int| 0 <= t < k + 1 implies #[trigger] e[t][t] != T::zero_value() by {
                assert(e[t] == ws[t]);
                if t < k {
                    assert(ws[t] == w[t]);
                }
            }
            assert(has_shape(e, n, n));
            lemma_lup_from(a, e, ps, k + 1);
        } else {
            lemma_pivot_scan_zero(w, k, n);
            lemma_no_pivot(a, w, p, k);
        }
    }
}

/// The decomposition of a square table, where there is one, decomposes it;
/// where there is none, the table takes a vector other than zero to zero.
pub proof fn lemma_lup_decomposes<T: Field>(a: Seq<Seq<T>>)
    requires
        0 < a.len() <= usize::MAX,
        has_shape(a, a.len() as int, a.len() as int),
    ensures
        lup(a) matches Some(fp) ==> decomposes(a, fp.0, fp.1),
        lup(a) is None ==> is_singular(a),
{
    lemma_identity_order(a.len());
    lemma_stands_for_start(a);
    lemma_lup_from(a, a, identity_order(a.len()), 0);
}

} // verus!
