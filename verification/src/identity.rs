//! The inverse of the identity, for every scalar: the decomposition finds a
//! one in each column and leaves the table as it is, and so do the two
//! substitutions.

use crate::inverse::{backward, forward, inverse, solution, sub_dot, substituted};
use crate::lup::{eliminated, identity_order, lup, lup_from, pivot_scan};
use crate::matrix::{identity, swapped};
use crate::scalar::Scalar;
use vstd::prelude::*;

verus! {

/// The first `m` entries of column `j` of the identity.
pub open spec fn unit<T: Scalar>(m: nat, j: int) -> Seq<T> {
    Seq::new(
        m,
        |i: int|
            if i == j {
                T::one_value()
            } else {
                T::zero_value()
            },
    )
}

/// In column `k` of the identity the pivot search stays on the one in row `k`.
proof fn lemma_identity_pivot<T: Scalar>(n: nat, k: int, r: int)
    requires
        0 <= k < r <= n,
    ensures
        pivot_scan(identity::<T>(n), k, r) == (T::one_value().abs_spec(), k),
    decreases r - k,
{
    let id = identity::<T>(n);
    T::lemma_abs_one();
    if r == k + 1 {
        assert(pivot_scan(id, k, k) == (T::zero_value(), k));
        assert(id[k][k] == T::one_value());
    } else {
        lemma_identity_pivot::<T>(n, k, r - 1);
        assert(id[r - 1][k] == T::zero_value());
        T::lemma_abs_zero();
    }
}

/// Elimination in column `k` leaves the identity as it is.
proof fn lemma_identity_eliminated<T: Scalar>(n: nat, k: int)
    requires
        0 <= k < n,
    ensures
        eliminated(swapped(identity::<T>(n), k, k), k) == identity::<T>(n),
{
    let id = identity::<T>(n);
    assert(swapped(id, k, k) =~= id);
    let e = eliminated(id, k);
    assert forall|i: int, j: int| 0 <= i < n && 0 <= j < n implies #[trigger] e[i][j] == id[i][j] by {
        if i > k {
            assert(id[i][k] == T::zero_value());
            assert(id[k][k] == T::one_value());
            T::lemma_div_one(T::zero_value());
            if j > k {
                T::lemma_zero_mul(id[k][j]);
                T::lemma_sub_zero(id[i][j]);
            }
        }
    }
    assert(e =~~= id);
}

/// The decomposition of the identity, continued from any column, is the
/// identity with its rows in their own order.
proof fn lemma_identity_lup_from<T: Scalar>(n: nat, k: int)
    requires
        0 <= k <= n <= usize::MAX,
    ensures
        lup_from(identity::<T>(n), identity_order(n), k) == Some((identity::<T>(n), identity_order(n))),
    decreases n - k,
{
    if k < n {
        lemma_identity_pivot::<T>(n, k, n as int);
        T::lemma_abs_one();
        lemma_identity_eliminated::<T>(n, k);
        assert(swapped(identity_order(n), k, k) =~= identity_order(n));
        lemma_identity_lup_from::<T>(n, k + 1);
    }
}

/// Subtracting the products of a row of zeros leaves the start as it is.
proof fn lemma_sub_dot_zero_row<T: Scalar>(acc: T, row: Seq<T>, col: Seq<T>, lo: int, hi: int)
    requires
        forall|t: int| lo <= t < hi ==> #[trigger] row[t] == T::zero_value(),
    ensures
        sub_dot(acc, row, col, lo, hi) == acc,
    decreases hi - lo,
{
    if hi > lo {
        lemma_sub_dot_zero_row(acc, row, col, lo, hi - 1);
        assert(row[hi - 1] == T::zero_value());
        T::lemma_zero_mul(col[hi - 1]);
        T::lemma_sub_zero(acc);
    }
}

/// The forward substitution on the identity gives the column of the identity.
proof fn lemma_identity_forward<T: Scalar>(n: nat, j: int, m: int)
    requires
        0 <= m <= n <= usize::MAX,
    ensures
        forward(identity::<T>(n), identity_order(n), j, m) == unit::<T>(m as nat, j),
    decreases m,
{
    let id = identity::<T>(n);
    let p = identity_order(n);
    if m > 0 {
        lemma_identity_forward::<T>(n, j, m - 1);
        let y = forward(id, p, j, m - 1);
        let seed = if p[m - 1] == j {
            T::one_value()
        } else {
            T::zero_value()
        };
        assert(p[m - 1] == m - 1);
        assert forall|t: int| 0 <= t < m - 1 implies #[trigger] id[m - 1][t] == T::zero_value() by {}
        lemma_sub_dot_zero_row(seed, id[m - 1], y, 0, m - 1);
    }
    assert(forward(id, p, j, m) =~= unit::<T>(m as nat, j));
}

/// The back substitution on the identity leaves the vector as it is.
proof fn lemma_identity_backward<T: Scalar>(n: nat, y: Seq<T>, i: int)
    requires
        y.len() == n,
        0 <= i <= n,
    ensures
        backward(identity::<T>(n), y, i) == y,
    decreases n - i,
{
    let id = identity::<T>(n);
    if i < n {
        lemma_identity_backward::<T>(n, y, i + 1);
        assert forall|t: int| i + 1 <= t < n implies #[trigger] id[i][t] == T::zero_value() by {}
        lemma_sub_dot_zero_row(y[i], id[i], y, i + 1, n as int);
        assert(id[i][i] == T::one_value());
        T::lemma_div_one(y[i]);
        assert(y.update(i, y[i]) =~= y);
    }
}

/// The inverse of the identity is the identity, whatever the scalar.
pub proof fn lemma_identity_inverse<T: Scalar>(n: nat)
    requires
        0 < n <= usize::MAX,
    ensures
        inverse(identity::<T>(n)) == Some(identity::<T>(n)),
{
    let id = identity::<T>(n);
    let p = identity_order(n);
    lemma_identity_lup_from::<T>(n, 0);
    assert(lup(id) == Some((id, p)));
    assert forall|i: int, j: int| 0 <= i < n && 0 <= j < n implies #[trigger] substituted(id, p)[i][j]
        == id[i][j] by {
        lemma_identity_forward::<T>(n, j, n as int);
        lemma_identity_backward::<T>(n, unit::<T>(n, j), 0);
        assert(solution(id, p, j) == unit::<T>(n, j));
    }
    assert(substituted(id, p) =~~= id);
}

} // verus!
