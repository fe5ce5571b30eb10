//! LU decomposition with partial pivoting.

use crate::matrix::{is_table, swapped, DimensionError, Matrix};
use crate::scalar::Scalar;
use vstd::prelude::*;

verus! {

/// Whether `m` is a table with as many rows as columns.
pub open spec fn is_square<T>(m: Seq<Seq<T>>) -> bool {
    is_table(m) && m[0].len() == m.len()
}

/// Whether no entry on the diagonal of `m` is zero.
pub open spec fn nonzero_diagonal<T: Scalar>(m: Seq<Seq<T>>) -> bool {
    forall|i: int| 0 <= i < m.len() ==> #[trigger] m[i][i] != T::zero_value()
}

/// The search for the pivot of column `k` after rows `k` to `r - 1` have been
/// looked at: the largest magnitude found and the row that holds it. The
/// search starts from magnitude zero at row `k`, and a later row replaces an
/// earlier one only where its magnitude is strictly greater.
pub open spec fn pivot_scan<T: Scalar>(w: Seq<Seq<T>>, k: int, r: int) -> (T, int)
    decreases r - k,
{
    if r <= k {
        (T::zero_value(), k)
    } else {
        let (best, at) = pivot_scan(w, k, r - 1);
        let a = w[r - 1][k].abs_spec();
        if a.gt_spec(best) {
            (a, r - 1)
        } else {
            (best, at)
        }
    }
}

/// A row below the pivot row after elimination in column `k`: the entry in
/// column `k` becomes the multiplier, the row's entry divided by the pivot,
/// and each entry to the right loses the multiplier times the pivot row's
/// entry of that column.
pub open spec fn eliminated_row<T: Scalar>(row: Seq<T>, pivot_row: Seq<T>, k: int) -> Seq<T> {
    let m = row[k].div_spec(pivot_row[k]);
    Seq::new(
        row.len(),
        |j: int|
            if j < k {
                row[j]
            } else if j == k {
                m
            } else {
                row[j].sub_spec(m.mul_spec(pivot_row[j]))
            },
    )
}

/// The working table after elimination in column `k`: the rows down to the
/// pivot row `k` stay, each row below is eliminated against row `k`.
pub open spec fn eliminated<T: Scalar>(w: Seq<Seq<T>>, k: int) -> Seq<Seq<T>> {
    Seq::new(
        w.len(),
        |i: int|
            if i <= k {
                w[i]
            } else {
                eliminated_row(w[i], w[k], k)
            },
    )
}

/// The order `0, 1, ..., n - 1`.
pub open spec fn identity_order(n: nat) -> Seq<usize> {
    Seq::new(n, |i: int| i as usize)
}

/// The decomposition continued from column `k` on the working table `w` and
/// the row order `p`: `None` where a column has no pivot other than zero.
pub open spec fn lup_from<T: Scalar>(w: Seq<Seq<T>>, p: Seq<usize>, k: int) -> Option<
    (Seq<Seq<T>>, Seq<usize>),
>
    decreases w.len() - k,
{
    if k >= w.len() {
        Some((w, p))
    } else {
        let (best, at) = pivot_scan(w, k, w.len() as int);
        if best == T::zero_value() {
            None
        } else {
            lup_from(eliminated(swapped(w, k, at), k), swapped(p, k, at), k + 1)
        }
    }
}

/// The LU decomposition of the square table `a` with partial pivoting: the
/// combined factors, with the multipliers of L below the diagonal and U on
/// and above it, and the row order, whose entry `i` is the row of `a` that
/// row `i` of the factors stands for. `None` where `a` is singular.
pub open spec fn lup<T: Scalar>(a: Seq<Seq<T>>) -> Option<(Seq<Seq<T>>, Seq<usize>)> {
    lup_from(a, identity_order(a.len()), 0)
}

impl<T: Scalar> Matrix<T> {
    /// Decomposes a square matrix into its combined L and U factors and the
    /// row order that pivoting chose. An error where the matrix is not
    /// square; `None` where it is singular.
    pub fn lupdecompose(&self) -> (r: Result<Option<(Matrix<T>, Vec<usize>)>, DimensionError>)
        ensures
            r is Err <==> !is_square(self@),
            r is Ok ==> self@.len() <= usize::MAX,
            r matches Ok(None) ==> lup(self@) is None,
            r matches Ok(Some(fp)) ==> {
                &&& lup(self@) == Some((fp.0@, fp.1@))
                &&& is_square(fp.0@)
                &&& fp.0@.len() == self@.len()
                &&& fp.1@.len() == self@.len()
                &&& nonzero_diagonal(fp.0@)
            },
    {
        let n = self.row_count();
        let cols = self.col_count();
        if n != cols {
            return Err(DimensionError);
        }
        let mut w = self.clone();
        let mut p: Vec<usize> = Vec::new();
        let mut i: usize = 0;
        while i < n
            invariant
                i <= n,
                p@.len() == i,
                forall|t: int| 0 <= t < i ==> p@[t] == t,
            decreases n - i,
        {
            p.push(i);
            i += 1;
        }
        assert(p@ =~= identity_order(n as nat));
        let mut k: usize = 0;
        while k < n
            invariant
                k <= n,
                n == self@.len(),
                is_square(self@),
                w@.len() == n,
                forall|a: int| 0 <= a < n ==> #[trigger] w@[a].len() == n,
                p@.len() == n,
                forall|a: int| 0 <= a < k ==> #[trigger] w@[a][a] != T::zero_value(),
                lup_from(w@, p@, k as int) == lup(self@),
            decreases n - k,
        {
            let mut best = T::zero();
            let mut at: usize = k;
            let mut r: usize = k;
            while r < n
                invariant
                    k <= r <= n,
                    k <= at < n,
                    w@.len() == n,
                    forall|a: int| 0 <= a < n ==> #[trigger] w@[a].len() == n,
                    (best, at as int) == pivot_scan(w@, k as int, r as int),
                    best == T::zero_value() || best == w@[at as int][k as int].abs_spec(),
                decreases n - r,
            {
                let a = w.get(r, k).abs();
                if a.gt(best) {
                    best = a;
                    at = r;
                }
                r += 1;
            }
            if best.same(T::zero()) {
                return Ok(None);
            }
            proof {
                T::lemma_abs_zero();
            }
            let ghost ws = swapped(w@, k as int, at as int);
            let ghost ps = swapped(p@, k as int, at as int);
            if at != k {
                w.swap_rows(k, at);
                let t = p[k];
                let u = p[at];
                p.set(k, u);
                p.set(at, t);
            }
            assert(w@ =~= ws);
            assert(p@ =~= ps);
            let pivot = *w.get(k, k);
            let mut i: usize = k + 1;
            while i < n
                invariant
                    k < i <= n,
                    w@.len() == n,
                    ws.len() == n,
                    forall|a: int| 0 <= a < n ==> #[trigger] w@[a].len() == n,
                    forall|a: int| 0 <= a < n ==> #[trigger] ws[a].len() == n,
                    pivot == ws[k as int][k as int],
                    pivot != T::zero_value(),
                    forall|a: int| 0 <= a < i ==> #[trigger] w@[a] == eliminated(ws, k as int)[a],
                    forall|a: int| i <= a < n ==> #[trigger] w@[a] == ws[a],
                decreases n - i,
            {
                let m = w.get(i, k).div(pivot);
                w.put(i, k, m);
                let mut j: usize = k + 1;
                while j < n
                    invariant
                        k < i < n,
                        k < j <= n,
                        w@.len() == n,
                        ws.len() == n,
                        forall|a: int| 0 <= a < n ==> #[trigger] w@[a].len() == n,
                        forall|a: int| 0 <= a < n ==> #[trigger] ws[a].len() == n,
                        m == ws[i as int][k as int].div_spec(ws[k as int][k as int]),
                        forall|a: int| 0 <= a < i ==> #[trigger] w@[a] == eliminated(ws, k as int)[a],
                        forall|a: int| i < a < n ==> #[trigger] w@[a] == ws[a],
                        forall|b: int|
                            0 <= b < n ==> #[trigger] w@[i as int][b] == (if b < k {
                                ws[i as int][b]
                            } else if b == k {
                                m
                            } else if b < j {
                                ws[i as int][b].sub_spec(m.mul_spec(ws[k as int][b]))
                            } else {
                                ws[i as int][b]
                            }),
                    decreases n - j,
                {
                    assert(w@[k as int] == eliminated(ws, k as int)[k as int]);
                    let v = w.get(i, j).sub(m.mul(*w.get(k, j)));
                    w.put(i, j, v);
                    j += 1;
                }
                assert(w@[i as int] =~= eliminated(ws, k as int)[i as int]);
                i += 1;
            }
            assert(w@ =~= eliminated(ws, k as int));
            assert(w@[k as int] == ws[k as int]);
            k += 1;
        }
        Ok(Some((w, p)))
    }
}

} // verus!
