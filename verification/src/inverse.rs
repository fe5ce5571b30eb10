//! Matrix inversion by forward and back substitution on the LU factors.

use crate::lup::{is_square, lup, nonzero_diagonal};
use crate::matrix::{grid, turned, DimensionError, Matrix};
use crate::scalar::Scalar;
use vstd::prelude::*;

verus! {

/// What is left of `acc` after the products `row[t] * col[t]` for `t` from
/// `lo` to `hi - 1` have been subtracted from it, one after the other.
pub open spec fn sub_dot<T: Scalar>(acc: T, row: Seq<T>, col: Seq<T>, lo: int, hi: int) -> T
    decreases hi - lo,
{
    if hi <= lo {
        acc
    } else {
        sub_dot(acc, row, col, lo, hi - 1).sub_spec(row[hi - 1].mul_spec(col[hi - 1]))
    }
}

/// The first `m` entries of the forward substitution for column `j`: entry
/// `i` starts from one where row `i` of the factors stands for row `j` of the
/// decomposed matrix, from zero otherwise, and loses the products of the
/// multipliers of row `i` with the entries before it.
pub open spec fn forward<T: Scalar>(f: Seq<Seq<T>>, p: Seq<usize>, j: int, m: int) -> Seq<T>
    decreases m,
{
    if m <= 0 {
        Seq::empty()
    } else {
        let y = forward(f, p, j, m - 1);
        let seed = if p[m - 1] == j {
            T::one_value()
        } else {
            T::zero_value()
        };
        y.push(sub_dot(seed, f[m - 1], y, 0, m - 1))
    }
}

/// The back substitution on `y` done for the rows from `i` down: each of
/// these entries has lost the products of its row of U with the entries
/// after it and was then divided by the diagonal entry of its row.
pub open spec fn backward<T: Scalar>(f: Seq<Seq<T>>, y: Seq<T>, i: int) -> Seq<T>
    decreases y.len() - i,
{
    if i >= y.len() || i < 0 {
        y
    } else {
        let x = backward(f, y, i + 1);
        x.update(i, sub_dot(x[i], f[i], x, i + 1, y.len() as int).div_spec(f[i][i]))
    }
}

/// Column `j` of the inverse, from the combined factors `f` and the row
/// order `p`.
pub open spec fn solution<T: Scalar>(f: Seq<Seq<T>>, p: Seq<usize>, j: int) -> Seq<T> {
    backward(f, forward(f, p, j, f.len() as int), 0)
}

/// The table whose columns are the solutions for each column of the identity.
pub open spec fn substituted<T: Scalar>(f: Seq<Seq<T>>, p: Seq<usize>) -> Seq<Seq<T>> {
    grid(f.len(), f.len(), |i: int, j: int| solution(f, p, j)[i])
}

/// The inverse that the decomposition and the two substitutions give for the
/// square table `a`: `None` where the decomposition finds `a` singular.
pub open spec fn inverse<T: Scalar>(a: Seq<Seq<T>>) -> Option<Seq<Seq<T>>> {
    match lup(a) {
        None => None,
        Some((f, p)) => Some(substituted(f, p)),
    }
}

pub proof fn lemma_forward_len<T: Scalar>(f: Seq<Seq<T>>, p: Seq<usize>, j: int, m: int)
    requires
        0 <= m,
    ensures
        forward(f, p, j, m).len() == m,
    decreases m,
{
    if m > 0 {
        lemma_forward_len(f, p, j, m - 1);
    }
}

pub proof fn lemma_backward_len<T: Scalar>(f: Seq<Seq<T>>, y: Seq<T>, i: int)
    ensures
        backward(f, y, i).len() == y.len(),
    decreases y.len() - i,
{
    if 0 <= i < y.len() {
        lemma_backward_len(f, y, i + 1);
    }
}

impl<T: Scalar> Matrix<T> {
    /// Inverts the matrix. An error where it is not square; `None` where the
    /// decomposition finds it singular.
    ///
    /// Each column of the inverse is solved by forward and then back
    /// substitution into a buffer that is filled from its last entry to its
    /// first, and the buffer is reversed at the end.
    pub fn inv(self) -> (r: Result<Option<Matrix<T>>, DimensionError>)
        ensures
            r is Err <==> !is_square(self@),
            r is Ok ==> self@.len() <= usize::MAX,
            r matches Ok(None) ==> inverse(self@) is None,
            r matches Ok(Some(x)) ==> inverse(self@) == Some(x@),
    {
        let (mat, p) = match self.lupdecompose() {
            Err(e) => {
                return Err(e);
            },
            Ok(None) => {
                return Ok(None);
            },
            Ok(Some(fp)) => fp,
        };
        let dim = mat.row_count();
        let mut buf = match Matrix::<T>::zero(dim, dim) {
            Err(e) => {
                return Err(e);
            },
            Ok(b) => b,
        };
        let last = dim - 1;
        let mut j: usize = 0;
        while j < dim
            invariant
                j <= dim,
                dim > 0,
                last == dim - 1,
                mat@.len() == dim,
                forall|a: int| 0 <= a < dim ==> #[trigger] mat@[a].len() == dim,
                nonzero_diagonal(mat@),
                p@.len() == dim,
                buf@.len() == dim,
                forall|a: int| 0 <= a < dim ==> #[trigger] buf@[a].len() == dim,
                forall|a: int, b: int|
                    0 <= a < dim && last - j < b < dim ==> #[trigger] buf@[a][b] == solution(
                        mat@,
                        p@,
                        last - b,
                    )[last - a],
            decreases dim - j,
        {
            let col = last - j;
            let mut i: usize = 0;
            while i < dim
                invariant
                    i <= dim,
                    j < dim,
                    dim > 0,
                    last == dim - 1,
                    col == last - j,
                    mat@.len() == dim,
                    forall|a: int| 0 <= a < dim ==> #[trigger] mat@[a].len() == dim,
                    p@.len() == dim,
                    buf@.len() == dim,
                    forall|a: int| 0 <= a < dim ==> #[trigger] buf@[a].len() == dim,
                    forall|a: int, b: int|
                        0 <= a < dim && last - j < b < dim ==> #[trigger] buf@[a][b] == solution(
                            mat@,
                            p@,
                            last - b,
                        )[last - a],
                    forall|a: int|
                        last - i < a < dim ==> #[trigger] buf@[a][col as int] == forward(
                            mat@,
                            p@,
                            j as int,
                            i as int,
                        )[last - a],
                decreases dim - i,
            {
                let ghost y = forward(mat@, p@, j as int, i as int);
                proof {
                    lemma_forward_len(mat@, p@, j as int, i as int);
                }
                let ghost seed = if p@[i as int] == j {
                    T::one_value()
                } else {
                    T::zero_value()
                };
                let mut acc = if p[i] == j {
                    T::one()
                } else {
                    T::zero()
                };
                let mut k: usize = 0;
                while k < i
                    invariant
                        k <= i < dim,
                        j < dim,
                        last == dim - 1,
                        col == last - j,
                        mat@.len() == dim,
                        forall|a: int| 0 <= a < dim ==> #[trigger] mat@[a].len() == dim,
                        buf@.len() == dim,
                        forall|a: int| 0 <= a < dim ==> #[trigger] buf@[a].len() == dim,
                        y.len() == i,
                        forall|a: int| last - i < a < dim ==> #[trigger] buf@[a][col as int] == y[last - a],
                        acc == sub_dot(seed, mat@[i as int], y, 0, k as int),
                    decreases i - k,
                {
                    acc = acc.sub(mat.get(i, k).mul(*buf.get(last - k, col)));
                    k += 1;
                }
                buf.put(last - i, col, acc);
                proof {
                    assert(forward(mat@, p@, j as int, i + 1) == y.push(acc));
                }
                i += 1;
            }
            let ghost y = forward(mat@, p@, j as int, dim as int);
            proof {
                lemma_forward_len(mat@, p@, j as int, dim as int);
            }
            let mut i: usize = dim;
            while i > 0
                invariant
                    i <= dim,
                    j < dim,
                    dim > 0,
                    last == dim - 1,
                    col == last - j,
                    mat@.len() == dim,
                    forall|a: int| 0 <= a < dim ==> #[trigger] mat@[a].len() == dim,
                    nonzero_diagonal(mat@),
                    buf@.len() == dim,
                    forall|a: int| 0 <= a < dim ==> #[trigger] buf@[a].len() == dim,
                    y.len() == dim,
                    forall|a: int, b: int|
                        0 <= a < dim && last - j < b < dim ==> #[trigger] buf@[a][b] == solution(
                            mat@,
                            p@,
                            last - b,
                        )[last - a],
                    forall|a: int|
                        0 <= a < dim ==> #[trigger] buf@[a][col as int] == backward(mat@, y, i as int)[last
                            - a],
                decreases i,
            {
                i -= 1;
                let ghost x = backward(mat@, y, i + 1);
                proof {
                    lemma_backward_len(mat@, y, i + 1);
                }
                let mut acc = *buf.get(last - i, col);
                let mut k: usize = i + 1;
                while k < dim
                    invariant
                        i < k <= dim,
                        j < dim,
                        last == dim - 1,
                        col == last - j,
                        mat@.len() == dim,
                        forall|a: int| 0 <= a < dim ==> #[trigger] mat@[a].len() == dim,
                        buf@.len() == dim,
                        forall|a: int| 0 <= a < dim ==> #[trigger] buf@[a].len() == dim,
                        x.len() == dim,
                        forall|a: int| 0 <= a < dim ==> #[trigger] buf@[a][col as int] == x[last - a],
                        acc == sub_dot(x[i as int], mat@[i as int], x, i + 1, k as int),
                    decreases dim - k,
                {
                    acc = acc.sub(mat.get(i, k).mul(*buf.get(last - k, col)));
                    k += 1;
                }
                acc = acc.div(*mat.get(i, i));
                buf.put(last - i, col, acc);
                proof {
                    assert(backward(mat@, y, i as int) == x.update(i as int, acc));
                }
            }
            j += 1;
        }
        buf.reverse();
        proof {
            assert(buf@ =~~= substituted(mat@, p@));
        }
        Ok(Some(buf))
    }
}

} // verus!
