//! What the two substitutions compute, over a field: the solutions of the
//! triangular systems that the factors stand for.

use crate::factors::{lower, upper};
use crate::field::{lemma_add_cancel, lemma_mul_cancel, lemma_solve, lemma_sub_sub, lemma_zero_add, Field};
use crate::inverse::{backward, forward, lemma_backward_len, lemma_forward_len, sub_dot};
use crate::linear::{
    apply, dot, has_shape, lemma_dot_first, lemma_dot_pick_left, lemma_dot_same, lemma_dot_split,
    lemma_dot_zero_left,
};
use crate::lup::nonzero_diagonal;
use crate::scalar::Scalar;
use vstd::prelude::*;

verus! {

/// The vector that is one where `p` holds `j` and zero elsewhere: column `j`
/// of the identity with its rows in the order `p`.
pub open spec fn picks<T: Scalar>(p: Seq<usize>, j: int) -> Seq<T> {
    Seq::new(
        p.len(),
        |i: int|
            if p[i] == j {
                T::one_value()
            } else {
                T::zero_value()
            },
    )
}

/// Subtracting products one after the other subtracts their sum.
pub proof fn lemma_sub_dot<T: Field>(acc: T, row: Seq<T>, col: Seq<T>, lo: int, hi: int)
    requires
        lo <= hi,
    ensures
        sub_dot(acc, row, col, lo, hi) == acc.sub_spec(dot(row, col, lo, hi)),
    decreases hi - lo,
{
    if hi == lo {
        T::lemma_sub_zero(acc);
    } else {
        lemma_sub_dot(acc, row, col, lo, hi - 1);
        lemma_sub_sub(acc, dot(row, col, lo, hi - 1), row[hi - 1].mul_spec(col[hi - 1]));
    }
}

/// Row `i` of L times a vector.
pub proof fn lemma_lower_row<T: Field>(f: Seq<Seq<T>>, u: Seq<T>, i: int)
    requires
        has_shape(f, f.len() as int, f.len() as int),
        0 <= i < f.len(),
    ensures
        dot(lower(f)[i], u, 0, f.len() as int) == dot(f[i], u, 0, i).add_spec(u[i]),
{
    let n = f.len() as int;
    let row = lower(f)[i];
    lemma_dot_split(row, u, 0, i, n);
    assert forall|t: int| 0 <= t < i implies #[trigger] row[t] == f[i][t] by {}
    lemma_dot_same(row, u, f[i], u, 0, i);
    assert(row[i] == T::one_value());
    assert forall|t: int| i <= t < n && t != i implies #[trigger] row[t] == T::zero_value() by {}
    lemma_dot_pick_left(row, u, i, i, n);
}

/// Row `t` of U times a vector.
pub proof fn lemma_upper_row<T: Field>(f: Seq<Seq<T>>, u: Seq<T>, t: int)
    requires
        has_shape(f, f.len() as int, f.len() as int),
        0 <= t < f.len(),
    ensures
        dot(upper(f)[t], u, 0, f.len() as int) == f[t][t].mul_spec(u[t]).add_spec(
            dot(f[t], u, t + 1, f.len() as int),
        ),
{
    let n = f.len() as int;
    let row = upper(f)[t];
    lemma_dot_split(row, u, 0, t, n);
    assert forall|c: int| 0 <= c < t implies #[trigger] row[c] == T::zero_value() by {}
    lemma_dot_zero_left(row, u, 0, t);
    lemma_zero_add(dot(row, u, t, n));
    lemma_dot_first(row, u, t, n);
    assert(row[t] == f[t][t]);
    assert forall|c: int| t + 1 <= c < n implies #[trigger] row[c] == f[t][c] by {}
    lemma_dot_same(row, u, f[t], u, t + 1, n);
}

/// The entries of the forward substitution do not change once they are there.
pub proof fn lemma_forward_prefix<T: Scalar>(f: Seq<Seq<T>>, p: Seq<usize>, j: int, m: int, m2: int, i: int)
    requires
        0 <= i < m <= m2,
    ensures
        forward(f, p, j, m2)[i] == forward(f, p, j, m)[i],
    decreases m2 - m,
{
    if m2 > m {
        lemma_forward_len(f, p, j, m2 - 1);
        lemma_forward_prefix(f, p, j, m, m2 - 1, i);
    }
}

/// The forward substitution solves the lower triangular system.
pub proof fn lemma_forward_solves<T: Field>(f: Seq<Seq<T>>, p: Seq<usize>, j: int)
    requires
        has_shape(f, f.len() as int, f.len() as int),
        p.len() == f.len(),
    ensures
        forward(f, p, j, f.len() as int).len() == f.len(),
        apply(lower(f), forward(f, p, j, f.len() as int)) == picks::<T>(p, j),
{
    let n = f.len() as int;
    let y = forward(f, p, j, n);
    lemma_forward_len(f, p, j, n);
    assert forall|i: int| 0 <= i < n implies #[trigger] apply(lower(f), y)[i] == picks::<T>(p, j)[i] by {
        let before = forward(f, p, j, i);
        lemma_forward_len(f, p, j, i);
        let seed = picks::<T>(p, j)[i];
        let v = sub_dot(seed, f[i], before, 0, i);
        assert(forward(f, p, j, i + 1) == before.push(v));
        lemma_forward_prefix(f, p, j, i + 1, n, i);
        assert(y[i] == v);
        assert forall|t: int| 0 <= t < i implies #[trigger] before[t] == y[t] by {
            lemma_forward_prefix(f, p, j, i, n, t);
        }
        lemma_dot_same(f[i], before, f[i], y, 0, i);
        lemma_sub_dot(seed, f[i], before, 0, i);
        let d = dot(f[i], y, 0, i);
        lemma_lower_row(f, y, i);
        T::lemma_add_commutative(d, y[i]);
        T::lemma_sub_then_add(seed, d);
    }
    assert(apply(lower(f), y) =~= picks::<T>(p, j));
}

/// The back substitution done for the rows from `i` down leaves the entries
/// above as they were and solves the rows from `i` down.
pub proof fn lemma_backward_solves<T: Field>(f: Seq<Seq<T>>, y: Seq<T>, i: int)
    requires
        0 <= i <= y.len(),
        forall|t: int| 0 <= t < y.len() ==> #[trigger] f[t][t] != T::zero_value(),
    ensures
        backward(f, y, i).len() == y.len(),
        forall|t: int| 0 <= t < i ==> #[trigger] backward(f, y, i)[t] == y[t],
        forall|t: int|
            i <= t < y.len() ==> f[t][t].mul_spec(#[trigger] backward(f, y, i)[t]).add_spec(
                dot(f[t], backward(f, y, i), t + 1, y.len() as int),
            ) == y[t],
    decreases y.len() - i,
{
    let n = y.len() as int;
    lemma_backward_len(f, y, i);
    if i < n {
        lemma_backward_solves(f, y, i + 1);
        let x = backward(f, y, i + 1);
        let d = dot(f[i], x, i + 1, n);
        let v = sub_dot(x[i], f[i], x, i + 1, n).div_spec(f[i][i]);
        let b = backward(f, y, i);
        assert(b == x.update(i, v));
        lemma_sub_dot(x[i], f[i], x, i + 1, n);
        assert(x[i] == y[i]);
        assert forall|t: int| i <= t < n implies f[t][t].mul_spec(#[trigger] b[t]).add_spec(
            dot(f[t], b, t + 1, n),
        ) == y[t] by {
            assert forall|c: int| t + 1 <= c < n implies #[trigger] b[c] == x[c] by {}
            lemma_dot_same(f[t], b, f[t], x, t + 1, n);
            if t == i {
                assert(f[i][i] != T::zero_value());
                lemma_solve(y[i], d, f[i][i]);
            } else {
                assert(b[t] == x[t]);
                assert(f[t][t].mul_spec(x[t]).add_spec(dot(f[t], x, t + 1, n)) == y[t]);
            }
        }
    }
}

/// The back substitution solves the upper triangular system.
pub proof fn lemma_backward_inverts_upper<T: Field>(f: Seq<Seq<T>>, y: Seq<T>)
    requires
        has_shape(f, f.len() as int, f.len() as int),
        y.len() == f.len(),
        nonzero_diagonal(f),
    ensures
        backward(f, y, 0).len() == f.len(),
        apply(upper(f), backward(f, y, 0)) == y,
{
    let n = f.len() as int;
    let x = backward(f, y, 0);
    lemma_backward_solves(f, y, 0);
    assert forall|t: int| 0 <= t < n implies #[trigger] apply(upper(f), x)[t] == y[t] by {
        lemma_upper_row(f, x, t);
        assert(f[t][t].mul_spec(x[t]).add_spec(dot(f[t], x, t + 1, n)) == y[t]);
    }
    assert(apply(upper(f), x) =~= y);
}

/// Two vectors that L takes to the same vector agree on their first `i` entries.
proof fn lemma_lower_agree<T: Field>(f: Seq<Seq<T>>, u: Seq<T>, v: Seq<T>, i: int)
    requires
        has_shape(f, f.len() as int, f.len() as int),
        u.len() == f.len(),
        v.len() == f.len(),
        apply(lower(f), u) == apply(lower(f), v),
        0 <= i <= f.len(),
    ensures
        forall|t: int| 0 <= t < i ==> #[trigger] u[t] == v[t],
    decreases i,
{
    if i > 0 {
        lemma_lower_agree(f, u, v, i - 1);
        let r = i - 1;
        lemma_lower_row(f, u, r);
        lemma_lower_row(f, v, r);
        assert(apply(lower(f), u)[r] == dot(lower(f)[r], u, 0, f.len() as int));
        assert(apply(lower(f), v)[r] == dot(lower(f)[r], v, 0, f.len() as int));
        lemma_dot_same(f[r], u, f[r], v, 0, r);
        let d = dot(f[r], u, 0, r);
        T::lemma_add_commutative(d, u[r]);
        T::lemma_add_commutative(d, v[r]);
        lemma_add_cancel(u[r], v[r], d);
    }
}

/// L takes no two vectors to the same vector.
pub proof fn lemma_lower_injective<T: Field>(f: Seq<Seq<T>>, u: Seq<T>, v: Seq<T>)
    requires
        has_shape(f, f.len() as int, f.len() as int),
        u.len() == f.len(),
        v.len() == f.len(),
        apply(lower(f), u) == apply(lower(f), v),
    ensures
        u == v,
{
    lemma_lower_agree(f, u, v, f.len() as int);
    assert(u =~= v);
}

/// Two vectors that U takes to the same vector agree from entry `i` on.
proof fn lemma_upper_agree<T: Field>(f: Seq<Seq<T>>, u: Seq<T>, v: Seq<T>, i: int)
    requires
        has_shape(f, f.len() as int, f.len() as int),
        nonzero_diagonal(f),
        u.len() == f.len(),
        v.len() == f.len(),
        apply(upper(f), u) == apply(upper(f), v),
        0 <= i <= f.len(),
    ensures
        forall|t: int| i <= t < f.len() ==> #[trigger] u[t] == v[t],
    decreases f.len() - i,
{
    let n = f.len() as int;
    if i < n {
        lemma_upper_agree(f, u, v, i + 1);
        lemma_upper_row(f, u, i);
        lemma_upper_row(f, v, i);
        assert(apply(upper(f), u)[i] == dot(upper(f)[i], u, 0, n));
        assert(apply(upper(f), v)[i] == dot(upper(f)[i], v, 0, n));
        lemma_dot_same(f[i], u, f[i], v, i + 1, n);
        let d = dot(f[i], u, i + 1, n);
        lemma_add_cancel(f[i][i].mul_spec(u[i]), f[i][i].mul_spec(v[i]), d);
        assert(f[i][i] != T::zero_value());
        lemma_mul_cancel(f[i][i], u[i], v[i]);
    }
}

/// U, with no zero on its diagonal, takes no two vectors to the same vector.
pub proof fn lemma_upper_injective<T: Field>(f: Seq<Seq<T>>, u: Seq<T>, v: Seq<T>)
    requires
        has_shape(f, f.len() as int, f.len() as int),
        nonzero_diagonal(f),
        u.len() == f.len(),
        v.len() == f.len(),
        apply(upper(f), u) == apply(upper(f), v),
    ensures
        u == v,
{
    lemma_upper_agree(f, u, v, 0);
    assert(u =~= v);
}

} // verus!
