//! The dense, row-major matrix and its shape.

use crate::scalar::Scalar;
use vstd::prelude::*;

verus! {

/// The signal that a shape precondition was violated: a dimension of zero, a
/// buffer whose length is not `rows * cols`, or a matrix that is not square
/// where a square one is needed.
#[derive(Clone, Copy, Debug, PartialEq, Eq, Structural)]
pub struct DimensionError;

/// The row and column counts of a matrix, both greater than zero.
#[derive(Clone, Copy, Debug)]
pub struct Dimensions {
    rows: usize,
    cols: usize,
}

impl Dimensions {
    #[verifier::type_invariant]
    spec fn positive(self) -> bool {
        self.rows > 0 && self.cols > 0
    }

    /// The number of rows.
    pub closed spec fn rows(self) -> nat {
        self.rows as nat
    }

    /// The number of columns.
    pub closed spec fn cols(self) -> nat {
        self.cols as nat
    }

    /// A shape of `rows` by `cols`; an error where either is zero.
    pub fn new(rows: usize, cols: usize) -> (r: Result<Dimensions, DimensionError>)
        ensures
            r is Err <==> rows == 0 || cols == 0,
            r matches Ok(d) ==> d.rows() == rows && d.cols() == cols,
    {
        if rows == 0 || cols == 0 {
            Err(DimensionError)
        } else {
            Ok(Dimensions { rows, cols })
        }
    }

    /// The number of rows.
    pub fn get_rows(&self) -> (r: usize)
        ensures
            r == self.rows(),
            r > 0,
    {
        proof {
            use_type_invariant(self);
        }
        self.rows
    }

    /// The number of columns.
    pub fn get_cols(&self) -> (r: usize)
        ensures
            r == self.cols(),
            r > 0,
    {
        proof {
            use_type_invariant(self);
        }
        self.cols
    }
}

/// The `rows` by `cols` table whose entry in row `i` and column `j` is `f(i, j)`.
pub open spec fn grid<T>(rows: nat, cols: nat, f: spec_fn(int, int) -> T) -> Seq<Seq<T>> {
    Seq::new(rows, |i: int| Seq::new(cols, |j: int| f(i, j)))
}

/// Whether `m` is a table with at least one row and one column whose rows
/// all have the same length.
pub open spec fn is_table<T>(m: Seq<Seq<T>>) -> bool {
    &&& m.len() > 0
    &&& m[0].len() > 0
    &&& forall|i: int| 0 <= i < m.len() ==> #[trigger] m[i].len() == m[0].len()
}

/// The table `m` with the entry in row `i` and column `j` replaced by `v`.
pub open spec fn with_entry<T>(m: Seq<Seq<T>>, i: int, j: int, v: T) -> Seq<Seq<T>> {
    m.update(i, m[i].update(j, v))
}

/// The table `m` turned by half a turn: rows and columns both in reverse order.
pub open spec fn turned<T>(m: Seq<Seq<T>>) -> Seq<Seq<T>> {
    Seq::new(m.len(), |i: int| Seq::new(m[0].len(), |j: int| m[m.len() - 1 - i][m[0].len() - 1 - j]))
}

/// A row and a column within bounds give a position within the storage.
proof fn lemma_flat_index(i: int, j: int, rows: int, cols: int)
    requires
        0 <= i < rows,
        0 <= j < cols,
    ensures
        0 <= i * cols + j < rows * cols,
{
    assert(0 <= i * cols + j < rows * cols) by (nonlinear_arith)
        requires
            0 <= i < rows,
            0 <= j < cols,
    {
        assert((i + 1) * cols <= rows * cols);
    }
}

/// A position in the storage belongs to one row and one column only.
proof fn lemma_flat_index_unique(i: int, j: int, i2: int, j2: int, cols: int)
    requires
        0 <= j < cols,
        0 <= j2 < cols,
        i * cols + j == i2 * cols + j2,
    ensures
        i == i2,
        j == j2,
{
    assert(i == i2) by (nonlinear_arith)
        requires
            0 <= j < cols,
            0 <= j2 < cols,
            i * cols + j == i2 * cols + j2,
    {
        if i < i2 {
            assert((i + 1) * cols <= i2 * cols);
        } else if i2 < i {
            assert((i2 + 1) * cols <= i * cols);
        }
    }
}

/// A dense matrix with at least one row and one column, stored row by row:
/// the entry in row `i` and column `j` is at position `i * cols + j`.
#[derive(Debug)]
pub struct Matrix<T> {
    dims: Dimensions,
    matrix: Vec<T>,
}

impl<T> View for Matrix<T> {
    type V = Seq<Seq<T>>;

    /// The matrix as a sequence of rows.
    closed spec fn view(&self) -> Seq<Seq<T>> {
        rows_of(self.dims.rows as nat, self.dims.cols as nat, self.matrix@)
    }
}

/// The rows that `data` holds one after the other.
spec fn rows_of<T>(rows: nat, cols: nat, data: Seq<T>) -> Seq<Seq<T>> {
    Seq::new(rows, |i: int| Seq::new(cols, |j: int| data[i * cols + j]))
}

/// Replacing the stored entry at `i * cols + j` replaces the entry in row
/// `i` and column `j`.
proof fn lemma_rows_of_update<T>(rows: nat, cols: nat, data: Seq<T>, i: int, j: int, v: T)
    requires
        0 <= i < rows,
        0 <= j < cols,
        data.len() == rows * cols,
    ensures
        rows_of(rows, cols, data.update(i * cols + j, v)) == with_entry(rows_of(rows, cols, data), i, j, v),
{
    let k = i * cols + j;
    let got = rows_of(rows, cols, data.update(k, v));
    let want = with_entry(rows_of(rows, cols, data), i, j, v);
    lemma_flat_index(i, j, rows as int, cols as int);
    assert forall|a: int, b: int| 0 <= a < rows && 0 <= b < cols implies #[trigger] got[a][b] == want[a][b] by {
        lemma_flat_index(a, b, rows as int, cols as int);
        if a * cols + b == k {
            lemma_flat_index_unique(a, b, i, j, cols as int);
        }
    }
    assert(got =~~= want);
}

impl<T> Matrix<T> {
    #[verifier::type_invariant]
    spec fn well_formed(self) -> bool {
        &&& self.dims.rows > 0
        &&& self.dims.cols > 0
        &&& self.matrix@.len() == self.dims.rows * self.dims.cols
    }

    /// The matrix of `rows` rows and `cols` columns whose entries are those
    /// of `data`, row by row. An error where a dimension is zero or `data`
    /// does not hold exactly `rows * cols` entries.
    pub fn from_vec(rows: usize, cols: usize, data: Vec<T>) -> (r: Result<Matrix<T>, DimensionError>)
        ensures
            r is Err <==> rows == 0 || cols == 0 || data@.len() != rows * cols,
            r matches Ok(m) ==> m@ == grid(rows as nat, cols as nat, |i: int, j: int| data@[i * cols + j]),
    {
        if rows == 0 || cols == 0 {
            return Err(DimensionError);
        }
        let len = data.len();
        match rows.checked_mul(cols) {
            None => Err(DimensionError),
            Some(n) => {
                if len != n {
                    Err(DimensionError)
                } else {
                    let m = Matrix { dims: Dimensions { rows, cols }, matrix: data };
                    assert(m@ =~~= grid(rows as nat, cols as nat, |i: int, j: int| data@[i * cols + j]));
                    Ok(m)
                }
            },
        }
    }

    /// The number of rows.
    pub fn row_count(&self) -> (r: usize)
        ensures
            r == self@.len(),
            r > 0,
            self@.len() * self@[0].len() <= usize::MAX,
    {
        proof {
            use_type_invariant(self);
        }
        assert(self.matrix@.len() == self.matrix.len());
        self.dims.rows
    }

    /// The number of columns, which every row has.
    pub fn col_count(&self) -> (r: usize)
        ensures
            r > 0,
            is_table(self@),
            r == self@[0].len(),
    {
        proof {
            use_type_invariant(self);
        }
        self.dims.cols
    }

    /// The shape of the matrix.
    pub fn dims(&self) -> (d: Dimensions)
        ensures
            d.rows() == self@.len(),
            d.cols() == self@[0].len(),
    {
        proof {
            use_type_invariant(self);
        }
        self.dims
    }

    /// Whether the matrix has as many rows as columns.
    pub fn is_square(&self) -> (b: bool)
        ensures
            b == (self@.len() == self@[0].len()),
    {
        proof {
            use_type_invariant(self);
        }
        self.dims.rows == self.dims.cols
    }

    /// The entry in row `i` and column `j`, or `None` where `i` or `j` is out
    /// of bounds.
    pub fn at(&self, i: usize, j: usize) -> (r: Option<&T>)
        ensures
            r is Some <==> i < self@.len() && j < self@[0].len(),
            r matches Some(e) ==> *e == self@[i as int][j as int],
    {
        proof {
            use_type_invariant(self);
        }
        if i < self.dims.rows && j < self.dims.cols {
            Some(self.get(i, j))
        } else {
            None
        }
    }

    /// The entry in row `i` and column `j`, both within bounds.
    pub fn get(&self, i: usize, j: usize) -> (e: &T)
        requires
            i < self@.len(),
            j < self@[0].len(),
        ensures
            *e == self@[i as int][j as int],
    {
        proof {
            use_type_invariant(self);
            lemma_flat_index(i as int, j as int, self.dims.rows as int, self.dims.cols as int);
            assert(self.matrix@.len() == self.matrix.len());
        }
        &self.matrix[i * self.dims.cols + j]
    }

    /// Replaces the entry in row `i` and column `j`, both within bounds.
    pub fn put(&mut self, i: usize, j: usize, v: T)
        requires
            i < old(self)@.len(),
            j < old(self)@[0].len(),
        ensures
            final(self)@ == with_entry(old(self)@, i as int, j as int, v),
    {
        proof {
            use_type_invariant(&*self);
            lemma_flat_index(i as int, j as int, self.dims.rows as int, self.dims.cols as int);
            assert(self.matrix@.len() == self.matrix.len());
            lemma_rows_of_update(self.dims.rows as nat, self.dims.cols as nat, self.matrix@, i as int, j as int, v);
        }
        let k = i * self.dims.cols + j;
        self.matrix[k] = v;
    }

    /// The entry in row `i` and column `j`, to be written through, or `None`
    /// where `i` or `j` is out of bounds.
    pub fn at_mut(&mut self, i: usize, j: usize) -> (r: Option<&mut T>)
        ensures
            r is Some <==> i < old(self)@.len() && j < old(self)@[0].len(),
            r matches Some(e) ==> *e == old(self)@[i as int][j as int] && final(self)@ == with_entry(
                old(self)@,
                i as int,
                j as int,
                *final(e),
            ),
            r is None ==> final(self)@ == old(self)@,
    {
        proof {
            use_type_invariant(&*self);
            assert(self.matrix@.len() == self.matrix.len());
        }
        if i < self.dims.rows && j < self.dims.cols {
            proof {
                lemma_flat_index(i as int, j as int, self.dims.rows as int, self.dims.cols as int);
            }
            let k = i * self.dims.cols + j;
            proof {
                let rows = self.dims.rows as nat;
                let cols = self.dims.cols as nat;
                let data = self.matrix@;
                assert forall|v: T| #[trigger]
                    rows_of(rows, cols, data.update(k as int, v)) == with_entry(
                        self@,
                        i as int,
                        j as int,
                        v,
                    ) by {
                    lemma_rows_of_update(rows, cols, data, i as int, j as int, v);
                }
            }
            let e = &mut self.matrix[k];
            Some(e)
        } else {
            None
        }
    }

    /// Sets the entry in row `i` and column `j` to `v`; an error, and no
    /// change, where `i` or `j` is out of bounds.
    pub fn set(&mut self, i: usize, j: usize, v: T) -> (r: Result<(), DimensionError>)
        ensures
            r is Ok <==> i < old(self)@.len() && j < old(self)@[0].len(),
            r is Ok ==> final(self)@ == with_entry(old(self)@, i as int, j as int, v),
            r is Err ==> final(self)@ == old(self)@,
    {
        proof {
            use_type_invariant(&*self);
        }
        if i < self.dims.rows && j < self.dims.cols {
            self.put(i, j, v);
            Ok(())
        } else {
            Err(DimensionError)
        }
    }
}

/// The sequence with the items at `a` and `b` exchanged: for a table, its
/// rows. Positions outside the sequence leave it as it is.
pub open spec fn swapped<A>(s: Seq<A>, a: int, b: int) -> Seq<A> {
    if 0 <= a < s.len() && 0 <= b < s.len() {
        s.update(a, s[b]).update(b, s[a])
    } else {
        s
    }
}

/// The identity table of `n` rows and columns.
pub open spec fn identity<T: Scalar>(n: nat) -> Seq<Seq<T>> {
    grid(n, n, |i: int, j: int| if i == j { T::one_value() } else { T::zero_value() })
}

impl<T: Copy> Clone for Matrix<T> {
    fn clone(&self) -> (r: Self)
        ensures
            r@ == self@,
    {
        proof {
            use_type_invariant(self);
        }
        let n = self.matrix.len();
        let mut data: Vec<T> = Vec::new();
        let mut k: usize = 0;
        while k < n
            invariant
                n == self.matrix@.len(),
                k <= n,
                data@.len() == k,
                forall|t: int| 0 <= t < k ==> data@[t] == self.matrix@[t],
            decreases n - k,
        {
            data.push(self.matrix[k]);
            k += 1;
        }
        assert(data@ =~= self.matrix@);
        let r = Matrix { dims: self.dims, matrix: data };
        assert(r@ =~~= self@);
        r
    }
}

impl<T: Copy> Matrix<T> {
    /// Exchanges rows `a` and `b`.
    pub fn swap_rows(&mut self, a: usize, b: usize)
        requires
            a < old(self)@.len(),
            b < old(self)@.len(),
        ensures
            final(self)@ == swapped(old(self)@, a as int, b as int),
    {
        let cols = self.col_count();
        let ghost rows = self@.len();
        let mut c: usize = 0;
        while c < cols
            invariant
                c <= cols,
                a < rows,
                b < rows,
                is_table(old(self)@),
                old(self)@.len() == rows,
                old(self)@[0].len() == cols,
                self@.len() == rows,
                forall|r: int| 0 <= r < rows ==> #[trigger] self@[r].len() == cols,
                forall|r: int| 0 <= r < rows && r != a && r != b ==> self@[r] == old(self)@[r],
                forall|t: int| 0 <= t < c ==> self@[a as int][t] == old(self)@[b as int][t],
                forall|t: int| 0 <= t < c ==> self@[b as int][t] == old(self)@[a as int][t],
                forall|t: int| c <= t < cols ==> self@[a as int][t] == old(self)@[a as int][t],
                forall|t: int| c <= t < cols ==> self@[b as int][t] == old(self)@[b as int][t],
            decreases cols - c,
        {
            let x = *self.get(a, c);
            let y = *self.get(b, c);
            self.put(a, c, y);
            self.put(b, c, x);
            c += 1;
        }
        proof {
            let want = swapped(old(self)@, a as int, b as int);
            assert forall|r: int| 0 <= r < rows implies #[trigger] self@[r] =~= want[r] by {}
            assert(self@ =~= want);
        }
    }

    /// Reverses the stored entries, which turns the matrix by half a turn.
    pub fn reverse(&mut self)
        ensures
            final(self)@ == turned(old(self)@),
    {
        proof {
            use_type_invariant(&*self);
            assert(self.matrix@.len() == self.matrix.len());
        }
        let n = self.matrix.len();
        let half = n / 2;
        let mut lo: usize = 0;
        while lo < half
            invariant
                half == n / 2,
                lo <= half,
                self.dims == old(self).dims,
                self.dims.rows > 0,
                self.dims.cols > 0,
                n == self.dims.rows * self.dims.cols,
                self.matrix@.len() == n,
                old(self).matrix@.len() == n,
                forall|t: int| 0 <= t < lo ==> self.matrix@[t] == old(self).matrix@[n - 1 - t],
                forall|t: int| n - lo <= t < n ==> self.matrix@[t] == old(self).matrix@[n - 1 - t],
                forall|t: int| lo <= t < n - lo ==> self.matrix@[t] == old(self).matrix@[t],
            decreases half - lo,
        {
            let hi = n - 1 - lo;
            let x = self.matrix[lo];
            let y = self.matrix[hi];
            self.matrix[lo] = y;
            self.matrix[hi] = x;
            lo += 1;
        }
        proof {
            let rows = self.dims.rows as int;
            let cols = self.dims.cols as int;
            let want = turned(old(self)@);
            assert forall|t: int| 0 <= t < n implies self.matrix@[t] == old(self).matrix@[n - 1 - t] by {}
            assert forall|i: int, j: int| 0 <= i < rows && 0 <= j < cols implies #[trigger] self@[i][j]
                == want[i][j] by {
                lemma_flat_index(i, j, rows, cols);
                lemma_flat_index(rows - 1 - i, cols - 1 - j, rows, cols);
                assert(n - 1 - (i * cols + j) == (rows - 1 - i) * cols + (cols - 1 - j))
                    by (nonlinear_arith)
                    requires
                        n == rows * cols,
                ;
            }
            assert(self@ =~~= want);
        }
    }
}

impl<T: Scalar> Matrix<T> {
    /// The matrix of `rows` rows and `cols` columns whose entries are all
    /// zero; an error where either dimension is zero.
    pub fn zero(rows: usize, cols: usize) -> (r: Result<Matrix<T>, DimensionError>)
        requires
            rows * cols <= usize::MAX,
        ensures
            r is Err <==> rows == 0 || cols == 0,
            r matches Ok(m) ==> m@ == grid(rows as nat, cols as nat, |i: int, j: int| T::zero_value()),
    {
        if rows == 0 || cols == 0 {
            return Err(DimensionError);
        }
        let n = rows * cols;
        let mut data: Vec<T> = Vec::new();
        let mut k: usize = 0;
        while k < n
            invariant
                k <= n,
                data@.len() == k,
                forall|t: int| 0 <= t < k ==> data@[t] == T::zero_value(),
            decreases n - k,
        {
            data.push(T::zero());
            k += 1;
        }
        let m = Matrix { dims: Dimensions { rows, cols }, matrix: data };
        proof {
            let want = grid(rows as nat, cols as nat, |i: int, j: int| T::zero_value());
            assert forall|i: int, j: int| 0 <= i < rows && 0 <= j < cols implies #[trigger] m@[i][j]
                == want[i][j] by {
                lemma_flat_index(i, j, rows as int, cols as int);
            }
            assert(m@ =~~= want);
        }
        Ok(m)
    }

    /// The identity matrix of `dim` rows and columns; an error where `dim`
    /// is zero.
    pub fn one(dim: usize) -> (r: Result<Matrix<T>, DimensionError>)
        requires
            dim * dim <= usize::MAX,
        ensures
            r is Err <==> dim == 0,
            r matches Ok(m) ==> m@ == identity::<T>(dim as nat),
    {
        match Matrix::<T>::zero(dim, dim) {
            Err(e) => Err(e),
            Ok(mut m) => {
                let mut i: usize = 0;
                while i < dim
                    invariant
                        i <= dim,
                        m@.len() == dim,
                        forall|a: int| 0 <= a < dim ==> #[trigger] m@[a].len() == dim,
                        forall|a: int, b: int|
                            0 <= a < dim && 0 <= b < dim ==> #[trigger] m@[a][b] == (if a == b && a < i {
                                T::one_value()
                            } else {
                                T::zero_value()
                            }),
                    decreases dim - i,
                {
                    m.put(i, i, T::one());
                    i += 1;
                }
                assert(m@ =~~= identity::<T>(dim as nat));
                Ok(m)
            },
        }
    }

    /// Whether the two matrices have the same shape and the same entries.
    pub fn equals(&self, other: &Matrix<T>) -> (b: bool)
        ensures
            b == (self@ == other@),
    {
        let rows = self.row_count();
        let cols = self.col_count();
        if rows != other.row_count() || cols != other.col_count() {
            return false;
        }
        let mut i: usize = 0;
        while i < rows
            invariant
                i <= rows,
                rows == self@.len(),
                rows == other@.len(),
                is_table(self@),
                is_table(other@),
                cols == self@[0].len(),
                cols == other@[0].len(),
                forall|a: int| 0 <= a < i ==> #[trigger] self@[a] == other@[a],
            decreases rows - i,
        {
            let mut j: usize = 0;
            while j < cols
                invariant
                    i < rows,
                    j <= cols,
                    rows == self@.len(),
                    rows == other@.len(),
                    is_table(self@),
                    is_table(other@),
                    cols == self@[0].len(),
                    cols == other@[0].len(),
                    forall|b: int| 0 <= b < j ==> self@[i as int][b] == other@[i as int][b],
                decreases cols - j,
            {
                if !self.get(i, j).same(*other.get(i, j)) {
                    return false;
                }
                j += 1;
            }
            assert(self@[i as int] =~= other@[i as int]);
            i += 1;
        }
        assert(self@ =~= other@);
        true
    }
}

impl<T: Scalar> PartialEq for Matrix<T> {
    fn eq(&self, other: &Matrix<T>) -> (b: bool) {
        self.equals(other)
    }
}

impl<T: Scalar> vstd::std_specs::cmp::PartialEqSpecImpl for Matrix<T> {
    open spec fn obeys_eq_spec() -> bool {
        true
    }

    open spec fn eq_spec(&self, other: &Matrix<T>) -> bool {
        self@ == other@
    }
}

} // verus!
