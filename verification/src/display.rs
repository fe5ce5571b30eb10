//! The rendering of a matrix as text: entries separated by tabs, rows by
//! newlines.

use crate::matrix::Matrix;
use vstd::prelude::*;
use vstd::string::*;

verus! {

/// An entry that can be written out as text.
pub trait Render {
    /// The text of the entry.
    spec fn rendered(&self) -> Seq<char>;

    fn render(&self) -> (s: String)
        ensures
            s@ == self.rendered(),
    ;
}

/// The character of the decimal digit `d`.
pub open spec fn digit(d: nat) -> char {
    if d == 0 {
        '0'
    } else if d == 1 {
        '1'
    } else if d == 2 {
        '2'
    } else if d == 3 {
        '3'
    } else if d == 4 {
        '4'
    } else if d == 5 {
        '5'
    } else if d == 6 {
        '6'
    } else if d == 7 {
        '7'
    } else if d == 8 {
        '8'
    } else {
        '9'
    }
}

/// The decimal digits of `n`, the most significant first, with no leading
/// zero but for `0` itself.
pub open spec fn digits(n: nat) -> Seq<char>
    decreases n,
{
    if n < 10 {
        seq![digit(n)]
    } else {
        digits(n / 10).push(digit(n % 10))
    }
}

/// The decimal text of `x`: its digits, after a minus sign where `x` is
/// negative.
pub open spec fn decimal(x: int) -> Seq<char> {
    if x < 0 {
        seq!['-'] + digits((-x) as nat)
    } else {
        digits(x as nat)
    }
}

/// `ToString::to_string` for `i64`, which writes the integer as `Display`
/// does: in decimal, with a minus sign where it is negative.
#[verifier::external_body]
fn decimal_i64(x: i64) -> (s: String)
    ensures
        s@ == decimal(x as int),
{
    x.to_string()
}

impl Render for i64 {
    open spec fn rendered(&self) -> Seq<char> {
        decimal(*self as int)
    }

    fn render(&self) -> (s: String) {
        decimal_i64(*self)
    }
}

/// A text is written out as it is.
impl Render for String {
    open spec fn rendered(&self) -> Seq<char> {
        self@
    }

    fn render(&self) -> (s: String) {
        self.clone()
    }
}

/// The first `n` of `parts`, with `sep` between each two of them.
pub open spec fn joined_prefix(parts: Seq<Seq<char>>, sep: char, n: int) -> Seq<char>
    decreases n,
{
    if n <= 0 {
        Seq::empty()
    } else if n == 1 {
        parts[0]
    } else {
        joined_prefix(parts, sep, n - 1) + seq![sep] + parts[n - 1]
    }
}

/// All of `parts`, with `sep` between each two of them.
pub open spec fn joined(parts: Seq<Seq<char>>, sep: char) -> Seq<char> {
    joined_prefix(parts, sep, parts.len() as int)
}

/// The text of a row: its entries with a tab between each two.
pub open spec fn row_text<T: Render>(row: Seq<T>) -> Seq<char> {
    joined(Seq::new(row.len(), |j: int| row[j].rendered()), '\t')
}

/// The text of a table: its rows with a newline between each two, and none
/// after the last.
pub open spec fn table_text<T: Render>(m: Seq<Seq<T>>) -> Seq<char> {
    joined(Seq::new(m.len(), |i: int| row_text(m[i])), '\n')
}

impl<T: Render> Matrix<T> {
    /// The matrix as text: each row from left to right with a tab between
    /// entries, a newline between rows, and no newline at the end.
    pub fn to_string(&self) -> (s: String)
        ensures
            s@ == table_text(self@),
    {
        let rows = self.row_count();
        let cols = self.col_count();
        let ghost lines = Seq::new(self@.len(), |i: int| row_text(self@[i]));
        let mut out = String::new();
        let mut i: usize = 0;
        while i < rows
            invariant
                i <= rows,
                rows == self@.len(),
                cols == self@[0].len(),
                crate::matrix::is_table(self@),
                lines == Seq::new(self@.len(), |i: int| row_text(self@[i])),
                out@ == joined_prefix(lines, '\n', i as int),
            decreases rows - i,
        {
            let ghost cells = Seq::new(self@[i as int].len(), |j: int| self@[i as int][j].rendered());
            let mut line = String::new();
            let mut j: usize = 0;
            while j < cols
                invariant
                    i < rows,
                    j <= cols,
                    rows == self@.len(),
                    cols == self@[0].len(),
                    crate::matrix::is_table(self@),
                    cells == Seq::new(self@[i as int].len(), |j: int| self@[i as int][j].rendered()),
                    line@ == joined_prefix(cells, '\t', j as int),
                decreases cols - j,
            {
                if j > 0 {
                    proof {
                        reveal_strlit("\t");
                    }
                    line.append("\t");
                    assert("\t"@ =~= seq!['\t']);
                }
                let cell = self.get(i, j).render();
                line.append(cell.as_str());
                j += 1;
            }
            if i > 0 {
                proof {
                    reveal_strlit("\n");
                }
                out.append("\n");
                assert("\n"@ =~= seq!['\n']);
            }
            out.append(line.as_str());
            i += 1;
        }
        out
    }
}

} // verus!
