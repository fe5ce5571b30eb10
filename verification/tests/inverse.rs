use libmat::matrix::{DimensionError, Matrix};

fn table(rows: usize, cols: usize, data: Vec<i64>) -> Matrix<i64> {
    Matrix::from_vec(rows, cols, data).unwrap()
}

#[test]
fn inv_of_a_singular_integer_matrix_is_none() {
    let m = table(3, 3, vec![1, 0, 0, 0, 1, 0, 0, 0, 0]);
    assert_eq!(m.inv(), Ok(None));
}

#[test]
fn inv_of_a_matrix_with_two_equal_rows_is_none() {
    let m = table(3, 3, vec![1, 2, 3, 1, 2, 3, 0, 1, 5]);
    assert_eq!(m.inv(), Ok(None));
}

#[test]
fn inv_of_a_matrix_with_a_zero_row_is_none() {
    let m = table(2, 2, vec![0, 0, 3, 4]);
    assert_eq!(m.inv(), Ok(None));
}

#[test]
fn inv_of_a_matrix_that_is_not_square_is_an_error() {
    assert_eq!(table(2, 3, vec![1, 2, 3, 4, 5, 6]).inv(), Err(DimensionError));
    assert_eq!(table(3, 1, vec![1, 2, 3]).inv(), Err(DimensionError));
}

#[test]
fn inv_of_the_identity_is_the_identity() {
    for n in 1..6 {
        let id = Matrix::<i64>::one(n).unwrap();
        assert_eq!(id.clone().inv(), Ok(Some(id)));
    }
}

#[test]
fn inv_of_a_shear_is_the_opposite_shear() {
    let m = table(2, 2, vec![1, 1, 0, 1]);
    assert_eq!(m.inv(), Ok(Some(table(2, 2, vec![1, -1, 0, 1]))));
}

#[test]
fn inv_undoes_a_row_exchange() {
    let m = table(3, 3, vec![0, 1, 0, 0, 0, 1, 1, 0, 0]);
    assert_eq!(m.inv(), Ok(Some(table(3, 3, vec![0, 0, 1, 1, 0, 0, 0, 1, 0]))));
}

#[test]
fn inv_of_an_integer_matrix_with_unit_pivots() {
    // [[1, 2, 3], [0, 1, 4], [0, 0, 1]] has the inverse [[1, -2, 5], [0, 1, -4], [0, 0, 1]].
    let m = table(3, 3, vec![1, 2, 3, 0, 1, 4, 0, 0, 1]);
    assert_eq!(m.inv(), Ok(Some(table(3, 3, vec![1, -2, 5, 0, 1, -4, 0, 0, 1]))));
}

#[test]
fn inv_twice_gives_the_matrix_back() {
    let m = table(3, 3, vec![1, 2, 3, 0, 1, 4, 0, 0, 1]);
    let back = m.clone().inv().unwrap().unwrap().inv().unwrap().unwrap();
    assert_eq!(back, m);
}

#[test]
fn lupdecompose_rejects_a_matrix_that_is_not_square() {
    assert_eq!(table(2, 3, vec![1, 2, 3, 4, 5, 6]).lupdecompose(), Err(DimensionError));
}

#[test]
fn lupdecompose_picks_the_largest_magnitude() {
    // Column 0 holds 2 and -4: row 1 becomes the pivot row, and the
    // multiplier of the other row is 2 / -4, which truncates to 0.
    let m = table(2, 2, vec![2, 1, -4, 3]);
    let (f, p) = m.lupdecompose().unwrap().unwrap();
    assert_eq!(p, vec![1, 0]);
    assert_eq!(f, table(2, 2, vec![-4, 3, 0, 1]));
}

#[test]
fn lupdecompose_keeps_the_first_of_equal_magnitudes() {
    let m = table(3, 3, vec![1, 5, 0, -1, 0, 2, 1, 0, 0]);
    let (f, p) = m.lupdecompose().unwrap().unwrap();
    // Column 0: all magnitudes are 1, row 0 stays. Multipliers -1 and 1.
    // Rows become [-1, 5, 2] and [1, -5, 0]; column 1: both magnitudes 5, row 1 stays.
    // Multiplier -5 / 5 = -1, last entry 0 - (-1) * 2 = 2.
    assert_eq!(p, vec![0, 1, 2]);
    assert_eq!(f, table(3, 3, vec![1, 5, 0, -1, 5, 2, 1, -1, 2]));
}

#[test]
fn lupdecompose_stores_multipliers_below_the_diagonal() {
    let m = table(3, 3, vec![2, 4, 6, 4, 9, 14, 8, 10, 12]);
    let (f, p) = m.lupdecompose().unwrap().unwrap();
    // Pivot 8 (row 2 comes first); multipliers 4 / 8 = 0 and 2 / 8 = 0, so the
    // other rows stay; column 1: 9 against 4, row 1 stays; multiplier 4 / 9 = 0.
    assert_eq!(p, vec![2, 1, 0]);
    assert_eq!(f, table(3, 3, vec![8, 10, 12, 0, 9, 14, 0, 0, 6]));
}

#[test]
fn lupdecompose_of_a_singular_matrix_is_none() {
    assert_eq!(table(2, 2, vec![0, 1, 0, 2]).lupdecompose(), Ok(None));
    assert_eq!(table(1, 1, vec![0]).lupdecompose(), Ok(None));
}
