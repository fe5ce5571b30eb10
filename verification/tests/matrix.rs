use libmat::matrix::{DimensionError, Dimensions, Matrix};

fn table(rows: usize, cols: usize, data: Vec<i64>) -> Matrix<i64> {
    Matrix::from_vec(rows, cols, data).unwrap()
}

#[test]
fn zero_rejects_a_zero_dimension() {
    assert_eq!(Matrix::<i64>::zero(0, 3), Err(DimensionError));
    assert_eq!(Matrix::<i64>::zero(3, 0), Err(DimensionError));
    assert_eq!(Matrix::<i64>::zero(0, 0), Err(DimensionError));
}

#[test]
fn zero_two_by_two_holds_four_zeros() {
    let m = Matrix::<i64>::zero(2, 2).unwrap();
    assert_eq!(m.row_count(), 2);
    assert_eq!(m.col_count(), 2);
    for i in 0..2 {
        for j in 0..2 {
            assert_eq!(m.at(i, j), Some(&0));
        }
    }
    assert_eq!(m, table(2, 2, vec![0, 0, 0, 0]));
}

#[test]
fn zero_keeps_rows_and_columns_apart() {
    let m = Matrix::<i64>::zero(2, 3).unwrap();
    assert_eq!(m.row_count(), 2);
    assert_eq!(m.col_count(), 3);
    assert!(!m.is_square());
    assert_eq!(m.at(1, 2), Some(&0));
    assert_eq!(m.at(2, 1), None);
}

#[test]
fn one_is_the_identity() {
    assert_eq!(Matrix::<i64>::one(3).unwrap(), table(3, 3, vec![1, 0, 0, 0, 1, 0, 0, 0, 1]));
    assert_eq!(Matrix::<i64>::one(1).unwrap(), table(1, 1, vec![1]));
    assert_eq!(Matrix::<i64>::one(0), Err(DimensionError));
}

#[test]
fn from_vec_is_row_major() {
    let m = table(2, 3, vec![1, 2, 3, 4, 5, 6]);
    assert_eq!(m.at(0, 0), Some(&1));
    assert_eq!(m.at(0, 2), Some(&3));
    assert_eq!(m.at(1, 0), Some(&4));
    assert_eq!(m.at(1, 2), Some(&6));
    assert_eq!(*m.get(1, 1), 5);
}

#[test]
fn from_vec_rejects_a_wrong_length() {
    assert_eq!(Matrix::from_vec(2, 2, vec![1i64, 2, 3]), Err(DimensionError));
    assert_eq!(Matrix::from_vec(2, 2, vec![1i64, 2, 3, 4, 5]), Err(DimensionError));
    assert_eq!(Matrix::from_vec(0, 2, Vec::<i64>::new()), Err(DimensionError));
    assert_eq!(Matrix::from_vec(2, 0, Vec::<i64>::new()), Err(DimensionError));
    assert_eq!(Matrix::from_vec(usize::MAX, 2, vec![1i64, 2]), Err(DimensionError));
}

#[test]
fn at_fails_out_of_bounds() {
    let m = table(2, 3, vec![1, 2, 3, 4, 5, 6]);
    assert_eq!(m.at(2, 0), None);
    assert_eq!(m.at(0, 3), None);
    assert_eq!(m.at(usize::MAX, usize::MAX), None);
}

#[test]
fn set_replaces_one_entry() {
    let mut m = table(2, 2, vec![1, 2, 3, 4]);
    assert_eq!(m.set(0, 1, 9), Ok(()));
    assert_eq!(m, table(2, 2, vec![1, 9, 3, 4]));
    assert_eq!(m.set(2, 0, 7), Err(DimensionError));
    assert_eq!(m.set(0, 2, 7), Err(DimensionError));
    assert_eq!(m, table(2, 2, vec![1, 9, 3, 4]));
    m.put(1, 0, 5);
    assert_eq!(m, table(2, 2, vec![1, 9, 5, 4]));
}

#[test]
fn equality_is_by_shape_and_entries() {
    let a = table(2, 3, vec![1, 2, 3, 4, 5, 6]);
    assert!(a.equals(&table(2, 3, vec![1, 2, 3, 4, 5, 6])));
    assert!(a == a.clone());
    assert!(!a.equals(&table(3, 2, vec![1, 2, 3, 4, 5, 6])));
    assert!(!a.equals(&table(2, 3, vec![1, 2, 3, 4, 5, 7])));
    assert!(!a.equals(&table(2, 3, vec![0, 2, 3, 4, 5, 6])));
    assert!(a != table(1, 6, vec![1, 2, 3, 4, 5, 6]));
}

#[test]
fn swap_rows_exchanges_two_rows() {
    let mut m = table(3, 2, vec![1, 2, 3, 4, 5, 6]);
    m.swap_rows(0, 2);
    assert_eq!(m, table(3, 2, vec![5, 6, 3, 4, 1, 2]));
    m.swap_rows(1, 1);
    assert_eq!(m, table(3, 2, vec![5, 6, 3, 4, 1, 2]));
}

#[test]
fn reverse_turns_the_matrix_by_half_a_turn() {
    let mut m = table(2, 3, vec![1, 2, 3, 4, 5, 6]);
    m.reverse();
    assert_eq!(m, table(2, 3, vec![6, 5, 4, 3, 2, 1]));
    let mut odd = table(3, 3, vec![1, 2, 3, 4, 5, 6, 7, 8, 9]);
    odd.reverse();
    assert_eq!(odd, table(3, 3, vec![9, 8, 7, 6, 5, 4, 3, 2, 1]));
}

#[test]
fn dimensions_are_positive() {
    assert!(Dimensions::new(0, 1).is_err());
    assert!(Dimensions::new(1, 0).is_err());
    let d = Dimensions::new(2, 5).unwrap();
    assert_eq!(d.get_rows(), 2);
    assert_eq!(d.get_cols(), 5);
    let m = table(2, 5, vec![0; 10]);
    assert_eq!(m.dims().get_rows(), 2);
    assert_eq!(m.dims().get_cols(), 5);
}

#[test]
fn at_mut_writes_through() {
    let mut m = table(2, 2, vec![1, 2, 3, 4]);
    *m.at_mut(0, 1).unwrap() = 9;
    assert_eq!(m, table(2, 2, vec![1, 9, 3, 4]));
    if let Some(e) = m.at_mut(1, 0) {
        *e += 10;
    }
    assert_eq!(m, table(2, 2, vec![1, 9, 13, 4]));
    assert!(m.at_mut(2, 0).is_none());
    assert!(m.at_mut(0, 2).is_none());
    assert_eq!(m, table(2, 2, vec![1, 9, 13, 4]));
}
