use libmat::display::Render;
use libmat::matrix::{DimensionError, Matrix};
use libmat::scalar::Scalar;

fn bits(rows: usize, cols: usize, data: &[u8]) -> Matrix<bool> {
    Matrix::from_vec(rows, cols, data.iter().map(|b| *b == 1).collect()).unwrap()
}

fn times(a: &Matrix<bool>, b: &Matrix<bool>) -> Matrix<bool> {
    let mut out = Matrix::<bool>::zero(a.row_count(), b.col_count()).unwrap();
    for i in 0..a.row_count() {
        for j in 0..b.col_count() {
            let mut sum = <bool as Scalar>::zero();
            for t in 0..a.col_count() {
                sum = Scalar::add(sum, Scalar::mul(*a.get(i, t), *b.get(t, j)));
            }
            out.put(i, j, sum);
        }
    }
    out
}

#[test]
fn arithmetic_modulo_two() {
    assert_eq!(Scalar::add(true, true), false);
    assert_eq!(Scalar::add(true, false), true);
    assert_eq!(Scalar::sub(false, true), true);
    assert_eq!(Scalar::mul(true, true), true);
    assert_eq!(Scalar::mul(true, false), false);
    assert_eq!(Scalar::div(true, true), true);
    assert_eq!(Scalar::div(false, true), false);
    assert_eq!(Scalar::abs(true), true);
    assert!(Scalar::gt(true, false));
    assert!(!Scalar::gt(false, true));
    assert!(!Scalar::gt(true, true));
    assert!(Scalar::same(false, false));
    assert_eq!(<bool as Scalar>::zero(), false);
    assert_eq!(<bool as Scalar>::one(), true);
}

#[test]
fn inverse_modulo_two_is_exact() {
    let m = bits(3, 3, &[1, 1, 0, 0, 1, 1, 1, 1, 1]);
    let x = m.clone().inv().unwrap().unwrap();
    assert_eq!(x, bits(3, 3, &[0, 1, 1, 1, 1, 1, 1, 0, 1]));
    let id = Matrix::<bool>::one(3).unwrap();
    assert_eq!(times(&m, &x), id);
    assert_eq!(times(&x, &m), id);
}

#[test]
fn every_two_by_two_matrix_modulo_two() {
    let id = Matrix::<bool>::one(2).unwrap();
    for code in 0u8..16 {
        let cells = [code & 1, (code >> 1) & 1, (code >> 2) & 1, (code >> 3) & 1];
        let m = bits(2, 2, &cells);
        let det = (cells[0] & cells[3]) ^ (cells[1] & cells[2]);
        match m.clone().inv().unwrap() {
            None => assert_eq!(det, 0),
            Some(x) => {
                assert_eq!(det, 1);
                assert_eq!(times(&m, &x), id);
                assert_eq!(times(&x, &m), id);
                assert_eq!(x.inv(), Ok(Some(m)));
            },
        }
    }
}

#[test]
fn identity_modulo_two_is_its_own_inverse() {
    for n in 1..5 {
        let id = Matrix::<bool>::one(n).unwrap();
        assert_eq!(id.clone().inv(), Ok(Some(id)));
    }
}

#[test]
fn singular_modulo_two() {
    assert_eq!(bits(2, 2, &[1, 1, 1, 1]).inv(), Ok(None));
    assert_eq!(bits(3, 3, &[0, 1, 0, 1, 0, 0, 0, 1, 0]).inv(), Ok(None));
    assert_eq!(bits(2, 3, &[1, 0, 0, 0, 1, 0]).inv(), Err(DimensionError));
}

#[test]
fn bits_render_as_digits() {
    assert_eq!(true.render(), "1");
    assert_eq!(false.render(), "0");
    assert_eq!(bits(2, 2, &[1, 0, 0, 1]).to_string(), "1\t0\n0\t1");
}
