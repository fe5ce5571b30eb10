use libmat::matrix::Matrix;
use libmat::scalar::Scalar;

#[derive(Clone, Copy, Debug, PartialEq)]
struct Real(f64);

impl Scalar for Real {
    fn zero_value() -> Real {
        Real(0.0)
    }

    fn one_value() -> Real {
        Real(1.0)
    }

    fn add_spec(self, rhs: Real) -> Real {
        self.add(rhs)
    }

    fn sub_spec(self, rhs: Real) -> Real {
        self.sub(rhs)
    }

    fn mul_spec(self, rhs: Real) -> Real {
        self.mul(rhs)
    }

    fn div_spec(self, rhs: Real) -> Real {
        self.div(rhs)
    }

    fn abs_spec(self) -> Real {
        self.abs()
    }

    fn gt_spec(self, rhs: Real) -> bool {
        self.gt(rhs)
    }

    fn lemma_abs_zero() {
    }

    fn lemma_abs_one() {
    }

    fn lemma_zero_mul(_x: Real) {
    }

    fn lemma_sub_zero(_x: Real) {
    }

    fn lemma_div_one(_x: Real) {
    }

    fn zero() -> Real {
        Real(0.0)
    }

    fn one() -> Real {
        Real(1.0)
    }

    fn add(self, rhs: Real) -> Real {
        Real(self.0 + rhs.0)
    }

    fn sub(self, rhs: Real) -> Real {
        Real(self.0 - rhs.0)
    }

    fn mul(self, rhs: Real) -> Real {
        Real(self.0 * rhs.0)
    }

    fn div(self, rhs: Real) -> Real {
        Real(self.0 / rhs.0)
    }

    fn abs(self) -> Real {
        Real(self.0.abs())
    }

    fn gt(self, rhs: Real) -> bool {
        self.0 > rhs.0
    }

    fn same(self, rhs: Real) -> bool {
        self.0 == rhs.0
    }
}

fn reals(rows: usize, cols: usize, data: &[f64]) -> Matrix<Real> {
    Matrix::from_vec(rows, cols, data.iter().map(|x| Real(*x)).collect()).unwrap()
}

fn close(a: &Matrix<Real>, b: &Matrix<Real>) -> bool {
    if a.row_count() != b.row_count() || a.col_count() != b.col_count() {
        return false;
    }
    for i in 0..a.row_count() {
        for j in 0..a.col_count() {
            if (a.get(i, j).0 - b.get(i, j).0).abs() > 1e-9 {
                return false;
            }
        }
    }
    true
}

fn times(a: &Matrix<Real>, b: &Matrix<Real>) -> Matrix<Real> {
    let n = a.row_count();
    let mut out = Matrix::<Real>::zero(n, b.col_count()).unwrap();
    for i in 0..n {
        for j in 0..b.col_count() {
            let mut sum = Real::zero();
            for t in 0..a.col_count() {
                sum = sum.add(a.get(i, t).mul(*b.get(t, j)));
            }
            out.put(i, j, sum);
        }
    }
    out
}

#[test]
fn inv_of_a_floating_matrix() {
    let m = reals(3, 3, &[0.0, -1.0, 2.0, 1.0, 2.0, 0.0, 2.0, 1.0, 0.0]);
    let want = reals(
        3,
        3,
        &[0.0, -1.0 / 3.0, 2.0 / 3.0, 0.0, 2.0 / 3.0, -1.0 / 3.0, 1.0 / 2.0, 1.0 / 3.0, -1.0 / 6.0],
    );
    let got = m.inv().unwrap().unwrap();
    assert!(close(&got, &want));
}

#[test]
fn floating_inverse_times_matrix_is_the_identity() {
    let m = reals(3, 3, &[4.0, -2.0, 1.0, 3.0, 6.0, -4.0, 2.0, 1.0, 8.0]);
    let x = m.clone().inv().unwrap().unwrap();
    let id = Matrix::<Real>::one(3).unwrap();
    assert!(close(&times(&m, &x), &id));
    assert!(close(&times(&x, &m), &id));
}

#[test]
fn floating_inverse_of_the_inverse_is_the_matrix() {
    let m = reals(2, 2, &[1.5, 2.0, -0.5, 4.0]);
    let back = m.clone().inv().unwrap().unwrap().inv().unwrap().unwrap();
    assert!(close(&back, &m));
}

#[test]
fn floating_singular_matrix_has_no_inverse() {
    let m = reals(2, 2, &[1.0, 2.0, 2.0, 4.0]);
    assert!(m.inv().unwrap().is_none());
    let rows = reals(3, 3, &[1.0, 2.0, 3.0, 1.0, 2.0, 3.0, 0.5, 0.25, 4.0]);
    assert!(rows.inv().unwrap().is_none());
}

#[test]
fn tiny_pivot_is_not_taken_for_zero() {
    let tiny = 2f64.powi(-1000);
    let m = reals(2, 2, &[tiny, 0.0, 0.0, 1.0]);
    let x = m.inv().unwrap().unwrap();
    assert_eq!(x.get(0, 0).0, 2f64.powi(1000));
    assert_eq!(x.get(0, 1).0, 0.0);
    assert_eq!(x.get(1, 0).0, 0.0);
    assert_eq!(x.get(1, 1).0, 1.0);
}
