use libmat::display::Render;
use libmat::matrix::Matrix;

#[test]
fn two_by_two_renders_with_tabs_and_one_newline() {
    let m = Matrix::from_vec(2, 2, vec![1i64, 2, 3, 4]).unwrap();
    assert_eq!(m.to_string(), "1\t2\n3\t4");
}

#[test]
fn single_entry_renders_alone() {
    let m = Matrix::from_vec(1, 1, vec![-7i64]).unwrap();
    assert_eq!(m.to_string(), "-7");
}

#[test]
fn a_row_and_a_column_render() {
    let row = Matrix::from_vec(1, 3, vec![10i64, -20, 30]).unwrap();
    assert_eq!(row.to_string(), "10\t-20\t30");
    let col = Matrix::from_vec(3, 1, vec![10i64, -20, 30]).unwrap();
    assert_eq!(col.to_string(), "10\n-20\n30");
}

#[test]
fn integers_render_in_decimal() {
    assert_eq!(0i64.render(), "0");
    assert_eq!(907i64.render(), "907");
    assert_eq!((-15i64).render(), "-15");
    assert_eq!(i64::MIN.render(), "-9223372036854775808");
    assert_eq!(i64::MAX.render(), "9223372036854775807");
}

#[test]
fn texts_render_as_they_are() {
    let m = Matrix::from_vec(2, 2, vec!["a".to_string(), "-1/3".to_string(), String::new(), "2.5".to_string()])
        .unwrap();
    assert_eq!(m.to_string(), "a\t-1/3\n\t2.5");
}
