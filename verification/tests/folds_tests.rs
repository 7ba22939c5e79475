use mnist_nn::folds::matrix_mult_struc_vec;
use mnist_nn::matrix::Matrix2D;

#[test]
fn sum_cols_adds_up_each_row() {
    let m = Matrix2D::new(2, 3, vec![1.0f32, 2.0, 3.0, 4.0, 5.0, 6.0]);
    let s = m.sum_cols(0.0, |t, x| t + x);
    assert_eq!((s.rows, s.cols), (2, 1));
    assert_eq!(s.data, vec![6.0, 15.0]);
}

#[test]
fn sum_cols_of_no_columns_is_the_start_value() {
    let m: Matrix2D<i64> = Matrix2D::new(3, 0, vec![]);
    let s = m.sum_cols(7, |t, x| t + x);
    assert_eq!(s.data, vec![7, 7, 7]);
}

#[test]
fn sum_cols_goes_left_to_right() {
    let m = Matrix2D::new(1, 3, vec![1i64, 2, 3]);
    // total * 10 + x records the order in which entries are taken.
    let s = m.sum_cols(0, |t, x| t * 10 + x);
    assert_eq!(s.data, vec![123]);
}

#[test]
fn matrix_product_of_small_matrices() {
    let a = Matrix2D::new(2, 3, vec![1.0f32, 2.0, 3.0, 4.0, 5.0, 6.0]);
    let b = Matrix2D::new(3, 2, vec![7.0f32, 8.0, 9.0, 10.0, 11.0, 12.0]);
    let c = matrix_mult_struc_vec(&a, &b, 0.0, |t, x, y| t + x * y);
    assert_eq!((c.rows, c.cols), (2, 2));
    assert_eq!(c.data, vec![58.0, 64.0, 139.0, 154.0]);
}

#[test]
fn matrix_product_with_identity() {
    let a = Matrix2D::new(2, 2, vec![3i64, -1, 4, 2]);
    let id = Matrix2D::new(2, 2, vec![1i64, 0, 0, 1]);
    let c = matrix_mult_struc_vec(&a, &id, 0, |t, x, y| t + x * y);
    assert_eq!(c.data, a.data);
}

#[test]
fn matrix_product_accumulates_in_increasing_k() {
    let a = Matrix2D::new(1, 3, vec![1i64, 2, 3]);
    let b = Matrix2D::new(3, 1, vec![1i64, 1, 1]);
    let c = matrix_mult_struc_vec(&a, &b, 0, |t, x, y| t * 10 + x * y);
    assert_eq!(c.data, vec![123]);
}

#[test]
fn matrix_product_with_empty_inner_dimension() {
    let a: Matrix2D<i64> = Matrix2D::new(2, 0, vec![]);
    let b: Matrix2D<i64> = Matrix2D::new(0, 3, vec![]);
    let c = matrix_mult_struc_vec(&a, &b, 5, |t, x, y| t + x * y);
    assert_eq!((c.rows, c.cols), (2, 3));
    assert_eq!(c.data, vec![5; 6]);
}
