use mnist_nn::matrix::Matrix2D;

fn sample() -> Matrix2D<f32> {
    // 2 x 3:
    // 1 2 3
    // 4 5 6
    Matrix2D::new(2, 3, vec![1.0, 2.0, 3.0, 4.0, 5.0, 6.0])
}

#[test]
fn new_keeps_shape_and_data() {
    let m = sample();
    assert_eq!(m.rows, 2);
    assert_eq!(m.cols, 3);
    assert_eq!(m.data, vec![1.0, 2.0, 3.0, 4.0, 5.0, 6.0]);
}

#[test]
fn get_reads_row_major() {
    let m = sample();
    assert_eq!(m.get(0, 0), 1.0);
    assert_eq!(m.get(0, 2), 3.0);
    assert_eq!(m.get(1, 0), 4.0);
    assert_eq!(m.get(1, 2), 6.0);
}

#[test]
fn transpose_swaps_rows_and_columns() {
    let t = sample().transpose();
    assert_eq!(t.rows, 3);
    assert_eq!(t.cols, 2);
    assert_eq!(t.data, vec![1.0, 4.0, 2.0, 5.0, 3.0, 6.0]);
    assert_eq!(t.get(2, 1), 6.0);
}

#[test]
fn transpose_twice_gives_back_the_matrix() {
    let m = sample();
    let back = m.transpose().transpose();
    assert_eq!(back.rows, m.rows);
    assert_eq!(back.cols, m.cols);
    assert_eq!(back.data, m.data);
}

#[test]
fn transpose_of_empty_shapes() {
    let m: Matrix2D<u8> = Matrix2D::new(0, 4, vec![]);
    let t = m.transpose();
    assert_eq!((t.rows, t.cols), (4, 0));
    assert!(t.data.is_empty());
}

#[test]
fn transpose_of_a_column_is_a_row() {
    let m = Matrix2D::new(3, 1, vec![7u8, 8, 9]);
    let t = m.transpose();
    assert_eq!((t.rows, t.cols), (1, 3));
    assert_eq!(t.data, vec![7, 8, 9]);
}

#[test]
fn col_slice_takes_middle_columns() {
    let s = sample().col_slice(1, 3);
    assert_eq!((s.rows, s.cols), (2, 2));
    assert_eq!(s.data, vec![2.0, 3.0, 5.0, 6.0]);
}

#[test]
fn col_slice_clamps_end_to_width() {
    let s = sample().col_slice(2, 10);
    assert_eq!((s.rows, s.cols), (2, 1));
    assert_eq!(s.data, vec![3.0, 6.0]);
}

#[test]
fn col_slice_can_be_empty() {
    let s = sample().col_slice(3, 5);
    assert_eq!((s.rows, s.cols), (2, 0));
    assert!(s.data.is_empty());
}

#[test]
fn col_slice_of_all_columns_is_the_matrix() {
    let m = sample();
    let s = m.col_slice(0, 3);
    assert_eq!((s.rows, s.cols), (m.rows, m.cols));
    assert_eq!(s.data, m.data);
}

#[test]
fn clone_copies_everything() {
    let m = sample();
    let c = m.clone();
    assert_eq!((c.rows, c.cols), (2, 3));
    assert_eq!(c.data, m.data);
}

#[test]
fn map_entries_applies_to_every_entry() {
    let m = sample().map_entries(|x| x.max(2.5));
    assert_eq!((m.rows, m.cols), (2, 3));
    assert_eq!(m.data, vec![2.5, 2.5, 3.0, 4.0, 5.0, 6.0]);
}

#[test]
fn zip_entries_pairs_entries_at_the_same_place() {
    let a = sample();
    let b = Matrix2D::new(2, 3, vec![1.0f32, 1.0, 1.0, 2.0, 2.0, 2.0]);
    let d = a.zip_entries(&b, |x, y| x - y);
    assert_eq!(d.data, vec![0.0, 1.0, 2.0, 2.0, 3.0, 4.0]);
    assert_eq!((d.rows, d.cols), (2, 3));
}

#[test]
fn add_bias_uses_the_row_value() {
    let m = sample();
    let bias = Matrix2D::new(2, 1, vec![10.0f32, 20.0]);
    let r = m.add_bias(&bias, |x, b| x + b);
    assert_eq!((r.rows, r.cols), (2, 3));
    assert_eq!(r.data, vec![11.0, 12.0, 13.0, 24.0, 25.0, 26.0]);
}

#[test]
fn add_bias_on_empty_rows() {
    let m: Matrix2D<i32> = Matrix2D::new(2, 0, vec![]);
    let bias = Matrix2D::new(2, 1, vec![1, 2]);
    let r = m.add_bias(&bias, |x, b| x * b);
    assert_eq!((r.rows, r.cols), (2, 0));
    assert!(r.data.is_empty());
}

#[test]
fn zip_with_commuting_operation_ignores_argument_order() {
    let a = Matrix2D::new(2, 2, vec![1u64, 2, 3, 4]);
    let b = Matrix2D::new(2, 2, vec![5u64, 6, 7, 8]);
    let ab = a.zip_entries(&b, |x, y| x * y);
    let ba = b.zip_entries(&a, |x, y| x * y);
    assert_eq!((ab.rows, ab.cols), (ba.rows, ba.cols));
    assert_eq!(ab.data, ba.data);
    assert_eq!(ab.data, vec![5, 12, 21, 32]);
}
