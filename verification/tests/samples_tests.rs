use mnist_nn::matrix::Matrix2D;
use mnist_nn::samples::{flatten_and_transpose, select_zeros_and_ones};

#[test]
fn select_keeps_zeros_and_ones_in_order() {
    let images = vec!["a", "b", "c", "d", "e", "f"];
    let labels = vec![5u8, 0, 1, 7, 1, 0];
    let (imgs, labs) = select_zeros_and_ones(images, labels);
    assert_eq!(imgs, vec!["b", "c", "e", "f"]);
    assert_eq!(labs, vec![0, 1, 1, 0]);
}

#[test]
fn select_with_no_zero_or_one() {
    let (imgs, labs) = select_zeros_and_ones(vec![vec![1.0f32], vec![2.0]], vec![2u8, 9]);
    assert!(imgs.is_empty());
    assert!(labs.is_empty());
}

#[test]
fn select_twice_changes_nothing() {
    let images: Vec<Vec<f32>> = (0..8).map(|i| vec![i as f32, 0.5]).collect();
    let labels = vec![1u8, 3, 0, 0, 8, 1, 2, 0];
    let (imgs, labs) = select_zeros_and_ones(images, labels);
    let (imgs2, labs2) = select_zeros_and_ones(imgs.clone(), labs.clone());
    assert_eq!(imgs2, imgs);
    assert_eq!(labs2, labs);
    assert!(labs.iter().all(|&l| l == 0 || l == 1));
}

#[test]
fn flatten_lays_images_out_as_columns() {
    let images = vec![vec![1.0f32, 2.0, 3.0], vec![4.0, 5.0, 6.0]];
    let flat = flatten_and_transpose(&images);
    assert_eq!(flat, vec![1.0, 4.0, 2.0, 5.0, 3.0, 6.0]);
}

#[test]
fn flatten_of_no_images_is_empty() {
    let images: Vec<Vec<f32>> = Vec::new();
    assert!(flatten_and_transpose(&images).is_empty());
}

#[test]
fn flatten_uses_the_first_image_length() {
    let images = vec![vec![1u8, 2], vec![3, 4, 99]];
    assert_eq!(flatten_and_transpose(&images), vec![1, 3, 2, 4]);
}

#[test]
fn image_is_column_of_the_sample_matrix() {
    let images = vec![vec![1u8, 2, 3], vec![4, 5, 6], vec![7, 8, 9], vec![10, 11, 12]];
    let x = Matrix2D::new(3, 4, flatten_and_transpose(&images));
    for (i, image) in images.iter().enumerate() {
        let column = x.col_slice(i, i + 1);
        assert_eq!(&column.data, image);
        assert_eq!(x.get(1, i), image[1]);
    }
}

#[test]
fn transposed_sample_matrix_has_images_as_rows() {
    let images = vec![vec![1u8, 2, 3], vec![4, 5, 6]];
    let x = Matrix2D::new(3, 2, flatten_and_transpose(&images));
    let t = x.transpose();
    assert_eq!((t.rows, t.cols), (2, 3));
    assert_eq!(t.data, vec![1, 2, 3, 4, 5, 6]);
}
