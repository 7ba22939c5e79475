use mnist_nn::batches::{batch_count, batch_range, get_batches};
use mnist_nn::matrix::Matrix2D;

fn data(samples: usize) -> (Matrix2D<u32>, Matrix2D<u32>) {
    // x: 2 rows of features, one column per sample; y: one label row.
    let mut xs = Vec::new();
    for r in 0..2 {
        for c in 0..samples {
            xs.push((r * 100 + c) as u32);
        }
    }
    let ys: Vec<u32> = (0..samples as u32).map(|c| c % 2).collect();
    (Matrix2D::new(2, samples, xs), Matrix2D::new(1, samples, ys))
}

#[test]
fn batch_count_rounds_up() {
    assert_eq!(batch_count(10, 4), 3);
    assert_eq!(batch_count(12, 4), 3);
    assert_eq!(batch_count(0, 16), 0);
    assert_eq!(batch_count(1, 16), 1);
    assert_eq!(batch_count(12665, 16), 792);
}

#[test]
fn batches_are_consecutive_columns() {
    let (x, y) = data(10);
    let batches = get_batches(&x, &y, 4);
    assert_eq!(batches.len(), 3);
    let widths: Vec<usize> = batches.iter().map(|(_, yb)| yb.cols).collect();
    assert_eq!(widths, vec![4, 4, 2]);
    assert_eq!(batches[1].0.data, vec![4, 5, 6, 7, 104, 105, 106, 107]);
    assert_eq!(batches[2].0.data, vec![8, 9, 108, 109]);
    assert_eq!(batches[2].1.data, vec![0, 1]);
}

#[test]
fn batches_cover_every_sample_once() {
    let (x, y) = data(13);
    let bs = 5;
    let batches = get_batches(&x, &y, bs);
    let total: usize = batches.iter().map(|(_, yb)| yb.cols).sum();
    assert_eq!(total, 13);
    for c in 0..13 {
        let (xb, yb) = &batches[c / bs];
        assert_eq!(yb.get(0, c % bs), y.get(0, c));
        assert_eq!(xb.get(1, c % bs), x.get(1, c));
    }
}

#[test]
fn no_samples_no_batches() {
    let (x, y) = data(0);
    assert!(get_batches(&x, &y, 3).is_empty());
}

#[test]
fn batch_larger_than_data() {
    let (x, y) = data(3);
    let batches = get_batches(&x, &y, 16);
    assert_eq!(batches.len(), 1);
    assert_eq!(batches[0].1.cols, 3);
    assert_eq!(batches[0].0.data, x.data);
}

#[test]
fn zero_batch_size_without_samples() {
    let (x, y) = data(0);
    assert!(get_batches(&x, &y, 0).is_empty());
}

#[test]
fn batch_count_at_the_limit() {
    assert_eq!(batch_count(usize::MAX - 1, 1), usize::MAX - 1);
}

#[test]
fn x_with_fewer_columns_gives_shorter_x_batches() {
    let (x, _) = data(5);
    let (_, y) = data(7);
    let batches = get_batches(&x, &y, 5);
    assert_eq!(batches.len(), 2);
    assert_eq!(batches[0].0.cols, 5);
    assert_eq!(batches[1].0.cols, 0);
    assert_eq!(batches[1].1.cols, 2);
}

#[test]
fn batch_range_gives_start_and_end() {
    assert_eq!(batch_range(0, 16, 100), (0, 16));
    assert_eq!(batch_range(2, 4, 10), (8, 10));
    assert_eq!(batch_range(6, 16, 100), (96, 100));
    assert_eq!(batch_range(3, 5, 12), (15, 12));
    assert_eq!(batch_range(4, 0, 9), (0, 0));
}
