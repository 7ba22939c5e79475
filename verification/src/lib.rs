//! The data side of a small binary MNIST classifier: decoding the IDX
//! files, selecting the digits 0 and 1, laying the images out as the
//! columns of a matrix, a row-major matrix type with transpose, column
//! slices, entry-wise maps, row sums and products (the arithmetic on the
//! entries handed in by the caller), and mini-batches.

pub mod batches;
pub mod folds;
pub mod idx;
pub mod matrix;
pub mod samples;
