# mnist_nn

A binary classifier for the MNIST digits 0 and 1: a two-layer network
(784 inputs, 20 hidden units with ReLU, one sigmoid output) trained with
mini-batch gradient descent.

`src/` is the verified library (Verus):

- `idx` — decoding IDX image and label files (big-endian header, one byte
  per pixel or label), with checks that say exactly when a file can be
  decoded.
- `samples` — keeping the images labelled 0 or 1, and laying images out
  as the columns of a matrix (one row per pixel, one column per sample).
- `matrix` — `Matrix2D<T>`, a row-major matrix, with construction,
  element access, transpose, column slices and entry-wise maps.
- `folds` — row sums and the matrix product; the arithmetic on the
  entries is passed in as a closure.
- `batches` — cutting the samples into mini-batches of consecutive
  columns.

`app/` is the program: file reading, the `f32` arithmetic of the network
(activations, loss, gradients, weight updates) and the training loop. Run
without arguments it trains the hand-written network on the CPU; with the
argument `gpu` it trains the same architecture with Burn on CUDA. Both
expect the MNIST files under `../data/MNIST/raw/`.
