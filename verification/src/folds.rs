//! Row sums and the matrix product, with the arithmetic handed in as a
//! closure: the library does the indexing and the order of accumulation,
//! the caller the arithmetic on the entries.
use crate::matrix::{entry_of, lemma_row_major, Matrix2D};
use vstd::prelude::*;

verus! {

/// Row `i` of `m`, as a sequence.
pub open spec fn row_of<T>(m: &Matrix2D<T>, i: int) -> Seq<T> {
    Seq::new(m.cols as nat, |k: int| m.entry(i, k))
}

/// Column `j` of `m`, as a sequence.
pub open spec fn column_of<T>(m: &Matrix2D<T>, j: int) -> Seq<T> {
    Seq::new(m.rows as nat, |k: int| m.entry(k, j))
}

/// `totals` are the running totals of `plus` over `xs` from `init`:
/// `totals[0] == init` and `totals[k + 1]` is a result of
/// `plus(totals[k], xs[k])`.
pub open spec fn is_total_chain<T, F: Fn(T, T) -> T>(
    plus: F,
    init: T,
    xs: Seq<T>,
    totals: Seq<T>,
) -> bool {
    &&& totals.len() == xs.len() + 1
    &&& totals[0] == init
    &&& forall|k: int| 0 <= k < xs.len() ==> plus.ensures((totals[k], xs[k]), #[trigger] totals[k + 1])
}

/// `r` is what adding up `xs` with `plus`, from `init` and in order, gives.
pub open spec fn is_total_of<T, F: Fn(T, T) -> T>(plus: F, init: T, xs: Seq<T>, r: T) -> bool {
    exists|totals: Seq<T>| #[trigger] is_total_chain(plus, init, xs, totals) && totals[xs.len() as int] == r
}

/// `totals` are the running totals of `mul_add` over the pairs of `xs` and
/// `ys` from `init`: `totals[0] == init` and `totals[k + 1]` is a result of
/// `mul_add(totals[k], xs[k], ys[k])`.
pub open spec fn is_product_chain<T, F: Fn(T, T, T) -> T>(
    mul_add: F,
    init: T,
    xs: Seq<T>,
    ys: Seq<T>,
    totals: Seq<T>,
) -> bool {
    &&& totals.len() == xs.len() + 1
    &&& totals[0] == init
    &&& forall|k: int|
        0 <= k < xs.len() ==> mul_add.ensures((totals[k], xs[k], ys[k]), #[trigger] totals[k + 1])
}

/// `r` is what accumulating the products of `xs` and `ys` with `mul_add`,
/// from `init` and in order, gives.
pub open spec fn is_dot_of<T, F: Fn(T, T, T) -> T>(
    mul_add: F,
    init: T,
    xs: Seq<T>,
    ys: Seq<T>,
    r: T,
) -> bool {
    exists|totals: Seq<T>| #[trigger] is_product_chain(mul_add, init, xs, ys, totals)
        && totals[xs.len() as int] == r
}

/// The total of row `i` of `m`.
fn row_total<T: Copy, F: Fn(T, T) -> T>(m: &Matrix2D<T>, i: usize, zero: T, plus: &F) -> (r: T)
    requires
        m.wf(),
        i < m.rows,
        forall|x: T, y: T| #[trigger] plus.requires((x, y)),
    ensures
        is_total_of(*plus, zero, row_of(m, i as int), r),
{
    let ghost xs = row_of(m, i as int);
    let n = m.data.len();
    let mut acc = zero;
    let ghost mut totals: Seq<T> = seq![zero];
    let mut j: usize = 0;
    while j < m.cols
        invariant
            m.wf(),
            i < m.rows,
            forall|x: T, y: T| #[trigger] plus.requires((x, y)),
            xs == row_of(m, i as int),
            n == m.data@.len(),
            j <= m.cols,
            totals.len() == j + 1,
            totals[0] == zero,
            totals[j as int] == acc,
            forall|k: int| 0 <= k < j ==> plus.ensures((totals[k], xs[k]), #[trigger] totals[k + 1]),
        decreases m.cols - j,
    {
        proof {
            lemma_row_major(i as int, j as int, m.rows as int, m.cols as int);
        }
        let x = m.data[i * m.cols + j];
        let next = plus(acc, x);
        proof {
            totals = totals.push(next);
        }
        acc = next;
        j += 1;
    }
    assert(is_total_chain(*plus, zero, xs, totals));
    acc
}

impl<T: Copy> Matrix2D<T> {
    /// The one-column matrix of the row totals: entry `i` adds up row `i`
    /// with `plus`, from `zero` and from left to right.
    pub fn sum_cols<F: Fn(T, T) -> T>(&self, zero: T, plus: F) -> (res: Matrix2D<T>)
        requires
            self.wf(),
            forall|x: T, y: T| #[trigger] plus.requires((x, y)),
        ensures
            res.wf(),
            res.rows == self.rows,
            res.cols == 1,
            forall|i: int| 0 <= i < res.rows ==> is_total_of(plus, zero, row_of(self, i), #[trigger] res.data@[i]),
    {
        let mut data: Vec<T> = Vec::new();
        let mut i: usize = 0;
        while i < self.rows
            invariant
                self.wf(),
                forall|x: T, y: T| #[trigger] plus.requires((x, y)),
                i <= self.rows,
                data@.len() == i,
                forall|a: int| 0 <= a < i ==> is_total_of(plus, zero, row_of(self, a), #[trigger] data@[a]),
            decreases self.rows - i,
        {
            let r = row_total(self, i, zero, &plus);
            data.push(r);
            i += 1;
        }
        Matrix2D { rows: self.rows, cols: 1, data }
    }
}

/// Entry `(i, j)` of the product of `m1` and `m2`.
fn entry_product<T: Copy, F: Fn(T, T, T) -> T>(
    m1: &Matrix2D<T>,
    m2: &Matrix2D<T>,
    i: usize,
    j: usize,
    zero: T,
    mul_add: &F,
) -> (r: T)
    requires
        m1.wf(),
        m2.wf(),
        m1.cols == m2.rows,
        i < m1.rows,
        j < m2.cols,
        forall|a: T, x: T, y: T| #[trigger] mul_add.requires((a, x, y)),
    ensures
        is_dot_of(*mul_add, zero, row_of(m1, i as int), column_of(m2, j as int), r),
{
    let ghost xs = row_of(m1, i as int);
    let ghost ys = column_of(m2, j as int);
    let n1 = m1.data.len();
    let n2 = m2.data.len();
    let mut acc = zero;
    let ghost mut totals: Seq<T> = seq![zero];
    let mut k: usize = 0;
    while k < m1.cols
        invariant
            m1.wf(),
            m2.wf(),
            m1.cols == m2.rows,
            i < m1.rows,
            j < m2.cols,
            forall|a: T, x: T, y: T| #[trigger] mul_add.requires((a, x, y)),
            xs == row_of(m1, i as int),
            ys == column_of(m2, j as int),
            n1 == m1.data@.len(),
            n2 == m2.data@.len(),
            k <= m1.cols,
            totals.len() == k + 1,
            totals[0] == zero,
            totals[k as int] == acc,
            forall|t: int|
                0 <= t < k ==> mul_add.ensures((totals[t], xs[t], ys[t]), #[trigger] totals[t + 1]),
        decreases m1.cols - k,
    {
        proof {
            lemma_row_major(i as int, k as int, m1.rows as int, m1.cols as int);
            lemma_row_major(k as int, j as int, m2.rows as int, m2.cols as int);
        }
        let x = m1.data[i * m1.cols + k];
        let y = m2.data[k * m2.cols + j];
        let next = mul_add(acc, x, y);
        proof {
            totals = totals.push(next);
        }
        acc = next;
        k += 1;
    }
    assert(is_product_chain(*mul_add, zero, xs, ys, totals));
    acc
}

/// The matrix product of `matrix_1` and `matrix_2`: entry `(i, j)`
/// accumulates, from `zero` and in increasing `k`, the terms of row `i` of
/// `matrix_1` and column `j` of `matrix_2` with
/// `mul_add(total, matrix_1[i][k], matrix_2[k][j])`.
pub fn matrix_mult_struc_vec<T: Copy, F: Fn(T, T, T) -> T>(
    matrix_1: &Matrix2D<T>,
    matrix_2: &Matrix2D<T>,
    zero: T,
    mul_add: F,
) -> (res: Matrix2D<T>)
    requires
        matrix_1.wf(),
        matrix_2.wf(),
        matrix_1.cols == matrix_2.rows,
        matrix_1.rows * matrix_2.cols <= usize::MAX,
        forall|a: T, x: T, y: T| #[trigger] mul_add.requires((a, x, y)),
    ensures
        res.wf(),
        res.rows == matrix_1.rows,
        res.cols == matrix_2.cols,
        forall|i: int, j: int|
            0 <= i < res.rows && 0 <= j < res.cols ==> is_dot_of(
                mul_add,
                zero,
                row_of(matrix_1, i),
                column_of(matrix_2, j),
                #[trigger] res.entry(i, j),
            ),
{
    let rows = matrix_1.rows;
    let cols = matrix_2.cols;
    let mut data: Vec<T> = Vec::new();
    let mut i: usize = 0;
    while i < rows
        invariant
            matrix_1.wf(),
            matrix_2.wf(),
            matrix_1.cols == matrix_2.rows,
            rows == matrix_1.rows,
            cols == matrix_2.cols,
            forall|a: T, x: T, y: T| #[trigger] mul_add.requires((a, x, y)),
            i <= rows,
            data@.len() == i * cols,
            forall|a: int, b: int|
                0 <= a < i && 0 <= b < cols ==> is_dot_of(
                    mul_add,
                    zero,
                    row_of(matrix_1, a),
                    column_of(matrix_2, b),
                    #[trigger] entry_of(data@, cols as int, a, b),
                ),
        decreases rows - i,
    {
        let mut j: usize = 0;
        while j < cols
            invariant
                matrix_1.wf(),
                matrix_2.wf(),
                matrix_1.cols == matrix_2.rows,
                rows == matrix_1.rows,
                cols == matrix_2.cols,
                forall|a: T, x: T, y: T| #[trigger] mul_add.requires((a, x, y)),
                i < rows,
                j <= cols,
                data@.len() == i * cols + j,
                forall|a: int, b: int|
                    0 <= a < i && 0 <= b < cols ==> is_dot_of(
                        mul_add,
                        zero,
                        row_of(matrix_1, a),
                        column_of(matrix_2, b),
                        #[trigger] entry_of(data@, cols as int, a, b),
                    ),
                forall|b: int|
                    0 <= b < j ==> is_dot_of(
                        mul_add,
                        zero,
                        row_of(matrix_1, i as int),
                        column_of(matrix_2, b),
                        #[trigger] entry_of(data@, cols as int, i as int, b),
                    ),
            decreases cols - j,
        {
            let r = entry_product(matrix_1, matrix_2, i, j, zero, &mul_add);
            let ghost before = data@;
            data.push(r);
            proof {
                assert forall|a: int, b: int| 0 <= a < i && 0 <= b < cols implies is_dot_of(
                    mul_add,
                    zero,
                    row_of(matrix_1, a),
                    column_of(matrix_2, b),
                    #[trigger] entry_of(data@, cols as int, a, b),
                ) by {
                    lemma_row_major(a, b, i as int, cols as int);
                    assert(entry_of(data@, cols as int, a, b) == entry_of(before, cols as int, a, b));
                }
                assert forall|b: int| 0 <= b < j + 1 implies is_dot_of(
                    mul_add,
                    zero,
                    row_of(matrix_1, i as int),
                    column_of(matrix_2, b),
                    #[trigger] entry_of(data@, cols as int, i as int, b),
                ) by {
                    if b < j {
                        assert(entry_of(data@, cols as int, i as int, b) == entry_of(
                            before,
                            cols as int,
                            i as int,
                            b,
                        ));
                    }
                }
            }
            j += 1;
        }
        proof {
            assert forall|a: int, b: int| 0 <= a < i + 1 && 0 <= b < cols implies is_dot_of(
                mul_add,
                zero,
                row_of(matrix_1, a),
                column_of(matrix_2, b),
                #[trigger] entry_of(data@, cols as int, a, b),
            ) by {
                if a == i {
                    assert(is_dot_of(
                        mul_add,
                        zero,
                        row_of(matrix_1, i as int),
                        column_of(matrix_2, b),
                        entry_of(data@, cols as int, i as int, b),
                    ));
                }
            }
            assert(data@.len() == (i + 1) * cols) by (nonlinear_arith)
                requires
                    data@.len() == i * cols + cols,
            ;
        }
        i += 1;
    }
    let res = Matrix2D { rows, cols, data };
    assert forall|a: int, b: int| 0 <= a < res.rows && 0 <= b < res.cols implies is_dot_of(
        mul_add,
        zero,
        row_of(matrix_1, a),
        column_of(matrix_2, b),
        #[trigger] res.entry(a, b),
    ) by {
        assert(is_dot_of(
            mul_add,
            zero,
            row_of(matrix_1, a),
            column_of(matrix_2, b),
            entry_of(res.data@, cols as int, a, b),
        ));
    }
    res
}

} // verus!
