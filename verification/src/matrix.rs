use vstd::arithmetic::div_mod::lemma_fundamental_div_mod;
use vstd::prelude::*;

verus! {

/// Facts about the row-major position `i * cols + j` of an entry.
pub proof fn lemma_row_major(i: int, j: int, rows: int, cols: int)
    by (nonlinear_arith)
    requires
        0 <= i < rows,
        0 <= j < cols,
    ensures
        0 <= i * cols,
        0 <= i * cols + j < rows * cols,
        i * cols + j < (i + 1) * cols,
        (i + 1) * cols == i * cols + cols,
        (i + 1) * cols <= rows * cols,
{
}

/// Every position below `rows * cols` is the row-major position of an
/// entry: `k == (k / cols) * cols + k % cols` with row `k / cols < rows`.
pub proof fn lemma_position_split(k: int, rows: int, cols: int)
    requires
        0 <= k < rows * cols,
        0 <= rows,
        0 <= cols,
    ensures
        cols > 0,
        0 <= k / cols < rows,
        0 <= k % cols < cols,
        k == (k / cols) * cols + k % cols,
{
    if cols <= 0 {
        assert(rows * cols <= 0) by (nonlinear_arith)
            requires
                rows >= 0,
                cols <= 0,
        ;
    }
    lemma_fundamental_div_mod(k, cols);
    let i = k / cols;
    let j = k % cols;
    assert(k == cols * i + j);
    assert(0 <= i < rows) by (nonlinear_arith)
        requires
            k == cols * i + j,
            0 <= j < cols,
            0 <= k < rows * cols,
    ;
    assert(cols * i == i * cols) by (nonlinear_arith);
}

/// A dense matrix stored row by row: the entry in row `i` and column `j`
/// is `data[i * cols + j]`.
pub struct Matrix2D<T> {
    pub rows: usize,
    pub cols: usize,
    pub data: Vec<T>,
}

/// The entry in row `i`, column `j` of a row-major sequence with `cols` columns.
pub open spec fn entry_of<T>(data: Seq<T>, cols: int, i: int, j: int) -> T {
    data[i * cols + j]
}

impl<T> Matrix2D<T> {
    /// The storage holds exactly `rows * cols` entries.
    pub open spec fn wf(&self) -> bool {
        self.data@.len() == self.rows * self.cols
    }

    /// The entry in row `i`, column `j`.
    pub open spec fn entry(&self, i: int, j: int) -> T {
        entry_of(self.data@, self.cols as int, i, j)
    }

    /// Both matrices have the same shape and the same entries.
    pub open spec fn same_as(&self, other: &Matrix2D<T>) -> bool {
        &&& self.rows == other.rows
        &&& self.cols == other.cols
        &&& self.data@ == other.data@
    }

    /// `self` has the shape of `m` turned on its side and holds `m`'s entry
    /// `(j, i)` at `(i, j)`.
    pub open spec fn is_transpose_of(&self, m: &Matrix2D<T>) -> bool {
        &&& self.rows == m.cols
        &&& self.cols == m.rows
        &&& forall|i: int, j: int|
            0 <= i < self.rows && 0 <= j < self.cols ==> #[trigger] self.entry(i, j) == m.entry(j, i)
    }

    /// `self` is made of the columns `start .. end` of `m`, in order.
    pub open spec fn is_column_block_of(&self, m: &Matrix2D<T>, start: int, end: int) -> bool {
        &&& self.rows == m.rows
        &&& self.cols == end - start
        &&& forall|i: int, j: int|
            0 <= i < self.rows && 0 <= j < self.cols ==> #[trigger] self.entry(i, j) == m.entry(
                i,
                start + j,
            )
    }

    /// `self` has the shape of `a`, and each stored entry is a result of `f`
    /// applied to the entries of `a` and `b` at the same position.
    pub open spec fn is_zip_of<F: Fn(T, T) -> T>(&self, a: &Matrix2D<T>, b: &Matrix2D<T>, f: F) -> bool {
        &&& self.rows == a.rows
        &&& self.cols == a.cols
        &&& forall|k: int|
            0 <= k < self.data@.len() ==> f.ensures((a.data@[k], b.data@[k]), #[trigger] self.data@[k])
    }

    /// Builds a matrix from row-major data of exactly `rows * cols` entries.
    pub fn new(rows: usize, cols: usize, data: Vec<T>) -> (res: Matrix2D<T>)
        requires
            data@.len() == rows * cols,
        ensures
            res.wf(),
            res.rows == rows,
            res.cols == cols,
            res.data@ == data@,
    {
        Matrix2D { rows, cols, data }
    }

    /// The value at row-major position `row * cols + col`, which must lie
    /// inside the storage.
    pub fn get(&self, row: usize, col: usize) -> (res: T) where T: Copy
        requires
            row * self.cols + col < self.data@.len(),
        ensures
            res == self.entry(row as int, col as int),
    {
        let n = self.data.len();
        assert(row * self.cols + col < n);
        self.data[row * self.cols + col]
    }

    /// The transposed matrix: `rows` and `cols` swap, and the entry at
    /// `(i, j)` is this matrix's entry at `(j, i)`.
    pub fn transpose(&self) -> (res: Matrix2D<T>) where T: Copy
        requires
            self.wf(),
        ensures
            res.wf(),
            res.is_transpose_of(self),
    {
        let rows = self.rows;
        let cols = self.cols;
        let n = self.data.len();
        let mut data: Vec<T> = Vec::new();
        let mut r: usize = 0;
        while r < cols
            invariant
                self.wf(),
                rows == self.rows,
                cols == self.cols,
                n == self.data@.len(),
                r <= cols,
                data@.len() == r * rows,
                forall|i: int, j: int|
                    0 <= i < r && 0 <= j < rows ==> #[trigger] entry_of(data@, rows as int, i, j)
                        == self.entry(j, i),
            decreases cols - r,
        {
            let mut c: usize = 0;
            while c < rows
                invariant
                    self.wf(),
                    rows == self.rows,
                    cols == self.cols,
                    n == self.data@.len(),
                    r < cols,
                    c <= rows,
                    data@.len() == r * rows + c,
                    forall|i: int, j: int|
                        0 <= i < r && 0 <= j < rows ==> #[trigger] entry_of(data@, rows as int, i, j)
                            == self.entry(j, i),
                    forall|j: int|
                        0 <= j < c ==> #[trigger] entry_of(data@, rows as int, r as int, j)
                            == self.entry(j, r as int),
                decreases rows - c,
            {
                proof {
                    lemma_row_major(c as int, r as int, rows as int, cols as int);
                }
                let x = self.data[c * cols + r];
                let ghost old_data = data@;
                data.push(x);
                proof {
                    assert forall|i: int, j: int|
                        0 <= i < r && 0 <= j < rows implies #[trigger] entry_of(
                        data@,
                        rows as int,
                        i,
                        j,
                    ) == self.entry(j, i) by {
                        lemma_row_major(i, j, r as int, rows as int);
                        assert(entry_of(old_data, rows as int, i, j) == self.entry(j, i));
                    }
                    assert forall|j: int| 0 <= j < c + 1 implies #[trigger] entry_of(
                        data@,
                        rows as int,
                        r as int,
                        j,
                    ) == self.entry(j, r as int) by {
                        if j < c {
                            assert(entry_of(old_data, rows as int, r as int, j) == self.entry(
                                j,
                                r as int,
                            ));
                        }
                    }
                }
                c += 1;
            }
            proof {
                assert forall|i: int, j: int|
                    0 <= i < r + 1 && 0 <= j < rows implies #[trigger] entry_of(
                    data@,
                    rows as int,
                    i,
                    j,
                ) == self.entry(j, i) by {
                    if i == r {
                        assert(entry_of(data@, rows as int, r as int, j) == self.entry(j, r as int));
                    }
                }
                assert(data@.len() == (r + 1) * rows) by (nonlinear_arith)
                    requires
                        data@.len() == r * rows + rows,
                ;
            }
            r += 1;
        }
        proof {
            assert(data@.len() == cols * rows);
            assert(cols * rows == rows * cols) by (nonlinear_arith);
        }
        let res = Matrix2D { rows: cols, cols: rows, data };
        assert forall|i: int, j: int|
            0 <= i < res.rows && 0 <= j < res.cols implies #[trigger] res.entry(i, j) == self.entry(
            j,
            i,
        ) by {
            assert(entry_of(res.data@, rows as int, i, j) == self.entry(j, i));
        }
        res
    }
}

impl<T: Copy> Matrix2D<T> {
    /// The columns `start .. min(end, cols)` of this matrix, in order.
    /// `start` may not lie past `min(end, cols)`.
    pub fn col_slice(&self, start: usize, end: usize) -> (res: Matrix2D<T>)
        requires
            self.wf(),
            start <= end,
            start <= self.cols,
        ensures
            res.wf(),
            res.is_column_block_of(self, start as int, if end < self.cols { end as int } else { self.cols as int }),
    {
        let rows = self.rows;
        let cols = self.cols;
        let n = self.data.len();
        let end = if end < cols { end } else { cols };
        let new_cols = end - start;
        let mut data: Vec<T> = Vec::new();
        let mut i: usize = 0;
        while i < rows
            invariant
                self.wf(),
                rows == self.rows,
                cols == self.cols,
                n == self.data@.len(),
                start + new_cols <= cols,
                i <= rows,
                data@.len() == i * new_cols,
                forall|a: int, b: int|
                    0 <= a < i && 0 <= b < new_cols ==> #[trigger] entry_of(data@, new_cols as int, a, b)
                        == self.entry(a, start + b),
            decreases rows - i,
        {
            let mut j: usize = 0;
            while j < new_cols
                invariant
                    self.wf(),
                    rows == self.rows,
                    cols == self.cols,
                    n == self.data@.len(),
                    start + new_cols <= cols,
                    i < rows,
                    j <= new_cols,
                    data@.len() == i * new_cols + j,
                    forall|a: int, b: int|
                        0 <= a < i && 0 <= b < new_cols ==> #[trigger] entry_of(
                            data@,
                            new_cols as int,
                            a,
                            b,
                        ) == self.entry(a, start + b),
                    forall|b: int|
                        0 <= b < j ==> #[trigger] entry_of(data@, new_cols as int, i as int, b)
                            == self.entry(i as int, start + b),
                decreases new_cols - j,
            {
                proof {
                    lemma_row_major(i as int, (start + j) as int, rows as int, cols as int);
                }
                let x = self.data[i * cols + (start + j)];
                let ghost old_data = data@;
                data.push(x);
                proof {
                    assert forall|a: int, b: int|
                        0 <= a < i && 0 <= b < new_cols implies #[trigger] entry_of(
                        data@,
                        new_cols as int,
                        a,
                        b,
                    ) == self.entry(a, start + b) by {
                        lemma_row_major(a, b, i as int, new_cols as int);
                        assert(entry_of(old_data, new_cols as int, a, b) == self.entry(a, start + b));
                    }
                    assert forall|b: int| 0 <= b < j + 1 implies #[trigger] entry_of(
                        data@,
                        new_cols as int,
                        i as int,
                        b,
                    ) == self.entry(i as int, start + b) by {
                        if b < j {
                            assert(entry_of(old_data, new_cols as int, i as int, b) == self.entry(
                                i as int,
                                start + b,
                            ));
                        }
                    }
                }
                j += 1;
            }
            proof {
                assert forall|a: int, b: int|
                    0 <= a < i + 1 && 0 <= b < new_cols implies #[trigger] entry_of(
                    data@,
                    new_cols as int,
                    a,
                    b,
                ) == self.entry(a, start + b) by {
                    if a == i {
                        assert(entry_of(data@, new_cols as int, i as int, b) == self.entry(
                            i as int,
                            start + b,
                        ));
                    }
                }
                assert(data@.len() == (i + 1) * new_cols) by (nonlinear_arith)
                    requires
                        data@.len() == i * new_cols + new_cols,
                ;
            }
            i += 1;
        }
        let res = Matrix2D { rows, cols: new_cols, data };
        assert forall|a: int, b: int|
            0 <= a < res.rows && 0 <= b < res.cols implies #[trigger] res.entry(a, b) == self.entry(
            a,
            start + b,
        ) by {
            assert(entry_of(res.data@, new_cols as int, a, b) == self.entry(a, start + b));
        }
        res
    }
}

impl<T: Copy> Matrix2D<T> {
    /// A matrix of the same shape whose every entry is `f` applied to the
    /// entry at the same place.
    pub fn map_entries<F: Fn(T) -> T>(&self, f: F) -> (res: Matrix2D<T>)
        requires
            self.wf(),
            forall|x: T| #[trigger] f.requires((x,)),
        ensures
            res.wf(),
            res.rows == self.rows,
            res.cols == self.cols,
            forall|k: int|
                0 <= k < res.data@.len() ==> f.ensures((self.data@[k],), #[trigger] res.data@[k]),
    {
        let mut data: Vec<T> = Vec::new();
        let mut k: usize = 0;
        while k < self.data.len()
            invariant
                k <= self.data@.len(),
                data@.len() == k,
                forall|x: T| #[trigger] f.requires((x,)),
                forall|i: int| 0 <= i < k ==> f.ensures((self.data@[i],), #[trigger] data@[i]),
            decreases self.data@.len() - k,
        {
            let y = f(self.data[k]);
            data.push(y);
            k += 1;
        }
        Matrix2D { rows: self.rows, cols: self.cols, data }
    }

    /// A matrix of the shape of both inputs whose every entry is `f`
    /// applied to the entries of `self` and `other` at the same place.
    pub fn zip_entries<F: Fn(T, T) -> T>(&self, other: &Matrix2D<T>, f: F) -> (res: Matrix2D<T>)
        requires
            self.wf(),
            other.wf(),
            self.rows == other.rows,
            self.cols == other.cols,
            forall|x: T, y: T| #[trigger] f.requires((x, y)),
        ensures
            res.wf(),
            res.is_zip_of(self, other, f),
    {
        let mut data: Vec<T> = Vec::new();
        let mut k: usize = 0;
        while k < self.data.len()
            invariant
                self.data@.len() == other.data@.len(),
                k <= self.data@.len(),
                data@.len() == k,
                forall|x: T, y: T| #[trigger] f.requires((x, y)),
                forall|i: int|
                    0 <= i < k ==> f.ensures((self.data@[i], other.data@[i]), #[trigger] data@[i]),
            decreases self.data@.len() - k,
        {
            let y = f(self.data[k], other.data[k]);
            data.push(y);
            k += 1;
        }
        Matrix2D { rows: self.rows, cols: self.cols, data }
    }

    /// Adds entry `i` of the one-column matrix `column` to every entry of
    /// row `i`, with the caller's addition `f`: the entry `(i, j)` of the
    /// result is `f` applied to this matrix's entry `(i, j)` and
    /// `column`'s entry `i`.
    pub fn add_bias<F: Fn(T, T) -> T>(&self, column: &Matrix2D<T>, f: F) -> (res: Matrix2D<T>)
        requires
            self.wf(),
            column.wf(),
            self.rows == column.rows,
            column.cols == 1,
            forall|x: T, y: T| #[trigger] f.requires((x, y)),
        ensures
            res.wf(),
            res.rows == self.rows,
            res.cols == self.cols,
            forall|i: int, j: int|
                0 <= i < res.rows && 0 <= j < res.cols ==> f.ensures(
                    (self.entry(i, j), column.data@[i]),
                    #[trigger] res.entry(i, j),
                ),
    {
        let rows = self.rows;
        let cols = self.cols;
        let n = self.data.len();
        let mut data: Vec<T> = Vec::new();
        let mut i: usize = 0;
        while i < rows
            invariant
                self.wf(),
                column.wf(),
                rows == self.rows,
                cols == self.cols,
                n == self.data@.len(),
                column.rows == rows,
                column.cols == 1,
                forall|x: T, y: T| #[trigger] f.requires((x, y)),
                i <= rows,
                data@.len() == i * cols,
                forall|a: int, b: int|
                    0 <= a < i && 0 <= b < cols ==> f.ensures(
                        (self.entry(a, b), column.data@[a]),
                        #[trigger] entry_of(data@, cols as int, a, b),
                    ),
            decreases rows - i,
        {
            proof {
                assert(column.data@.len() == rows) by (nonlinear_arith)
                    requires
                        column.data@.len() == column.rows * column.cols,
                        column.cols == 1,
                        column.rows == rows,
                ;
            }
            let bias = column.data[i];
            let mut j: usize = 0;
            while j < cols
                invariant
                    self.wf(),
                    rows == self.rows,
                    cols == self.cols,
                    n == self.data@.len(),
                    i < rows,
                    bias == column.data@[i as int],
                    forall|x: T, y: T| #[trigger] f.requires((x, y)),
                    j <= cols,
                    data@.len() == i * cols + j,
                    forall|a: int, b: int|
                        0 <= a < i && 0 <= b < cols ==> f.ensures(
                            (self.entry(a, b), column.data@[a]),
                            #[trigger] entry_of(data@, cols as int, a, b),
                        ),
                    forall|b: int|
                        0 <= b < j ==> f.ensures(
                            (self.entry(i as int, b), column.data@[i as int]),
                            #[trigger] entry_of(data@, cols as int, i as int, b),
                        ),
                decreases cols - j,
            {
                proof {
                    lemma_row_major(i as int, j as int, rows as int, cols as int);
                }
                let y = f(self.data[i * cols + j], bias);
                let ghost before = data@;
                data.push(y);
                proof {
                    assert forall|a: int, b: int| 0 <= a < i && 0 <= b < cols implies f.ensures(
                        (self.entry(a, b), column.data@[a]),
                        #[trigger] entry_of(data@, cols as int, a, b),
                    ) by {
                        lemma_row_major(a, b, i as int, cols as int);
                        assert(entry_of(data@, cols as int, a, b) == entry_of(
                            before,
                            cols as int,
                            a,
                            b,
                        ));
                    }
                    assert forall|b: int| 0 <= b < j + 1 implies f.ensures(
                        (self.entry(i as int, b), column.data@[i as int]),
                        #[trigger] entry_of(data@, cols as int, i as int, b),
                    ) by {
                        if b < j {
                            assert(entry_of(data@, cols as int, i as int, b) == entry_of(
                                before,
                                cols as int,
                                i as int,
                                b,
                            ));
                        }
                    }
                }
                j += 1;
            }
            proof {
                assert forall|a: int, b: int| 0 <= a < i + 1 && 0 <= b < cols implies f.ensures(
                    (self.entry(a, b), column.data@[a]),
                    #[trigger] entry_of(data@, cols as int, a, b),
                ) by {
                    if a == i {
                        assert(f.ensures(
                            (self.entry(i as int, b), column.data@[i as int]),
                            entry_of(data@, cols as int, i as int, b),
                        ));
                    }
                }
                assert(data@.len() == (i + 1) * cols) by (nonlinear_arith)
                    requires
                        data@.len() == i * cols + cols,
                ;
            }
            i += 1;
        }
        let res = Matrix2D { rows, cols, data };
        assert forall|a: int, b: int| 0 <= a < res.rows && 0 <= b < res.cols implies f.ensures(
            (self.entry(a, b), column.data@[a]),
            #[trigger] res.entry(a, b),
        ) by {
            assert(f.ensures(
                (self.entry(a, b), column.data@[a]),
                entry_of(res.data@, cols as int, a, b),
            ));
        }
        res
    }
}

/// Combining two matrices entry by entry with an operation that commutes
/// gives the same matrix whichever comes first: where every result of `f`
/// on `(x, y)` is `op(x, y)` and `op(x, y) == op(y, x)`, zipping `a` with
/// `b` and zipping `b` with `a` give the same shape and the same entries.
pub proof fn lemma_zip_commutes<T, F: Fn(T, T) -> T>(
    a: &Matrix2D<T>,
    b: &Matrix2D<T>,
    ab: &Matrix2D<T>,
    ba: &Matrix2D<T>,
    f: F,
    op: spec_fn(T, T) -> T,
)
    requires
        a.wf(),
        b.wf(),
        a.rows == b.rows,
        a.cols == b.cols,
        ab.wf(),
        ba.wf(),
        ab.is_zip_of(a, b, f),
        ba.is_zip_of(b, a, f),
        forall|x: T, y: T, r: T| #[trigger] f.ensures((x, y), r) ==> r == op(x, y),
        forall|x: T, y: T| #[trigger] op(x, y) == op(y, x),
    ensures
        ab.same_as(ba),
{
    assert forall|k: int| 0 <= k < ab.data@.len() implies ab.data@[k] == ba.data@[k] by {
        assert(f.ensures((a.data@[k], b.data@[k]), ab.data@[k]));
        assert(f.ensures((b.data@[k], a.data@[k]), ba.data@[k]));
        assert(op(a.data@[k], b.data@[k]) == op(b.data@[k], a.data@[k]));
    }
    assert(ab.data@ =~= ba.data@);
}

/// Storage is row-major: the entry in row `i`, column `j` of a matrix with
/// `cols` columns is element `i * cols + j` of its data.
pub proof fn lemma_entry_is_row_major<T>(m: &Matrix2D<T>)
    ensures
        forall|i: int, j: int| #[trigger] m.entry(i, j) == m.data@[i * m.cols + j],
{
}

/// Transposing a matrix twice gives back the matrix one started from:
/// same shape, same entries, same storage.
pub proof fn lemma_transpose_twice<T>(a: &Matrix2D<T>, b: &Matrix2D<T>, c: &Matrix2D<T>)
    requires
        a.wf(),
        b.wf(),
        c.wf(),
        b.is_transpose_of(a),
        c.is_transpose_of(b),
    ensures
        c.same_as(a),
{
    assert forall|k: int| 0 <= k < a.data@.len() implies c.data@[k] == a.data@[k] by {
        lemma_position_split(k, a.rows as int, a.cols as int);
        let i = k / (a.cols as int);
        let j = k % (a.cols as int);
        assert(c.entry(i, j) == b.entry(j, i));
        assert(b.entry(j, i) == a.entry(i, j));
    }
    assert(c.data@ =~= a.data@);
}

/// Slicing out all columns gives back the matrix.
pub proof fn lemma_full_column_slice<T>(m: &Matrix2D<T>, s: &Matrix2D<T>)
    requires
        m.wf(),
        s.wf(),
        s.is_column_block_of(m, 0, m.cols as int),
    ensures
        s.same_as(m),
{
    assert forall|k: int| 0 <= k < m.data@.len() implies s.data@[k] == m.data@[k] by {
        lemma_position_split(k, m.rows as int, m.cols as int);
        let i = k / (m.cols as int);
        let j = k % (m.cols as int);
        assert(s.entry(i, j) == m.entry(i, 0 + j));
    }
    assert(s.data@ =~= m.data@);
}

impl<T: Copy> Clone for Matrix2D<T> {
    /// An entry-for-entry copy.
    fn clone(&self) -> (res: Self)
        ensures
            res.same_as(self),
    {
        let mut data: Vec<T> = Vec::new();
        let mut k: usize = 0;
        while k < self.data.len()
            invariant
                k <= self.data@.len(),
                data@ == self.data@.take(k as int),
            decreases self.data@.len() - k,
        {
            data.push(self.data[k]);
            proof {
                assert(data@ =~= self.data@.take(k + 1));
            }
            k += 1;
        }
        proof {
            assert(data@ =~= self.data@);
        }
        Matrix2D { rows: self.rows, cols: self.cols, data }
    }
}

} // verus!
