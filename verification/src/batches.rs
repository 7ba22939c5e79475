//! Splitting a training set into mini-batches of consecutive columns.
use crate::matrix::Matrix2D;
use vstd::arithmetic::div_mod::lemma_fundamental_div_mod;
use vstd::prelude::*;

verus! {

/// `a / b == q` whenever `q * b <= a < q * b + b`.
pub proof fn lemma_quotient(a: int, b: int, q: int)
    requires
        b > 0,
        q * b <= a < q * b + b,
    ensures
        a / b == q,
        a % b == a - q * b,
{
    lemma_fundamental_div_mod(a, b);
    let d = a / b;
    let r = a % b;
    assert(d == q) by (nonlinear_arith)
        requires
            a == b * d + r,
            0 <= r < b,
            q * b <= a < q * b + b,
    ;
    assert(b * d == q * b) by (nonlinear_arith)
        requires
            d == q,
    ;
}

/// The number of batches of at most `batch_size` samples that `samples`
/// samples make: `samples / batch_size` rounded up.
pub open spec fn batch_total(samples: int, batch_size: int) -> int {
    (samples + (batch_size - 1)) / batch_size
}

/// The first column of batch `k`.
pub open spec fn batch_start(k: int, batch_size: int) -> int {
    k * batch_size
}

/// The column after the last one of batch `k`: the batch size further on,
/// but no further than the last sample.
pub open spec fn batch_end(k: int, batch_size: int, samples: int) -> int {
    if batch_start(k, batch_size) + batch_size < samples {
        batch_start(k, batch_size) + batch_size
    } else {
        samples
    }
}

/// The smaller of two integers.
pub open spec fn min_int(a: int, b: int) -> int {
    if a < b {
        a
    } else {
        b
    }
}

/// The first column of the last batch.
pub open spec fn last_batch_start(samples: int, batch_size: int) -> int {
    ((samples - 1) / batch_size) * batch_size
}

/// `get_batches` can slice every batch: the columns of `x` reach the start
/// of the last batch, and the end of the last batch fits in a `usize`.
pub open spec fn batches_fit<T>(x: &Matrix2D<T>, y: &Matrix2D<T>, batch_size: int) -> bool {
    y.cols == 0 || (last_batch_start(y.cols as int, batch_size) <= x.cols
        && last_batch_start(y.cols as int, batch_size) + batch_size <= usize::MAX)
}

/// `batches` cuts `x` and `y` into consecutive column blocks of
/// `batch_size` samples, the last one possibly shorter; the number of
/// samples is the number of columns of `y`, and a block of `x` stops early
/// where `x` has fewer columns.
pub open spec fn are_batches_of<T>(
    batches: Seq<(Matrix2D<T>, Matrix2D<T>)>,
    x: &Matrix2D<T>,
    y: &Matrix2D<T>,
    batch_size: int,
) -> bool {
    &&& batches.len() == batch_total(y.cols as int, batch_size)
    &&& forall|k: int|
        0 <= k < batches.len() ==> {
            &&& (#[trigger] batches[k]).0.wf()
            &&& batches[k].1.wf()
            &&& batches[k].0.is_column_block_of(
                x,
                batch_start(k, batch_size),
                min_int(batch_end(k, batch_size, y.cols as int), x.cols as int),
            )
            &&& batches[k].1.is_column_block_of(
                y,
                batch_start(k, batch_size),
                batch_end(k, batch_size, y.cols as int),
            )
        }
}

/// Batch `k` starts no later than the last batch whenever it starts before
/// the last sample.
proof fn lemma_start_before_last(k: int, batch_size: int, samples: int)
    requires
        batch_size > 0,
        0 <= k,
        k * batch_size < samples,
    ensures
        k * batch_size <= last_batch_start(samples, batch_size),
{
    let q = (samples - 1) / batch_size;
    lemma_fundamental_div_mod(samples - 1, batch_size);
    assert(k <= q) by (nonlinear_arith)
        requires
            k * batch_size <= samples - 1,
            samples - 1 == batch_size * q + (samples - 1) % batch_size,
            0 <= (samples - 1) % batch_size < batch_size,
            batch_size > 0,
    ;
    assert(k * batch_size <= q * batch_size) by (nonlinear_arith)
        requires
            k <= q,
            batch_size > 0,
    ;
}

/// The columns `start .. end` of batch `k`: it starts `k * batch_size`
/// columns in and ends `batch_size` columns later, or at the last sample
/// if that comes first.
pub fn batch_range(k: usize, batch_size: usize, samples: usize) -> (range: (usize, usize))
    requires
        k * batch_size + batch_size <= usize::MAX,
    ensures
        range.0 == batch_start(k as int, batch_size as int),
        range.1 == batch_end(k as int, batch_size as int, samples as int),
{
    assert(0 <= k * batch_size) by (nonlinear_arith);
    let start = k * batch_size;
    let end = if start + batch_size < samples {
        start + batch_size
    } else {
        samples
    };
    (start, end)
}

/// The number of batches of at most `batch_size` samples that `samples`
/// samples make.
pub fn batch_count(samples: usize, batch_size: usize) -> (n: usize)
    requires
        batch_size > 0,
        samples + batch_size <= usize::MAX,
    ensures
        n == batch_total(samples as int, batch_size as int),
        n == (samples + batch_size - 1) / batch_size as int,
        n * batch_size >= samples,
        n == 0 || (n - 1) * batch_size < samples,
{
    proof {
        lemma_fundamental_div_mod(samples + batch_size - 1, batch_size as int);
        let q = (samples + batch_size - 1) / batch_size as int;
        let r = (samples + batch_size - 1) % batch_size as int;
        assert(q * batch_size >= samples && (q == 0 || (q - 1) * batch_size < samples))
            by (nonlinear_arith)
            requires
                samples + batch_size - 1 == batch_size * q + r,
                0 <= r < batch_size,
                batch_size > 0,
        ;
    }
    (samples + batch_size - 1) / batch_size
}

/// Cuts the samples (columns) of `x` and `y` into mini-batches of
/// `batch_size` consecutive columns; the last batch holds the rest. With
/// no samples there are no batches; otherwise the batch size must be
/// positive.
pub fn get_batches<T: Copy>(x: &Matrix2D<T>, y: &Matrix2D<T>, batch_size: usize) -> (batches: Vec<
    (Matrix2D<T>, Matrix2D<T>),
>)
    requires
        x.wf(),
        y.wf(),
        batch_size > 0 || y.cols == 0,
        batches_fit(x, y, batch_size as int),
    ensures
        y.cols == 0 ==> batches@.len() == 0,
        batch_size > 0 ==> are_batches_of(batches@, x, y, batch_size as int),
{
    let m = y.cols;
    let mut batches: Vec<(Matrix2D<T>, Matrix2D<T>)> = Vec::new();
    if m == 0 {
        proof {
            if batch_size > 0 {
                lemma_quotient(batch_size - 1, batch_size as int, 0);
            }
        }
        return batches;
    }
    let mut i: usize = 0;
    let ghost mut k: int = 0;
    while i < m
        invariant
            x.wf(),
            y.wf(),
            m == y.cols,
            batch_size > 0,
            batches_fit(x, y, batch_size as int),
            0 <= k,
            i == batch_start(k, batch_size as int),
            i < m + batch_size,
            k > 0 ==> (k - 1) * batch_size < m,
            batches@.len() == k,
            forall|j: int|
                0 <= j < k ==> {
                    &&& (#[trigger] batches@[j]).0.wf()
                    &&& batches@[j].1.wf()
                    &&& batches@[j].0.is_column_block_of(
                        x,
                        batch_start(j, batch_size as int),
                        min_int(batch_end(j, batch_size as int, m as int), x.cols as int),
                    )
                    &&& batches@[j].1.is_column_block_of(
                        y,
                        batch_start(j, batch_size as int),
                        batch_end(j, batch_size as int, m as int),
                    )
                },
        decreases m + batch_size - i,
    {
        proof {
            lemma_start_before_last(k, batch_size as int, m as int);
        }
        let end = if i + batch_size < m {
            i + batch_size
        } else {
            m
        };
        let xb = x.col_slice(i, end);
        let yb = y.col_slice(i, end);
        batches.push((xb, yb));
        i += batch_size;
        proof {
            assert((k + 1) * batch_size == k * batch_size + batch_size) by (nonlinear_arith);
            k = k + 1;
        }
    }
    proof {
        assert(k > 0) by {
            if k == 0 {
                assert(batch_start(0, batch_size as int) == 0) by (nonlinear_arith);
            }
        }
        assert((k - 1) * batch_size == k * batch_size - batch_size) by (nonlinear_arith);
        lemma_quotient(m + batch_size - 1, batch_size as int, k);
    }
    batches
}

/// Sample `c` lies in batch `c / batch_size`, at column `c % batch_size`.
proof fn lemma_column_in_batch<T>(
    batches: Seq<(Matrix2D<T>, Matrix2D<T>)>,
    x: &Matrix2D<T>,
    y: &Matrix2D<T>,
    batch_size: int,
    c: int,
)
    requires
        batch_size > 0,
        are_batches_of(batches, x, y, batch_size),
        0 <= c < y.cols,
    ensures
        0 <= c / batch_size < batches.len(),
        batch_start(c / batch_size, batch_size) + c % batch_size == c,
        0 <= c % batch_size < batches[c / batch_size].1.cols,
        c < x.cols ==> c % batch_size < batches[c / batch_size].0.cols,
{
    let m = y.cols as int;
    lemma_fundamental_div_mod(c, batch_size);
    let q = c / batch_size;
    let j = c % batch_size;
    assert(q * batch_size == batch_size * q) by (nonlinear_arith);
    assert(0 <= q) by (nonlinear_arith)
        requires
            c == batch_size * q + j,
            0 <= c,
            j < batch_size,
            batch_size > 0,
    ;
    assert((q + 1) * batch_size == q * batch_size + batch_size) by (nonlinear_arith);
    lemma_quotient(q * batch_size + batch_size, batch_size, q + 1);
    vstd::arithmetic::div_mod::lemma_div_is_ordered(
        q * batch_size + batch_size,
        m + batch_size - 1,
        batch_size,
    );
    assert(batches[q].1.is_column_block_of(y, batch_start(q, batch_size), batch_end(q, batch_size, m)));
    assert(batches[q].0.is_column_block_of(
        x,
        batch_start(q, batch_size),
        min_int(batch_end(q, batch_size, m), x.cols as int),
    ));
}

/// The batch that sample (column) `c` falls in.
pub open spec fn batch_of(c: int, batch_size: int) -> int {
    c / batch_size
}

/// The column of its batch that sample `c` becomes.
pub open spec fn column_in_batch(c: int, batch_size: int) -> int {
    c % batch_size
}

/// The batches cover the samples exactly once and in order: sample `c`
/// is column `c % batch_size` of batch `c / batch_size`, in `y` and,
/// where `x` has that column, in `x`; every batch holds at least one and at
/// most `batch_size` samples.
pub proof fn lemma_batches_cover<T>(
    batches: Seq<(Matrix2D<T>, Matrix2D<T>)>,
    x: &Matrix2D<T>,
    y: &Matrix2D<T>,
    batch_size: int,
)
    requires
        x.wf(),
        y.wf(),
        batch_size > 0,
        are_batches_of(batches, x, y, batch_size),
    ensures
        forall|k: int|
            0 <= k < batches.len() ==> 0 < (#[trigger] batches[k]).1.cols <= batch_size,
        forall|c: int|
            0 <= c < y.cols ==> {
                &&& 0 <= #[trigger] batch_of(c, batch_size) < batches.len()
                &&& 0 <= column_in_batch(c, batch_size) < batches[batch_of(c, batch_size)].1.cols
                &&& c < x.cols ==> column_in_batch(c, batch_size) < batches[batch_of(
                    c,
                    batch_size,
                )].0.cols
            },
        batches.len() == (y.cols + batch_size - 1) / batch_size,
        forall|c: int|
            #[trigger] batch_of(c, batch_size) == c / batch_size && column_in_batch(c, batch_size) == c
                % batch_size,
        forall|c: int, r: int|
            0 <= c < y.cols && 0 <= r < y.rows ==> batches[batch_of(c, batch_size)].1.entry(
                r,
                column_in_batch(c, batch_size),
            ) == #[trigger] y.entry(r, c),
        forall|c: int, r: int|
            0 <= c < y.cols && c < x.cols && 0 <= r < x.rows ==> batches[batch_of(
                c,
                batch_size,
            )].0.entry(r, column_in_batch(c, batch_size)) == #[trigger] x.entry(r, c),
{
    let m = y.cols as int;
    assert forall|k: int| 0 <= k < batches.len() implies 0 < (#[trigger] batches[k]).1.cols
        <= batch_size by {
        lemma_fundamental_div_mod(m + batch_size - 1, batch_size);
        let t = batch_total(m, batch_size);
        assert(k * batch_size < m) by (nonlinear_arith)
            requires
                0 <= k < t,
                m + batch_size - 1 == batch_size * t + (m + batch_size - 1) % batch_size,
                0 <= (m + batch_size - 1) % batch_size < batch_size,
                batch_size > 0,
        ;
    }
    assert forall|c: int| 0 <= c < y.cols implies {
        &&& 0 <= #[trigger] batch_of(c, batch_size) < batches.len()
        &&& 0 <= column_in_batch(c, batch_size) < batches[batch_of(c, batch_size)].1.cols
        &&& c < x.cols ==> column_in_batch(c, batch_size) < batches[batch_of(c, batch_size)].0.cols
    } by {
        lemma_column_in_batch(batches, x, y, batch_size, c);
    }
    assert forall|c: int, r: int| 0 <= c < y.cols && 0 <= r < y.rows implies batches[batch_of(
        c,
        batch_size,
    )].1.entry(r, column_in_batch(c, batch_size)) == #[trigger] y.entry(r, c) by {
        lemma_column_in_batch(batches, x, y, batch_size, c);
    }
    assert forall|c: int, r: int| 0 <= c < y.cols && c < x.cols && 0 <= r < x.rows implies batches[batch_of(
        c,
        batch_size,
    )].0.entry(r, column_in_batch(c, batch_size)) == #[trigger] x.entry(r, c) by {
        lemma_column_in_batch(batches, x, y, batch_size, c);
    }
}

} // verus!
