//! Normalisation of rows.

use crate::index::{accumulate, lemma_split};
use crate::scalar::{one, zero, Analytic, Scalar};
use vstd::prelude::*;

verus! {

/// The elements of a row as terms of a sum.
pub open spec fn element_term<T: Scalar>(row: Seq<T>) -> spec_fn(int) -> T {
    |i: int| row[i]
}

/// The sum of a row, from the left.
pub open spec fn row_sum<T: Scalar>(row: Seq<T>) -> T {
    accumulate(zero(), element_term(row), row.len())
}

/// The mean of a row.
pub open spec fn row_mean<T: Scalar>(row: Seq<T>) -> T {
    row_sum(row).over_spec(T::from_count_spec(row.len() as usize))
}

/// Squared distances from the mean.
pub open spec fn deviation_term<T: Scalar>(row: Seq<T>, mean: T) -> spec_fn(int) -> T {
    |i: int| row[i].minus_spec(mean).times_spec(row[i].minus_spec(mean))
}

/// The mean squared distance from the mean.
pub open spec fn row_variance<T: Scalar>(row: Seq<T>) -> T {
    accumulate(zero(), deviation_term(row, row_mean(row)), row.len()).over_spec(
        T::from_count_spec(row.len() as usize),
    )
}

/// Squares of a row's elements.
pub open spec fn square_term<T: Scalar>(row: Seq<T>) -> spec_fn(int) -> T {
    |i: int| row[i].times_spec(row[i])
}

/// The mean square less the squared mean: the variance in a single pass.
pub open spec fn row_shifted_variance<T: Scalar>(row: Seq<T>) -> T {
    accumulate(zero(), square_term(row), row.len()).over_spec(
        T::from_count_spec(row.len() as usize),
    ).minus_spec(row_mean(row).times_spec(row_mean(row)))
}

/// `(x - mean) / sqrt(variance + eps) * w + b`.
pub open spec fn normalized<T: Analytic>(x: T, mean: T, variance: T, eps: T, w: T, b: T) -> T {
    x.minus_spec(mean).times_spec(
        one::<T>().over_spec(variance.plus_spec(eps).root_spec()),
    ).times_spec(w).plus_spec(b)
}

/// A row normalised by its variance.
pub open spec fn layernorm_row<T: Analytic>(row: Seq<T>, w: Seq<T>, b: Seq<T>, eps: T) -> Seq<T> {
    Seq::new(
        row.len(),
        |d: int| normalized(row[d], row_mean(row), row_variance(row), eps, w[d], b[d]),
    )
}

/// A row normalised by its single-pass variance.
pub open spec fn layernorm_row_shifted<T: Analytic>(
    row: Seq<T>,
    w: Seq<T>,
    b: Seq<T>,
    eps: T,
) -> Seq<T> {
    Seq::new(
        row.len(),
        |d: int| normalized(row[d], row_mean(row), row_shifted_variance(row), eps, w[d], b[d]),
    )
}

fn mean_of<T: Scalar>(row: &[T]) -> (r: T)
    ensures
        r == row_mean(row@),
{
    let mut sum: T = T::ratio(0, 1);
    let mut i: usize = 0;
    while i < row.len()
        invariant
            i <= row.len(),
            sum == accumulate(zero(), element_term(row@), i as nat),
        decreases row.len() - i,
    {
        sum = sum.plus(row[i]);
        i = i + 1;
    }
    sum.over(T::from_count(row.len()))
}

/// Normalises a row: subtracts its mean, divides by its standard deviation and
/// applies a weight and a bias to each element.
pub fn layernorm_1d<T: Analytic>(x: &[T], w: &[T], b: &[T], eps: T) -> (r: Vec<T>)
    requires
        w.len() == x.len(),
        b.len() == x.len(),
    ensures
        r@ == layernorm_row(x@, w@, b@, eps),
{
    let mean: T = mean_of(x);
    let mut squares: T = T::ratio(0, 1);
    let mut i: usize = 0;
    while i < x.len()
        invariant
            i <= x.len(),
            mean == row_mean(x@),
            squares == accumulate(zero(), deviation_term(x@, mean), i as nat),
        decreases x.len() - i,
    {
        let d: T = x[i].minus(mean);
        squares = squares.plus(d.times(d));
        i = i + 1;
    }
    let variance: T = squares.over(T::from_count(x.len()));
    let inv_std: T = T::ratio(1, 1).over(variance.plus(eps).root());
    let mut r: Vec<T> = Vec::new();
    let mut d: usize = 0;
    while d < x.len()
        invariant
            d <= x.len(),
            w.len() == x.len(),
            b.len() == x.len(),
            mean == row_mean(x@),
            inv_std == one::<T>().over_spec(row_variance(x@).plus_spec(eps).root_spec()),
            r.len() == d,
            forall|k: int| 0 <= k < d ==> #[trigger] r[k] == layernorm_row(x@, w@, b@, eps)[k],
        decreases x.len() - d,
    {
        r.push(x[d].minus(mean).times(inv_std).times(w[d]).plus(b[d]));
        d = d + 1;
    }
    assert(r@ =~= layernorm_row(x@, w@, b@, eps));
    r
}

/// As [`layernorm_1d`], with the variance from a single pass over the row.
pub fn layernorm_1d_shifted<T: Analytic>(x: &[T], w: &[T], b: &[T], eps: T) -> (r: Vec<T>)
    requires
        w.len() == x.len(),
        b.len() == x.len(),
    ensures
        r@ == layernorm_row_shifted(x@, w@, b@, eps),
{
    let mut sum: T = T::ratio(0, 1);
    let mut squares: T = T::ratio(0, 1);
    let mut i: usize = 0;
    while i < x.len()
        invariant
            i <= x.len(),
            sum == accumulate(zero(), element_term(x@), i as nat),
            squares == accumulate(zero(), square_term(x@), i as nat),
        decreases x.len() - i,
    {
        sum = sum.plus(x[i]);
        squares = squares.plus(x[i].times(x[i]));
        i = i + 1;
    }
    let mean: T = sum.over(T::from_count(x.len()));
    let variance: T = squares.over(T::from_count(x.len())).minus(mean.times(mean));
    let inv_std: T = T::ratio(1, 1).over(variance.plus(eps).root());
    let mut r: Vec<T> = Vec::new();
    let mut d: usize = 0;
    while d < x.len()
        invariant
            d <= x.len(),
            w.len() == x.len(),
            b.len() == x.len(),
            mean == row_mean(x@),
            inv_std == one::<T>().over_spec(row_shifted_variance(x@).plus_spec(eps).root_spec()),
            r.len() == d,
            forall|k: int|
                0 <= k < d ==> #[trigger] r[k] == layernorm_row_shifted(x@, w@, b@, eps)[k],
        decreases x.len() - d,
    {
        r.push(x[d].minus(mean).times(inv_std).times(w[d]).plus(b[d]));
        d = d + 1;
    }
    assert(r@ =~= layernorm_row_shifted(x@, w@, b@, eps));
    r
}

/// Row `i` of a matrix with `dim` columns.
pub open spec fn row_of<T>(x: Seq<T>, dim: int, i: int) -> Seq<T> {
    x.subrange(i * dim, i * dim + dim)
}

/// The rows of a matrix, each normalised.
pub open spec fn layernorm_rows_of<T: Analytic>(
    x: Seq<T>,
    n: int,
    dim: int,
    w: Seq<T>,
    b: Seq<T>,
    eps: T,
    shifted: bool,
) -> Seq<T> {
    Seq::new(
        (n * dim) as nat,
        |p: int|
            if shifted {
                layernorm_row_shifted(row_of(x, dim, p / dim), w, b, eps)[p % dim]
            } else {
                layernorm_row(row_of(x, dim, p / dim), w, b, eps)[p % dim]
            },
    )
}

/// Normalises each row of an `[n, dim]` matrix.
pub fn layernorm_matrix<T: Analytic>(
    x: &[T],
    n: usize,
    dim: usize,
    w: &[T],
    b: &[T],
    eps: T,
    shifted: bool,
) -> (r: Vec<T>)
    requires
        x.len() == n * dim,
        w.len() == dim,
        b.len() == dim,
    ensures
        r@ == layernorm_rows_of(x@, n as int, dim as int, w@, b@, eps, shifted),
        r.len() == n * dim,
{
    let ghost want = layernorm_rows_of(x@, n as int, dim as int, w@, b@, eps, shifted);
    let mut r: Vec<T> = Vec::new();
    let mut i: usize = 0;
    assert(0 * dim == 0);
    while i < n
        invariant
            i <= n,
            x.len() == n * dim,
            w.len() == dim,
            b.len() == dim,
            want == layernorm_rows_of(x@, n as int, dim as int, w@, b@, eps, shifted),
            r.len() == i * dim,
            forall|p: int| 0 <= p < i * dim ==> #[trigger] r[p] == want[p],
        decreases n - i,
    {
        proof {
            assert((i + 1) * dim == i * dim + dim && (i + 1) * dim <= n * dim && 0 <= i * dim)
                by (nonlinear_arith)
                requires
                    i + 1 <= n,
                    0 <= dim,
                    0 <= i,
            ;
        }
        let row: &[T] = &x[i * dim..i * dim + dim];
        assert(row@ =~= row_of(x@, dim as int, i as int));
        let done: Vec<T> = if shifted {
            layernorm_1d_shifted(row, w, b, eps)
        } else {
            layernorm_1d(row, w, b, eps)
        };
        let mut d: usize = 0;
        while d < dim
            invariant
                d <= dim,
                i < n,
                (i + 1) * dim == i * dim + dim,
                (i + 1) * dim <= n * dim,
                done.len() == dim,
                done@ == (if shifted {
                    layernorm_row_shifted(row_of(x@, dim as int, i as int), w@, b@, eps)
                } else {
                    layernorm_row(row_of(x@, dim as int, i as int), w@, b@, eps)
                }),
                want == layernorm_rows_of(x@, n as int, dim as int, w@, b@, eps, shifted),
                r.len() == i * dim + d,
                forall|p: int| 0 <= p < i * dim + d ==> #[trigger] r[p] == want[p],
            decreases dim - d,
        {
            proof {
                lemma_split(i as int, dim as int, d as int);
            }
            r.push(done[d]);
            d = d + 1;
        }
        i = i + 1;
    }
    assert(r@ =~= want);
    r
}

} // verus!
