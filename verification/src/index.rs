//! Row-major indexing and left-to-right sums, which all kernels share.

use crate::scalar::Scalar;
use vstd::prelude::*;

verus! {

/// `start + term(0) + ... + term(n - 1)`, added up from the left.
pub open spec fn accumulate<T: Scalar>(start: T, term: spec_fn(int) -> T, n: nat) -> T
    decreases n,
{
    if n == 0 {
        start
    } else {
        accumulate(start, term, (n - 1) as nat).plus_spec(term(n - 1))
    }
}

/// Sums of terms that agree are equal.
pub proof fn lemma_accumulate_agree<T: Scalar>(
    start: T,
    f: spec_fn(int) -> T,
    g: spec_fn(int) -> T,
    n: nat,
)
    requires
        forall|i: int| 0 <= i < n ==> #[trigger] f(i) == g(i),
    ensures
        accumulate(start, f, n) == accumulate(start, g, n),
    decreases n,
{
    if n > 0 {
        lemma_accumulate_agree(start, f, g, (n - 1) as nat);
        assert(f(n - 1) == g(n - 1));
    }
}

/// Row `i` and column `j` of a row-major index with `m` columns come back out.
pub proof fn lemma_split(i: int, m: int, j: int)
    requires
        0 <= j < m,
    ensures
        (i * m + j) / m == i,
        (i * m + j) % m == j,
{
    assert((i * m + j) / m == i && (i * m + j) % m == j) by (nonlinear_arith)
        requires
            0 <= j < m,
    ;
}

/// An index is its row times the width plus its column.
pub proof fn lemma_join(p: int, m: int)
    requires
        0 <= p,
        0 < m,
    ensures
        p == (p / m) * m + p % m,
        0 <= p % m < m,
        0 <= p / m,
{
    assert(p == (p / m) * m + p % m && 0 <= p % m < m && 0 <= p / m) by (nonlinear_arith)
        requires
            0 <= p,
            0 < m,
    ;
}

/// A row-major index lies within the grid.
pub proof fn lemma_within(i: int, n: int, j: int, m: int)
    requires
        0 <= i < n,
        0 <= j < m,
    ensures
        0 <= i * m,
        0 <= i * m + j < n * m,
        i * m + m <= n * m,
{
    assert(0 <= i * m && i * m + m <= n * m) by (nonlinear_arith)
        requires
            0 <= i < n,
            0 <= j < m,
    ;
}

/// The row of an index within a grid lies within it.
pub proof fn lemma_row_within(p: int, n: int, m: int)
    requires
        0 <= p < n * m,
        0 < m,
    ensures
        0 <= p / m < n,
{
    assert(0 <= p / m < n) by (nonlinear_arith)
        requires
            0 <= p < n * m,
            0 < m,
    ;
}

/// A factor of a product that has no zero factor is at most the product.
pub proof fn lemma_factor(a: int, b: int)
    requires
        0 <= a,
        0 < b,
    ensures
        a <= a * b,
        a <= b * a,
        a * b == b * a,
{
    assert(a <= a * b && a * b == b * a) by (nonlinear_arith)
        requires
            0 <= a,
            0 < b,
    ;
}

/// Products grow with their factors.
pub proof fn lemma_product_grows(a: int, b: int, c: int, d: int)
    requires
        0 <= a <= b,
        0 <= c <= d,
    ensures
        0 <= a * c <= b * d,
{
    assert(0 <= a * c <= b * d) by (nonlinear_arith)
        requires
            0 <= a <= b,
            0 <= c <= d,
    ;
}

/// `i * m + j`, the row-major index of row `i` and column `j` of `n` rows with
/// `m` columns.
pub fn flat(i: usize, n: Ghost<int>, j: usize, m: usize) -> (r: usize)
    requires
        i < n@,
        j < m,
        n@ * m <= usize::MAX,
    ensures
        r == i * m + j,
        r < n@ * m,
{
    proof {
        lemma_within(i as int, n@, j as int, m as int);
    }
    i * m + j
}

} // verus!
