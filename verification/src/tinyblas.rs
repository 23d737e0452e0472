//! Matrix products on row-major buffers.

use crate::index::{accumulate, lemma_join, lemma_row_within, lemma_within};
use crate::scalar::Scalar;
use vstd::prelude::*;

verus! {

/// Term `i` of the product's element at `(row, col)`: `A[row, i] * B[i, col]`.
pub open spec fn gemm_term<T: Scalar>(
    a: Seq<T>,
    b: Seq<T>,
    n: int,
    k: int,
    row: int,
    col: int,
) -> spec_fn(int) -> T {
    |i: int| a[row * k + i].times_spec(b[i * n + col])
}

/// Element `p` of `start + A B`, for `A` of `k` columns and `B` of `n`.
pub open spec fn gemm_at<T: Scalar>(
    start: T,
    a: Seq<T>,
    b: Seq<T>,
    n: int,
    k: int,
    p: int,
) -> T {
    accumulate(start, gemm_term(a, b, n, k, p / n, p % n), k as nat)
}

/// `C += A B`, with `A` of shape `[m, k]`, `B` of shape `[k, n]` and `C` of
/// shape `[m, n]`.
pub fn gemm_nn_into<T: Scalar>(m: usize, n: usize, k: usize, a: &[T], b: &[T], c: &mut Vec<T>)
    requires
        a.len() == m * k,
        b.len() == k * n,
        old(c).len() == m * n,
    ensures
        final(c).len() == old(c).len(),
        forall|p: int|
            0 <= p < m * n ==> #[trigger] final(c)[p] == gemm_at(
                old(c)[p],
                a@,
                b@,
                n as int,
                k as int,
                p,
            ),
{
    let total: usize = c.len();
    let ghost before = c@;
    let mut p: usize = 0;
    while p < total
        invariant
            p <= total,
            total == m * n,
            c.len() == total,
            before == old(c)@,
            before.len() == total,
            a.len() == m * k,
            b.len() == k * n,
            forall|q: int|
                0 <= q < p ==> #[trigger] c[q] == gemm_at(
                    before[q],
                    a@,
                    b@,
                    n as int,
                    k as int,
                    q,
                ),
            forall|q: int| p <= q < total ==> #[trigger] c[q] == before[q],
        decreases total - p,
    {
        proof {
            if n == 0 {
                assert(m * n == 0) by (nonlinear_arith)
                    requires
                        n == 0,
                ;
            }
            lemma_row_within(p as int, m as int, n as int);
            lemma_join(p as int, n as int);
        }
        let row: usize = p / n;
        let col: usize = p % n;
        let mut acc: T = c[p];
        let ghost term = gemm_term(a@, b@, n as int, k as int, row as int, col as int);
        let mut i: usize = 0;
        while i < k
            invariant
                i <= k,
                row < m,
                col < n,
                a.len() == m * k,
                b.len() == k * n,
                term == gemm_term(a@, b@, n as int, k as int, row as int, col as int),
                acc == accumulate(before[p as int], term, i as nat),
            decreases k - i,
        {
            proof {
                lemma_within(row as int, m as int, i as int, k as int);
                lemma_within(i as int, k as int, col as int, n as int);
            }
            acc = acc.plus(a[row * k + i].times(b[i * n + col]));
            i = i + 1;
        }
        c[p] = acc;
        p = p + 1;
    }
}

/// A `[n, k]` matrix turned into a `[k, n]` one.
pub open spec fn packed<T>(w: Seq<T>, k: int, n: int) -> Seq<T> {
    Seq::new((k * n) as nat, |p: int| w[(p % n) * k + p / n])
}

/// Turns weights `[n, k]` (outputs by inputs) into the `[k, n]` layout that
/// [`gemm_nn_into`] multiplies with.
pub fn pack_b_nt<T: Scalar>(k: usize, n: usize, w: &[T]) -> (r: Vec<T>)
    requires
        w.len() == n * k,
    ensures
        r@ == packed(w@, k as int, n as int),
        r.len() == k * n,
{
    assert(n * k == k * n) by (nonlinear_arith);
    let total: usize = w.len();
    let mut r: Vec<T> = Vec::new();
    let mut p: usize = 0;
    while p < total
        invariant
            p <= total,
            total == k * n,
            w.len() == n * k,
            r.len() == p,
            forall|j: int| 0 <= j < p ==> #[trigger] r[j] == w[(j % n as int) * k + j / n as int],
        decreases total - p,
    {
        proof {
            if n == 0 {
                assert(k * n == 0) by (nonlinear_arith)
                    requires
                        n == 0,
                ;
            }
            lemma_row_within(p as int, k as int, n as int);
            lemma_join(p as int, n as int);
            lemma_within((p % n) as int, n as int, (p / n) as int, k as int);
        }
        r.push(w[(p % n) * k + p / n]);
        p = p + 1;
    }
    assert(r@ =~= packed(w@, k as int, n as int));
    r
}

/// Rows times a `[k, m]` matrix, on top of a bias.
pub open spec fn linear_of<T: Scalar>(
    x: Seq<T>,
    w: Seq<T>,
    b: Seq<T>,
    n: int,
    k: int,
    m: int,
) -> Seq<T> {
    Seq::new((n * m) as nat, |p: int| gemm_at(b[p % m], x, w, m, k, p))
}

/// A linear layer on `n` rows of `k` numbers, giving rows of `m`.
pub fn linear<T: Scalar>(x: &[T], w: &[T], b: &[T], n: usize, k: usize, m: usize) -> (r: Vec<T>)
    requires
        x.len() == n * k,
        w.len() == k * m,
        b.len() == m,
        n * m <= usize::MAX,
    ensures
        r@ == linear_of(x@, w@, b@, n as int, k as int, m as int),
        r.len() == n * m,
{
    let total: usize = n * m;
    let mut r: Vec<T> = Vec::new();
    let mut p: usize = 0;
    while p < total
        invariant
            p <= total,
            total == n * m,
            b.len() == m,
            r.len() == p,
            forall|j: int| 0 <= j < p ==> #[trigger] r[j] == b[j % m as int],
        decreases total - p,
    {
        proof {
            if m == 0 {
                assert(n * m == 0) by (nonlinear_arith)
                    requires
                        m == 0,
                ;
            }
        }
        r.push(b[p % m]);
        p = p + 1;
    }
    gemm_nn_into(n, m, k, x, w, &mut r);
    assert(r@ =~= linear_of(x@, w@, b@, n as int, k as int, m as int));
    r
}

} // verus!
