//! What the exponential of a matrix is, where arithmetic is exact.

use crate::gs_adapter::{
    exponential_of, halvings, row_norm, series_sum, series_term, squared, times_each,
};
use crate::index::{accumulate, lemma_split, lemma_within};
use crate::linalg::{product_of, product_term};
use crate::linalg_laws::{delta, product};
use crate::pos_embed_laws::faithful_places;
use crate::reals::{
    faithful, lemma_accumulate, lemma_prod, lemma_prod_cancel, lemma_prod_plus, lemma_prod_regroup,
    lemma_prod_sign, lemma_prod_two, lemma_sum_agree, lemma_sum_times, lemma_whole, prod, sum,
};
use crate::scalar::{Analytic, Scalar};
use vstd::prelude::*;

verus! {

/// A sequence holds the `n` by `n` matrix `f`, row by row.
pub open spec fn holds<D>(
    u: spec_fn(D) -> real,
    m: Seq<D>,
    n: int,
    f: spec_fn(int, int) -> real,
) -> bool {
    &&& m.len() == n * n
    &&& forall|i: int, j: int|
        0 <= i < n && 0 <= j < n ==> #[trigger] entry(u, m, n, i, j) == f(i, j)
}

/// Row `i`, column `j` of a matrix of `n` columns.
pub open spec fn entry<D>(u: spec_fn(D) -> real, m: Seq<D>, n: int, i: int, j: int) -> real {
    u(m[i * n + j])
}

/// The product of two matrices.
pub open spec fn times(
    f: spec_fn(int, int) -> real,
    g: spec_fn(int, int) -> real,
    n: nat,
) -> spec_fn(int, int) -> real {
    |i: int, j: int| product(f, g, n, i, j)
}

/// The identity.
pub open spec fn neutral() -> spec_fn(int, int) -> real {
    |i: int, j: int| delta(i, j)
}

/// Power `m` of a matrix.
pub open spec fn power(f: spec_fn(int, int) -> real, n: nat, m: nat) -> spec_fn(int, int) -> real
    decreases m,
{
    if m == 0 {
        neutral()
    } else {
        times(power(f, n, (m - 1) as nat), f, n)
    }
}

/// The product of the numbers from one to `m`.
pub open spec fn factorial(m: nat) -> nat
    decreases m,
{
    if m == 0 {
        1
    } else {
        factorial((m - 1) as nat) * m
    }
}

/// Two to the power of `k`.
pub open spec fn two_to(k: nat) -> real
    decreases k,
{
    if k == 0 {
        1 as real
    } else {
        two_to((k - 1) as nat) + two_to((k - 1) as nat)
    }
}

/// `x` over `m`.
#[verifier::opaque]
pub open spec fn over(x: real, m: nat) -> real {
    x / m as real
}

proof fn lemma_over(x: real, m: nat)
    requires
        m > 0,
    ensures
        prod(over(x, m), m as real) == x,
{
    reveal(over);
    reveal(prod);
    let y = m as real;
    assert((x / y) * y == x) by (nonlinear_arith)
        requires
            y != 0 as real,
    ;
}

/// The exponential series of a matrix up to power `m`: each power over its factorial.
pub open spec fn series(f: spec_fn(int, int) -> real, n: nat, m: nat) -> spec_fn(int, int) -> real {
    |i: int, j: int| sum(|k: int| over(power(f, n, k as nat)(i, j), factorial(k as nat)), m + 1)
}

/// A matrix squared `k` times over.
pub open spec fn often_squared(
    f: spec_fn(int, int) -> real,
    n: nat,
    k: nat,
) -> spec_fn(int, int) -> real
    decreases k,
{
    if k == 0 {
        f
    } else {
        let g = often_squared(f, n, (k - 1) as nat);
        times(g, g, n)
    }
}

/// A matrix, each element times `s`.
pub open spec fn scaled(f: spec_fn(int, int) -> real, s: real) -> spec_fn(int, int) -> real {
    |i: int, j: int| prod(f(i, j), s)
}

/// The magnitudes of row `i` of a matrix, added up.
pub open spec fn row_size(f: spec_fn(int, int) -> real, n: nat, i: int) -> real {
    sum(
        |j: int|
            if f(i, j) < 0 as real {
                -f(i, j)
            } else {
                f(i, j)
            },
        n,
    )
}

proof fn lemma_product<D: Scalar>(
    u: spec_fn(D) -> real,
    a: Seq<D>,
    b: Seq<D>,
    n: int,
    f: spec_fn(int, int) -> real,
    g: spec_fn(int, int) -> real,
)
    requires
        faithful(u),
        0 <= n,
        holds(u, a, n, f),
        holds(u, b, n, g),
    ensures
        holds(u, product_of(a, b, n), n, times(f, g, n as nat)),
{
    lemma_whole::<D>(u, 0);
    let r = product_of(a, b, n);
    assert(0 <= n * n) by (nonlinear_arith)
        requires
            0 <= n,
    ;
    assert forall|i: int, j: int| 0 <= i < n && 0 <= j < n implies #[trigger] entry(u, r, n, i, j)
        == times(f, g, n as nat)(i, j) by {
        lemma_within(i, n, j, n);
        lemma_split(i, n, j);
        let t = product_term(a, b, n, i * n + j);
        lemma_accumulate(u, D::ratio_spec(0, 1), t, n as nat);
        let x = |k: int| u(t(k));
        let y = |k: int| prod(f(i, k), g(k, j));
        assert forall|k: int| 0 <= k < n implies #[trigger] x(k) == y(k) by {
            assert(entry(u, a, n, i, k) == f(i, k));
            assert(entry(u, b, n, k, j) == g(k, j));
        }
        lemma_sum_agree(x, y, n as nat);
        lemma_sum_agree(|k: int| u(t(k)), x, n as nat);
        lemma_sum_agree(|t: int| prod(f(i, t), g(t, j)), y, n as nat);
    }
}

/// A sum of products with a common multiple.
proof fn lemma_multiple(
    x: spec_fn(int, int) -> real,
    y: spec_fn(int, int) -> real,
    g: spec_fn(int, int) -> real,
    n: nat,
    c: real,
    i: int,
    j: int,
)
    requires
        0 <= i < n,
        forall|a: int, b: int| 0 <= a < n && 0 <= b < n ==> prod(#[trigger] x(a, b), c) == y(a, b),
    ensures
        prod(product(x, g, n, i, j), c) == product(y, g, n, i, j),
{
    let p = |t: int| prod(x(i, t), g(t, j));
    let q = |t: int| prod(y(i, t), g(t, j));
    let r = |t: int| prod(c, p(t));
    assert forall|t: int| 0 <= t < n implies #[trigger] r(t) == q(t) by {
        assert(prod(x(i, t), c) == y(i, t));
        lemma_prod_regroup(c, x(i, t), g(t, j));
        lemma_prod(c, x(i, t));
    }
    lemma_sum_agree(r, q, n);
    lemma_sum_times(p, c, n);
    lemma_sum_agree(|t: int| prod(c, p(t)), r, n);
    lemma_sum_agree(|t: int| prod(x(i, t), g(t, j)), p, n);
    lemma_sum_agree(|t: int| prod(y(i, t), g(t, j)), q, n);
    lemma_prod(c, sum(p, n));
}

proof fn lemma_factorial(m: nat)
    ensures
        factorial(m) > 0,
    decreases m,
{
    if m > 0 {
        lemma_factorial((m - 1) as nat);
        assert(factorial((m - 1) as nat) * m > 0) by (nonlinear_arith)
            requires
                factorial((m - 1) as nat) > 0,
                m > 0,
        ;
    }
}

/// Term `m` of the series, element by element.
pub open spec fn nth_term(f: spec_fn(int, int) -> real, n: nat, m: nat) -> spec_fn(int, int) -> real {
    |i: int, j: int| over(power(f, n, m)(i, j), factorial(m))
}

proof fn lemma_term<D: Scalar>(
    u: spec_fn(D) -> real,
    b: Seq<D>,
    n: int,
    f: spec_fn(int, int) -> real,
    m: nat,
)
    requires
        faithful(u),
        0 <= n,
        m <= usize::MAX,
        holds(u, b, n, f),
    ensures
        holds(u, series_term(b, n, m), n, nth_term(f, n as nat, m)),
    decreases m,
{
    lemma_whole::<D>(u, 0);
    lemma_whole::<D>(u, 1);
    let r = series_term(b, n, m);
    assert(0 <= n * n) by (nonlinear_arith)
        requires
            0 <= n,
    ;
    if m == 0 {
        assert forall|i: int, j: int| 0 <= i < n && 0 <= j < n implies #[trigger] entry(
            u,
            r,
            n,
            i,
            j,
        ) == nth_term(f, n as nat, 0)(i, j) by {
            lemma_within(i, n, j, n);
            lemma_split(i, n, j);
            lemma_over(delta(i, j), 1);
            lemma_prod(over(delta(i, j), 1), 1 as real);
        }
    } else {
        let k = (m - 1) as nat;
        lemma_term(u, b, n, f, k);
        let before = series_term(b, n, k);
        let p = product_of(before, b, n);
        let t = nth_term(f, n as nat, k);
        lemma_product(u, before, b, n, t, f);
        lemma_factorial(k);
        lemma_factorial(m);
        let c = factorial(k) as real;
        assert forall|i: int, j: int| 0 <= i < n && 0 <= j < n implies #[trigger] entry(
            u,
            r,
            n,
            i,
            j,
        ) == nth_term(f, n as nat, m)(i, j) by {
            lemma_within(i, n, j, n);
            assert(entry(u, p, n, i, j) == times(t, f, n as nat)(i, j));
            let x = u(r[i * n + j]);
            assert(r[i * n + j] == p[i * n + j].over_spec(D::from_count_spec(m as usize)));
            assert(prod(x, m as real) == product(t, f, n as nat, i, j));
            let pw = power(f, n as nat, k);
            assert forall|a: int, e: int| 0 <= a < n && 0 <= e < n implies prod(
                #[trigger] t(a, e),
                c,
            ) == pw(a, e) by {
                lemma_over(pw(a, e), factorial(k));
            }
            lemma_multiple(t, pw, f, n as nat, c, i, j);
            let y = power(f, n as nat, m)(i, j);
            assert(y == product(pw, f, n as nat, i, j));
            lemma_prod_regroup(x, m as real, c);
            lemma_prod(m as real, c);
            assert(prod(c, m as real) == factorial(m) as real) by {
                reveal(prod);
                assert((factorial(k) as real) * (m as real) == (factorial(k) * m) as real)
                    by (nonlinear_arith);
            }
            lemma_over(y, factorial(m));
            let d = factorial(m) as real;
            lemma_prod(d, x);
            lemma_prod(d, over(y, factorial(m)));
            lemma_prod_cancel(d, x, over(y, factorial(m)));
        }
    }
}

proof fn lemma_series<D: Scalar>(
    u: spec_fn(D) -> real,
    b: Seq<D>,
    n: int,
    f: spec_fn(int, int) -> real,
    m: nat,
)
    requires
        faithful(u),
        0 <= n,
        m <= usize::MAX,
        holds(u, b, n, f),
    ensures
        holds(u, series_sum(b, n, m), n, series(f, n as nat, m)),
    decreases m,
{
    let r = series_sum(b, n, m);
    lemma_term(u, b, n, f, m);
    let t = series_term(b, n, m);
    if m > 0 {
        lemma_series(u, b, n, f, (m - 1) as nat);
    }
    assert forall|i: int, j: int| 0 <= i < n && 0 <= j < n implies #[trigger] entry(u, r, n, i, j)
        == series(f, n as nat, m)(i, j) by {
        lemma_within(i, n, j, n);
        let g = |k: int| over(power(f, n as nat, k as nat)(i, j), factorial(k as nat));
        assert(sum(g, m + 1) == sum(g, m) + g(m as int));
        assert(g(m as int) == nth_term(f, n as nat, m)(i, j));
        assert(entry(u, t, n, i, j) == nth_term(f, n as nat, m)(i, j));
        if m > 0 {
            let before = series_sum(b, n, (m - 1) as nat);
            assert(entry(u, before, n, i, j) == series(f, n as nat, (m - 1) as nat)(i, j));
            lemma_sum_agree(
                |k: int| over(power(f, n as nat, k as nat)(i, j), factorial(k as nat)),
                g,
                m,
            );
        } else {
            assert(sum(g, 0) == 0 as real);
            assert(r == t);
        }
        lemma_sum_agree(
            |k: int| over(power(f, n as nat, k as nat)(i, j), factorial(k as nat)),
            g,
            m + 1,
        );
    }
}

proof fn lemma_squared<D: Scalar>(
    u: spec_fn(D) -> real,
    a: Seq<D>,
    n: int,
    f: spec_fn(int, int) -> real,
    k: nat,
)
    requires
        faithful(u),
        0 <= n,
        holds(u, a, n, f),
    ensures
        holds(u, squared(a, n, k), n, often_squared(f, n as nat, k)),
    decreases k,
{
    if k > 0 {
        let m = (k - 1) as nat;
        lemma_squared(u, a, n, f, m);
        let g = often_squared(f, n as nat, m);
        lemma_product(u, squared(a, n, m), squared(a, n, m), n, g, g);
    }
}

/// How often a norm is halved.
proof fn lemma_halvings<D: Scalar>(u: spec_fn(D) -> real, norm: D, scale: D, done: nat, left: nat)
    requires
        faithful(u),
        prod(u(scale), two_to(done)) == 1 as real,
    ensures
        ({
            let (s, k) = halvings(norm, scale, done, left);
            &&& done <= k <= done + left
            &&& prod(u(s), two_to(k)) == 1 as real
            &&& k < done + left ==> (4 as real) * prod(u(norm), u(s)) <= 1 as real
            &&& k > done ==> (4 as real) * prod(u(norm), u(s) + u(s)) > 1 as real
        }),
    decreases left,
{
    let q = D::ratio_spec(1, 4);
    assert(prod(u(q), 4u32 as int as real) == 1 as real);
    lemma_four(u(q));
    if left > 0 && q.less_spec(norm.times_spec(scale)) {
        let half = D::ratio_spec(1, 2);
        let h = u(half);
        assert(prod(h, 2u32 as int as real) == 1 as real);
        lemma_prod(h, 2 as real);
        lemma_prod_two(h);
        let next = scale.times_spec(half);
        let (s, t) = (u(scale), u(next));
        lemma_prod_plus(s, h, h);
        lemma_prod(s, 1 as real);
        assert(t + t == s);
        let p = two_to(done);
        lemma_prod_plus(t, p, p);
        lemma_prod_plus(p, t, t);
        lemma_prod(t, p);
        assert(prod(t, two_to(done + 1)) == 1 as real) by {
            assert((done + 1 - 1) as nat == done);
            lemma_prod(s, p);
        }
        lemma_halvings(u, norm, next, done + 1, (left - 1) as nat);
        let (z, k) = halvings(norm, scale, done, left);
        if k == done + 1 {
            // Nothing was halved again.
            let w = u(z);
            let c = two_to(k);
            lemma_prod(c, w);
            lemma_prod(c, t);
            lemma_two_to(k);
            lemma_prod_cancel(c, w, t);
        }
    }
}

/// Four times.
proof fn lemma_four(a: real)
    ensures
        prod(a, 4 as real) == (4 as real) * a,
{
    reveal(prod);
}

proof fn lemma_two_to(k: nat)
    ensures
        two_to(k) > 0 as real,
    decreases k,
{
    if k > 0 {
        lemma_two_to((k - 1) as nat);
    }
}

/// The largest row of a matrix by magnitude.
proof fn lemma_norm<D: Analytic>(
    u: spec_fn(D) -> real,
    a: Seq<D>,
    n: int,
    f: spec_fn(int, int) -> real,
    rows: nat,
)
    requires
        faithful_places(u),
        0 <= n,
        rows <= n,
        holds(u, a, n, f),
    ensures
        forall|i: int| 0 <= i < rows ==> #[trigger] row_size(f, n as nat, i) <= u(
            row_norm(a, n, rows),
        ),
        u(row_norm(a, n, rows)) == 0 as real || exists|i: int|
            0 <= i < rows && #[trigger] row_size(f, n as nat, i) == u(row_norm(a, n, rows)),
    decreases rows,
{
    lemma_whole::<D>(u, 0);
    if rows > 0 {
        let k = (rows - 1) as nat;
        lemma_norm(u, a, n, f, k);
        let g = |j: int| a[(rows - 1) * n + j].magnitude_spec();
        let s = accumulate(D::ratio_spec(0, 1), g, n as nat);
        lemma_accumulate(u, D::ratio_spec(0, 1), g, n as nat);
        let x = |j: int| u(g(j));
        let y = |j: int|
            if f(rows - 1, j) < 0 as real {
                -f(rows - 1, j)
            } else {
                f(rows - 1, j)
            };
        assert forall|j: int| 0 <= j < n implies #[trigger] x(j) == y(j) by {
            assert(entry(u, a, n, rows - 1, j) == f(rows - 1, j));
        }
        lemma_sum_agree(x, y, n as nat);
        lemma_sum_agree(|j: int| u(g(j)), x, n as nat);
        lemma_sum_agree(
            |j: int|
                if f(rows - 1, j) < 0 as real {
                    -f(rows - 1, j)
                } else {
                    f(rows - 1, j)
                },
            y,
            n as nat,
        );
        assert(u(s) == row_size(f, n as nat, rows - 1));
        let before = row_norm(a, n, k);
        let now = row_norm(a, n, rows);
        assert(now == (if before.less_spec(s) {
            s
        } else {
            before
        }));
        if !before.less_spec(s) && u(before) != 0 as real {
            let i = choose|i: int| 0 <= i < k && #[trigger] row_size(f, n as nat, i) == u(before);
            assert(row_size(f, n as nat, i) == u(now));
        } else if before.less_spec(s) {
            assert(row_size(f, n as nat, rows - 1) == u(now));
        }
    }
}

/// The exponential of a matrix: the matrix is halved until no row of it is larger than a
/// quarter by magnitude, the exponential series is taken up to power 18, each power over
/// its factorial, and the result is squared as often as the matrix was halved. No matrix
/// is halved more often than that takes, nor more often than 2048 times.
pub proof fn law_matrix_exponential<D: Analytic>(
    u: spec_fn(D) -> real,
    a: Seq<D>,
    n: int,
    f: spec_fn(int, int) -> real,
)
    requires
        faithful_places(u),
        0 <= n,
        holds(u, a, n, f),
    ensures
        exists|s: real, k: nat|
            {
                &&& k <= 2048
                &&& prod(s, two_to(k)) == 1 as real
                &&& k < 2048 ==> forall|i: int|
                    0 <= i < n ==> (4 as real) * prod(#[trigger] row_size(f, n as nat, i), s)
                        <= 1 as real
                &&& k > 0 ==> exists|i: int|
                    0 <= i < n && (4 as real) * prod(
                        #[trigger] row_size(f, n as nat, i),
                        s + s,
                    ) > 1 as real
                &&& holds(
                    u,
                    exponential_of(a, n),
                    n,
                    #[trigger] often_squared(series(scaled(f, s), n as nat, 18), n as nat, k),
                )
            },
{
    lemma_whole::<D>(u, 0);
    lemma_whole::<D>(u, 1);
    let norm = row_norm(a, n, n as nat);
    let one = D::ratio_spec(1, 1);
    let (z, k) = halvings(norm, one, 0, 2048);
    lemma_prod(1 as real, 1 as real);
    lemma_halvings(u, norm, one, 0, 2048);
    let s = u(z);
    lemma_norm(u, a, n, f, n as nat);
    let b = times_each(a, z);
    assert forall|i: int, j: int| 0 <= i < n && 0 <= j < n implies #[trigger] entry(u, b, n, i, j)
        == scaled(f, s)(i, j) by {
        lemma_within(i, n, j, n);
        assert(entry(u, a, n, i, j) == f(i, j));
    }
    lemma_series(u, b, n, scaled(f, s), 18);
    lemma_squared(u, series_sum(b, n, 18), n, series(scaled(f, s), n as nat, 18), k);
    let p = two_to(k);
    lemma_two_to(k);
    lemma_prod(p, s);
    lemma_prod_sign(p, s);
    if k < 2048 {
        assert forall|i: int| 0 <= i < n implies (4 as real) * prod(
            #[trigger] row_size(f, n as nat, i),
            s,
        ) <= 1 as real by {
            let r = row_size(f, n as nat, i);
            lemma_prod_plus(s, u(norm), r);
            lemma_prod_sign(u(norm) - r, s);
        }
    }
    if k > 0 {
        if u(norm) == 0 as real {
            lemma_prod(s + s, 0 as real);
            lemma_prod(0 as real, s + s);
        } else {
            let i = choose|i: int| 0 <= i < n && #[trigger] row_size(f, n as nat, i) == u(norm);
            assert((4 as real) * prod(row_size(f, n as nat, i), s + s) > 1 as real);
        }
    }
}

} // verus!
