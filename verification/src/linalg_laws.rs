//! What the decompositions of [`crate::linalg`] are where arithmetic is exact.

use crate::index::{accumulate, lemma_split, lemma_within};
use crate::linalg::{
    column_length, column_share, columns_reversed, dot_term, dot_term_left, identity,
    lower_column, mirror, not_negative, ql_of, qr_of, reflect, reflected, reflections, row_share,
    side_of, square_sum, tiny, upper, QrState,
};
use crate::reals::{
    faithful, faithful_roots, inner, lemma_accumulate, lemma_prod, lemma_prod_cancel,
    lemma_prod_plus, lemma_prod_regroup, lemma_prod_sign, lemma_prod_square, lemma_prod_two,
    lemma_sum_agree, lemma_sum_both, lemma_sum_from, lemma_sum_plus, lemma_sum_single, lemma_sum_squares,
    lemma_sum_swap, lemma_sum_times, lemma_sum_zero, lemma_whole, prod, sum, turned,
};
use crate::scalar::{one, zero, Analytic, Scalar};
use vstd::prelude::*;

verus! {

/// Element `(i, j)` of a matrix of `n` columns, read as a real.
pub open spec fn at<T>(v: spec_fn(T) -> real, m: Seq<T>, n: int) -> spec_fn(int, int) -> real {
    |i: int, j: int| v(m[i * n + j])
}

/// Element `(i, j)` of a product.
pub open spec fn product(
    a: spec_fn(int, int) -> real,
    b: spec_fn(int, int) -> real,
    n: nat,
    i: int,
    j: int,
) -> real {
    sum(|t: int| prod(a(i, t), b(t, j)), n)
}

/// One on the diagonal, zero beside it.
pub open spec fn delta(i: int, j: int) -> real {
    if i == j {
        1 as real
    } else {
        0 as real
    }
}

/// The product of columns `i` and `j`.
pub open spec fn gram(q: spec_fn(int, int) -> real, n: nat, i: int, j: int) -> real {
    sum(|t: int| prod(q(t, i), q(t, j)), n)
}

/// The columns of `q` have length one and stand at right angles.
pub open spec fn orthonormal(q: spec_fn(int, int) -> real, n: nat) -> bool {
    forall|i: int, j: int|
        0 <= i < n && 0 <= j < n ==> #[trigger] gram(q, n, i, j) == delta(i, j)
}

/// `q * r` is `a`.
pub open spec fn multiplies_to(
    q: spec_fn(int, int) -> real,
    r: spec_fn(int, int) -> real,
    a: spec_fn(int, int) -> real,
    n: nat,
) -> bool {
    forall|i: int, j: int|
        0 <= i < n && 0 <= j < n ==> #[trigger] product(q, r, n, i, j) == a(i, j)
}

// ---- a mirror over the reals ----------------------------------------------------

/// Four factors in another order.
pub proof fn lemma_four_factors(a: real, b: real, c: real, d: real)
    ensures
        prod(prod(a, b), prod(c, d)) == prod(prod(a, c), prod(b, d)),
{
    lemma_prod_regroup(prod(a, b), c, d);
    lemma_prod_regroup(a, b, d);
    lemma_prod_regroup(c, a, prod(b, d));
    lemma_prod(c, a);
}

/// `(x - g z) (y - f z)`.
proof fn lemma_expand(x: real, y: real, z: real, g: real, f: real)
    ensures
        prod(x - prod(g, z), y - prod(f, z)) == prod(x, y) + prod(-f, prod(x, z)) + prod(
            -g,
            prod(z, y),
        ) + prod(prod(g, f), prod(z, z)),
{
    let (a, b) = (prod(g, z), prod(f, z));
    lemma_prod_plus(x - a, y, b);
    lemma_prod_plus(y, x, a);
    lemma_prod_plus(b, x, a);
    lemma_prod_regroup(x, f, z);
    lemma_prod(f, prod(x, z));
    lemma_prod_regroup(g, z, y);
    lemma_prod(g, prod(z, y));
    lemma_four_factors(g, z, f, z);
}

/// `(x - z a) (y - z b)`.
proof fn lemma_expand_left(x: real, y: real, z: real, a: real, b: real)
    ensures
        prod(x - prod(z, a), y - prod(z, b)) == prod(x, y) + prod(-b, prod(x, z)) + prod(
            -a,
            prod(y, z),
        ) + prod(prod(a, b), prod(z, z)),
{
    let (c, d) = (prod(z, a), prod(z, b));
    lemma_prod_plus(x - c, y, d);
    lemma_prod_plus(y, x, c);
    lemma_prod_plus(d, x, c);
    lemma_prod(z, a);
    lemma_prod(z, b);
    lemma_prod_regroup(x, b, z);
    lemma_prod(b, prod(x, z));
    lemma_prod_regroup(a, z, y);
    lemma_prod(a, prod(z, y));
    lemma_prod(z, y);
    lemma_four_factors(a, z, b, z);
}

/// What a mirror takes off a product of two sums and what it adds are the same.
proof fn lemma_mirror_balance(l: real, g: real, f: real, s: real, t: real)
    requires
        prod(l, g) == s + s,
        prod(l, f) == t + t,
    ensures
        prod(-f, s) + prod(-g, t) + prod(prod(g, f), l) == 0 as real,
{
    lemma_prod_regroup(f, l, g);
    lemma_prod_regroup(g, l, f);
    lemma_prod(prod(g, f), l);
    lemma_prod(g, f);
    lemma_prod_plus(f, s, s);
    lemma_prod_plus(g, t, t);
    lemma_prod(f, s);
    lemma_prod(g, t);
}

/// A mirror between two factors, applied to both of them, leaves their product.
proof fn lemma_mirrored_product(
    q: spec_fn(int) -> real,
    r: spec_fn(int) -> real,
    w: spec_fn(int) -> real,
    g: real,
    f: real,
    n: nat,
)
    requires
        ({
            let l = sum(|t: int| prod(w(t), w(t)), n);
            let s = sum(|t: int| prod(q(t), w(t)), n);
            let u = sum(|t: int| prod(w(t), r(t)), n);
            prod(l, g) == s + s && prod(l, f) == u + u
        }),
    ensures
        sum(|t: int| prod(q(t) - prod(g, w(t)), r(t) - prod(f, w(t))), n) == sum(
            |t: int| prod(q(t), r(t)),
            n,
        ),
{
    let qr = |t: int| prod(q(t), r(t));
    let qw = |t: int| prod(q(t), w(t));
    let wr = |t: int| prod(w(t), r(t));
    let ww = |t: int| prod(w(t), w(t));
    let (s1, s2, l) = (sum(qw, n), sum(wr, n), sum(ww, n));
    let gf = prod(g, f);
    let a = |t: int| qr(t) + prod(-f, qw(t));
    let b = |t: int| a(t) + prod(-g, wr(t));
    let c = |t: int| b(t) + prod(gf, ww(t));
    lemma_sum_plus(qr, qw, -f, n);
    lemma_sum_plus(a, wr, -g, n);
    lemma_sum_plus(b, ww, gf, n);
    let whole = |t: int| prod(q(t) - prod(g, w(t)), r(t) - prod(f, w(t)));
    assert forall|t: int| 0 <= t < n implies #[trigger] whole(t) == c(t) by {
        lemma_expand(q(t), r(t), w(t), g, f);
    }
    lemma_sum_agree(whole, c, n);
    lemma_mirror_balance(l, g, f, s1, s2);
}

/// The row products of a matrix with orthonormal columns and a vector.
proof fn lemma_rows_times(
    q: spec_fn(int, int) -> real,
    w: spec_fn(int) -> real,
    g: spec_fn(int) -> real,
    l: real,
    n: nat,
    i: int,
)
    requires
        orthonormal(q, n),
        0 <= i < n,
        forall|t: int|
            0 <= t < n ==> prod(l, #[trigger] g(t)) == prod(
                2 as real,
                sum(|s: int| prod(q(t, s), w(s)), n),
            ),
    ensures
        prod(l, sum(|t: int| prod(q(t, i), g(t)), n)) == prod(2 as real, w(i)),
{
    let f = |t: int, s: int| prod(q(t, i), prod(q(t, s), w(s)));
    let h = |t: int| prod(q(t, i), g(t));
    lemma_sum_times(h, l, n);
    let left = |t: int| prod(l, h(t));
    lemma_sum_times(inner(f, n), 2 as real, n);
    let right = |t: int| prod(2 as real, inner(f, n)(t));
    assert forall|t: int| 0 <= t < n implies #[trigger] left(t) == right(t) by {
        let row = |s: int| prod(q(t, s), w(s));
        lemma_sum_times(row, q(t, i), n);
        lemma_sum_agree(|s: int| f(t, s), |s: int| prod(q(t, i), row(s)), n);
        lemma_prod_regroup(l, q(t, i), g(t));
        lemma_prod_regroup(2 as real, q(t, i), sum(row, n));
    }
    lemma_sum_agree(left, right, n);
    lemma_sum_swap(f, n, n);
    let cols = inner(turned(f), n);
    assert forall|s: int| 0 <= s < n implies #[trigger] cols(s) == prod(w(s), delta(i, s)) by {
        let qq = |t: int| prod(q(t, i), q(t, s));
        assert(gram(q, n, i, s) == delta(i, s));
        lemma_sum_times(qq, w(s), n);
        let scaled = |t: int| prod(w(s), qq(t));
        let col = |t: int| turned(f)(s, t);
        assert forall|t: int| 0 <= t < n implies #[trigger] col(t) == scaled(t) by {
            lemma_prod_regroup(q(t, i), q(t, s), w(s));
        }
        lemma_sum_agree(col, scaled, n);
    }
    assert forall|s: int| 0 <= s < n && s != i implies #[trigger] cols(s) == 0 as real by {
        lemma_prod(w(s), 0 as real);
    }
    lemma_sum_single(cols, i, n);
    lemma_prod(w(i), 1 as real);
}

proof fn lemma_gram_balance(l: real, wi: real, wj: real, si: real, sj: real, squares: real)
    requires
        l != 0 as real,
        prod(l, si) == prod(2 as real, wi),
        prod(l, sj) == prod(2 as real, wj),
        prod(l, squares) == 4 as real,
    ensures
        prod(-wj, si) + prod(-wi, sj) + prod(prod(wi, wj), squares) == 0 as real,
{
    let p = prod(wi, wj);
    let (a, b, c) = (prod(-wj, si), prod(-wi, sj), prod(p, squares));
    lemma_prod_plus(l, a + b, c);
    lemma_prod_plus(l, a, b);
    lemma_prod_regroup(l, -wj, si);
    lemma_prod_regroup(l, -wi, sj);
    lemma_prod_regroup(l, p, squares);
    lemma_prod_regroup(-wj, 2 as real, wi);
    lemma_prod_regroup(-wi, 2 as real, wj);
    lemma_prod(wj, wi);
    lemma_prod(wi, wj);
    lemma_prod_two(prod(-wj, wi));
    lemma_prod_two(prod(-wi, wj));
    lemma_prod_plus(p, 2 as real, 2 as real);
    lemma_prod_two(p);
    lemma_prod(p, 2 as real);
    lemma_prod(l, 0 as real);
    lemma_prod_cancel(l, a + b + c, 0 as real);
}

/// The squares of the shares add up.
proof fn lemma_squares(
    q: spec_fn(int, int) -> real,
    w: spec_fn(int) -> real,
    g: spec_fn(int) -> real,
    n: nat,
)
    requires
        orthonormal(q, n),
        sum(|t: int| prod(w(t), w(t)), n) != 0 as real,
        forall|t: int|
            0 <= t < n ==> prod(sum(|t: int| prod(w(t), w(t)), n), #[trigger] g(t)) == prod(
                2 as real,
                sum(|s: int| prod(q(t, s), w(s)), n),
            ),
    ensures
        prod(sum(|t: int| prod(w(t), w(t)), n), sum(|t: int| prod(g(t), g(t)), n)) == 4 as real,
{
    let ww = |t: int| prod(w(t), w(t));
    let l = sum(ww, n);
    let gg = |t: int| prod(g(t), g(t));
    let f = |t: int, s: int| prod(g(t), prod(q(t, s), w(s)));
    lemma_sum_times(gg, l, n);
    lemma_sum_times(inner(f, n), 2 as real, n);
    let left = |t: int| prod(l, gg(t));
    let right = |t: int| prod(2 as real, inner(f, n)(t));
    assert forall|t: int| 0 <= t < n implies #[trigger] left(t) == right(t) by {
        let row = |s: int| prod(q(t, s), w(s));
        lemma_sum_times(row, g(t), n);
        lemma_sum_agree(|s: int| f(t, s), |s: int| prod(g(t), row(s)), n);
        lemma_prod_regroup(l, g(t), g(t));
        lemma_prod_regroup(2 as real, g(t), sum(row, n));
    }
    lemma_sum_agree(left, right, n);
    lemma_sum_swap(f, n, n);
    let cols = inner(turned(f), n);
    lemma_sum_times(cols, l, n);
    lemma_sum_times(ww, 2 as real, n);
    let scaled = |s: int| prod(l, cols(s));
    let twice = |s: int| prod(2 as real, ww(s));
    assert forall|s: int| 0 <= s < n implies #[trigger] scaled(s) == twice(s) by {
        lemma_rows_times(q, w, g, l, n, s);
        let qg = |t: int| prod(q(t, s), g(t));
        lemma_sum_times(qg, w(s), n);
        let col = |t: int| turned(f)(s, t);
        let want = |t: int| prod(w(s), qg(t));
        assert forall|t: int| 0 <= t < n implies #[trigger] col(t) == want(t) by {
            lemma_prod_regroup(g(t), q(t, s), w(s));
            lemma_prod(g(t), q(t, s));
        }
        lemma_sum_agree(col, want, n);
        lemma_prod_regroup(l, w(s), sum(qg, n));
        lemma_prod_regroup(2 as real, w(s), w(s));
    }
    lemma_sum_agree(scaled, twice, n);
    let sc = sum(cols, n);
    lemma_prod(2 as real, l);
    lemma_prod_cancel(l, sc, 2 as real);
    lemma_prod_two(2 as real);
}

/// A matrix with orthonormal columns keeps them under a mirror.
proof fn lemma_mirrored_orthonormal(
    q: spec_fn(int, int) -> real,
    p: spec_fn(int, int) -> real,
    w: spec_fn(int) -> real,
    g: spec_fn(int) -> real,
    n: nat,
)
    requires
        orthonormal(q, n),
        sum(|t: int| prod(w(t), w(t)), n) != 0 as real,
        forall|t: int|
            0 <= t < n ==> prod(sum(|t: int| prod(w(t), w(t)), n), #[trigger] g(t)) == prod(
                2 as real,
                sum(|s: int| prod(q(t, s), w(s)), n),
            ),
        forall|t: int, s: int|
            0 <= t < n && 0 <= s < n ==> #[trigger] p(t, s) == q(t, s) - prod(g(t), w(s)),
    ensures
        orthonormal(p, n),
{
    let l = sum(|t: int| prod(w(t), w(t)), n);
    let gg = |t: int| prod(g(t), g(t));
    let squares = sum(gg, n);
    lemma_squares(q, w, g, n);
    assert forall|i: int, j: int| 0 <= i < n && 0 <= j < n implies #[trigger] gram(p, n, i, j)
        == delta(i, j) by {
        lemma_rows_times(q, w, g, l, n, i);
        lemma_rows_times(q, w, g, l, n, j);
        let qq = |t: int| prod(q(t, i), q(t, j));
        assert(gram(q, n, i, j) == delta(i, j));
        let qi = |t: int| prod(q(t, i), g(t));
        let qj = |t: int| prod(q(t, j), g(t));
        let (wi, wj) = (w(i), w(j));
        let wij = prod(wi, wj);
        let a = |t: int| qq(t) + prod(-wj, qi(t));
        let b = |t: int| a(t) + prod(-wi, qj(t));
        let c = |t: int| b(t) + prod(wij, gg(t));
        lemma_sum_plus(qq, qi, -wj, n);
        lemma_sum_plus(a, qj, -wi, n);
        lemma_sum_plus(b, gg, wij, n);
        let whole = |t: int| prod(p(t, i), p(t, j));
        assert forall|t: int| 0 <= t < n implies #[trigger] whole(t) == c(t) by {
            assert(p(t, i) == q(t, i) - prod(g(t), wi));
            assert(p(t, j) == q(t, j) - prod(g(t), wj));
            lemma_expand_left(q(t, i), q(t, j), g(t), wi, wj);
        }
        lemma_sum_agree(whole, c, n);
        lemma_gram_balance(l, wi, wj, sum(qi, n), sum(qj, n), squares);
    }
}


/// The vector that takes `x` onto its axis `k`: its square, and its product with
/// `x`.
proof fn lemma_mirror_vector(
    x: spec_fn(int) -> real,
    w: spec_fn(int) -> real,
    k: int,
    alpha: real,
    n: nat,
)
    requires
        0 <= k < n,
        forall|i: int| 0 <= i < n && i != k ==> #[trigger] w(i) == x(i),
        w(k) == x(k) - alpha,
        prod(alpha, alpha) == sum(|i: int| prod(x(i), x(i)), n),
        prod(alpha, x(k)) <= 0 as real,
        alpha != 0 as real,
    ensures
        sum(|i: int| prod(w(i), w(i)), n) > 0 as real,
        sum(|i: int| prod(w(i), w(i)), n) == sum(|i: int| prod(w(i), x(i)), n) + sum(
            |i: int| prod(w(i), x(i)),
            n,
        ),
{
    let xx = |i: int| prod(x(i), x(i));
    let wx = |i: int| prod(w(i), x(i));
    let ww = |i: int| prod(w(i), w(i));
    let a = prod(alpha, x(k));
    let off = |i: int| if i == k { -a } else { 0 as real };
    let more = |i: int| if i == k { prod(alpha, alpha) - a - a } else { 0 as real };
    lemma_prod_plus(x(k), x(k), alpha);
    lemma_prod_plus(alpha, x(k), alpha);
    lemma_prod_plus(w(k), x(k), alpha);
    lemma_prod(x(k), alpha);
    let one = |i: int| xx(i) + off(i);
    let two = |i: int| xx(i) + more(i);
    assert forall|i: int| 0 <= i < n implies #[trigger] wx(i) == one(i) by {
        if i == k {
            assert(wx(k) == prod(x(k) - alpha, x(k)));
        } else {
            assert(w(i) == x(i));
        }
    }
    assert forall|i: int| 0 <= i < n implies #[trigger] ww(i) == two(i) by {
        if i == k {
            assert(ww(k) == prod(x(k) - alpha, x(k) - alpha));
        } else {
            assert(w(i) == x(i));
        }
    }
    lemma_sum_agree(wx, one, n);
    lemma_sum_agree(ww, two, n);
    lemma_sum_both(xx, off, n);
    lemma_sum_both(xx, more, n);
    lemma_sum_single(off, k, n);
    lemma_sum_single(more, k, n);
    lemma_prod_square(alpha);
}

// ---- QR ---------------------------------------------------------------------------

/// What every reflection keeps: `q` is orthonormal, `q * r` is the matrix, and the
/// first `k` columns of `r` are zero below the diagonal.
pub open spec fn factored<T>(v: spec_fn(T) -> real, s: QrState<T>, a: Seq<T>, n: int, k: int) -> bool {
    &&& s.r.len() == n * n
    &&& s.q.len() == n * n
    &&& orthonormal(at(v, s.q, n), n as nat)
    &&& multiplies_to(at(v, s.q, n), at(v, s.r, n), at(v, a, n), n as nat)
    &&& forall|i: int, j: int|
        0 <= j < k && j < i < n ==> #[trigger] at(v, s.r, n)(i, j) == 0 as real
}

/// The mirror of step `k` is left out only where there is nothing to mirror.
pub open spec fn mirrors_what_is_there<T: Analytic>(
    v: spec_fn(T) -> real,
    s: QrState<T>,
    n: int,
    k: int,
) -> bool {
    let len = column_length(s.r, n, k);
    len.less_spec(tiny()) || square_sum(mirror(s.r, n, k), n, k).less_spec(tiny()) ==> v(len)
        == 0 as real
}

/// No column is closer to zero than the bound without being zero.
pub open spec fn clear_columns<T: Analytic>(v: spec_fn(T) -> real, a: Seq<T>, n: int) -> bool {
    &&& v(tiny::<T>()) > 0 as real
    &&& forall|k: nat|
        k < reflections(n) ==> mirrors_what_is_there(
            v,
            #[trigger] reflected(a, n, k),
            n,
            k as int,
        )
}

proof fn lemma_square_sum<T: Analytic>(v: spec_fn(T) -> real, x: Seq<T>, n: int, k: int)
    requires
        faithful(v),
        0 <= k <= n,
        x.len() == n,
        forall|i: int| 0 <= i < k ==> v(#[trigger] x[i]) == 0 as real,
    ensures
        v(square_sum(x, n, k)) == sum(|i: int| prod(v(x[i]), v(x[i])), n as nat),
{
    let f = |t: int| x[k + t].times_spec(x[k + t]);
    lemma_accumulate(v, zero(), f, (n - k) as nat);
    lemma_whole::<T>(v, 0);
    let g = |i: int| prod(v(x[i]), v(x[i]));
    assert forall|i: int| 0 <= i < k implies #[trigger] g(i) == 0 as real by {
        lemma_prod(0 as real, 0 as real);
        assert(v(x[i]) == 0 as real);
    }
    lemma_sum_from(g, k as nat, n as nat);
    lemma_sum_agree(|i: int| v(f(i)), |t: int| g(k + t), (n - k) as nat);
}

/// The share of a sum: `2 * sum / len`.
proof fn lemma_share<T: Scalar>(v: spec_fn(T) -> real, dot: T, len: T)
    requires
        faithful(v),
        v(len) != 0 as real,
    ensures
        prod(v(len), v(crate::linalg::twice_over(dot, len))) == prod(2 as real, v(dot)),
{
    lemma_whole::<T>(v, 2);
    lemma_prod(v(len), v(crate::linalg::twice_over(dot, len)));
}

proof fn lemma_column_share<T: Scalar>(
    v: spec_fn(T) -> real,
    r: Seq<T>,
    w: Seq<T>,
    len: T,
    n: int,
    k: int,
    j: int,
)
    requires
        faithful(v),
        v(len) != 0 as real,
        0 <= k <= n,
        forall|i: int| 0 <= i < k ==> v(#[trigger] w[i]) == 0 as real,
    ensures
        prod(v(len), v(column_share(r, w, len, n, k, j))) == prod(
            2 as real,
            sum(|t: int| prod(v(w[t]), at(v, r, n)(t, j)), n as nat),
        ),
{
    let f = dot_term(r, j, n, w, k);
    lemma_accumulate(v, zero(), f, (n - k) as nat);
    lemma_whole::<T>(v, 0);
    let g = |t: int| prod(v(w[t]), at(v, r, n)(t, j));
    assert forall|i: int| 0 <= i < k implies #[trigger] g(i) == 0 as real by {
        lemma_prod(at(v, r, n)(i, j), 0 as real);
        assert(v(w[i]) == 0 as real);
    }
    lemma_sum_from(g, k as nat, n as nat);
    let h = |t: int| v(f(t));
    assert forall|t: int| 0 <= t < n - k implies #[trigger] h(t) == g(k + t) by {
        assert(j + (k + t) * n == (k + t) * n + j);
    }
    lemma_sum_agree(h, |t: int| g(k + t), (n - k) as nat);
    lemma_share(v, accumulate(zero(), f, (n - k) as nat), len);
}

proof fn lemma_row_share<T: Scalar>(
    v: spec_fn(T) -> real,
    q: Seq<T>,
    w: Seq<T>,
    len: T,
    n: int,
    k: int,
    i: int,
)
    requires
        faithful(v),
        v(len) != 0 as real,
        0 <= k <= n,
        forall|t: int| 0 <= t < k ==> v(#[trigger] w[t]) == 0 as real,
    ensures
        prod(v(len), v(row_share(q, w, len, n, k, i))) == prod(
            2 as real,
            sum(|t: int| prod(at(v, q, n)(i, t), v(w[t])), n as nat),
        ),
{
    let f = dot_term_left(q, i * n, 1, w, k);
    lemma_accumulate(v, zero(), f, (n - k) as nat);
    lemma_whole::<T>(v, 0);
    let g = |t: int| prod(at(v, q, n)(i, t), v(w[t]));
    assert forall|t: int| 0 <= t < k implies #[trigger] g(t) == 0 as real by {
        lemma_prod(at(v, q, n)(i, t), 0 as real);
        assert(v(w[t]) == 0 as real);
    }
    lemma_sum_from(g, k as nat, n as nat);
    let h = |t: int| v(f(t));
    assert forall|t: int| 0 <= t < n - k implies #[trigger] h(t) == g(k + t) by {
        assert(i * n + (k + t) * 1 == i * n + (k + t));
    }
    lemma_sum_agree(h, |t: int| g(k + t), (n - k) as nat);
    lemma_share(v, accumulate(zero(), f, (n - k) as nat), len);
}


/// What one mirror does to the factors, over the reals.
proof fn lemma_mirrored<T: Analytic>(v: spec_fn(T) -> real, s: QrState<T>, n: int, k: int)
    requires
        faithful_roots(v),
        0 <= k < n,
        s.r.len() == n * n,
        s.q.len() == n * n,
        v(column_length(s.r, n, k)) != 0 as real,
        !column_length(s.r, n, k).less_spec(tiny()),
        !square_sum(mirror(s.r, n, k), n, k).less_spec(tiny()),
    ensures
        ({
            let w = mirror(s.r, n, k);
            let len = square_sum(w, n, k);
            let t = reflect(s, n, k);
            &&& v(len) == sum(|i: int| prod(v(w[i]), v(w[i])), n as nat)
            &&& v(len) > 0 as real
            &&& forall|i: int| 0 <= i < k ==> v(#[trigger] w[i]) == 0 as real
            &&& forall|i: int, j: int|
                0 <= i < n && 0 <= j < n ==> #[trigger] at(v, t.r, n)(i, j) == at(v, s.r, n)(i, j)
                    - prod(v(column_share(s.r, w, len, n, k, j)), v(w[i]))
            &&& forall|i: int, j: int|
                0 <= i < n && 0 <= j < n ==> #[trigger] at(v, t.q, n)(i, j) == at(v, s.q, n)(i, j)
                    - prod(v(row_share(s.q, w, len, n, k, i)), v(w[j]))
            &&& forall|i: int| k < i < n ==> #[trigger] at(v, t.r, n)(i, k) == 0 as real
        }),
{
    let w = mirror(s.r, n, k);
    let col = lower_column(s.r, n, k);
    let len = square_sum(w, n, k);
    let length = column_length(s.r, n, k);
    let t = reflect(s, n, k);
    lemma_whole::<T>(v, 0);
    assert forall|i: int| 0 <= i < k implies v(#[trigger] w[i]) == 0 as real && v(col[i])
        == 0 as real by {}
    lemma_square_sum(v, col, n, k);
    lemma_square_sum(v, w, n, k);
    let x = |i: int| v(col[i]);
    let y = |i: int| v(w[i]);
    lemma_sum_squares(x, n as nat);
    let xx = |i: int| prod(v(col[i]), v(col[i]));
    lemma_sum_agree(xx, |i: int| prod(x(i), x(i)), n as nat);
    let alpha = if not_negative(s.r[k * n + k]) {
        length.negated_spec()
    } else {
        length
    };
    let al = v(alpha);
    lemma_prod(v(length), v(length));
    lemma_prod(v(length), x(k));
    lemma_prod_sign(v(length), x(k));
    lemma_prod_sign(v(length), -x(k));
    assert(col[k] == s.r[k * n + k]);
    assert(prod(al, x(k)) <= 0 as real);
    lemma_mirror_vector(x, y, k, al, n as nat);
    let yy = |i: int| prod(v(w[i]), v(w[i]));
    lemma_sum_agree(yy, |i: int| prod(y(i), y(i)), n as nat);
    assert forall|i: int, j: int| 0 <= i < n && 0 <= j < n implies #[trigger] at(v, t.r, n)(i, j)
        == at(v, s.r, n)(i, j) - prod(v(column_share(s.r, w, len, n, k, j)), v(w[i])) by {
        lemma_within(i, n, j, n);
        lemma_split(i, n, j);
        lemma_prod(v(column_share(s.r, w, len, n, k, j)), 0 as real);
    }
    assert forall|i: int, j: int| 0 <= i < n && 0 <= j < n implies #[trigger] at(v, t.q, n)(i, j)
        == at(v, s.q, n)(i, j) - prod(v(row_share(s.q, w, len, n, k, i)), v(w[j])) by {
        lemma_within(i, n, j, n);
        lemma_split(i, n, j);
        lemma_prod(v(row_share(s.q, w, len, n, k, i)), 0 as real);
    }
    // the column itself goes onto its axis
    lemma_column_share(v, s.r, w, len, n, k, k);
    let f = v(column_share(s.r, w, len, n, k, k));
    let wr = |t: int| prod(v(w[t]), at(v, s.r, n)(t, k));
    let wx = |t: int| prod(y(t), x(t));
    assert forall|t: int| 0 <= t < n implies #[trigger] wr(t) == wx(t) by {
        if t < k {
            lemma_prod(at(v, s.r, n)(t, k), 0 as real);
            lemma_prod(x(t), 0 as real);
            assert(v(w[t]) == 0 as real);
        }
    }
    lemma_sum_agree(wr, wx, n as nat);
    lemma_prod_two(sum(wx, n as nat));
    lemma_prod(v(len), 1 as real);
    lemma_prod_cancel(v(len), f, 1 as real);
    assert forall|i: int| k < i < n implies #[trigger] at(v, t.r, n)(i, k) == 0 as real by {
        lemma_prod(v(w[i]), 1 as real);
        assert(at(v, s.r, n)(i, k) == v(col[i]));
        assert(w[i] == col[i]);
    }
}

proof fn lemma_factored_step<T: Analytic>(
    v: spec_fn(T) -> real,
    s: QrState<T>,
    a: Seq<T>,
    n: int,
    k: int,
)
    requires
        faithful_roots(v),
        0 <= k < n,
        v(tiny::<T>()) > 0 as real,
        mirrors_what_is_there(v, s, n, k),
        factored(v, s, a, n, k),
    ensures
        factored(v, reflect(s, n, k), a, n, k + 1),
{
    let w = mirror(s.r, n, k);
    let len = square_sum(w, n, k);
    let length = column_length(s.r, n, k);
    let t = reflect(s, n, k);
    if length.less_spec(tiny()) || len.less_spec(tiny()) {
        let col = lower_column(s.r, n, k);
        lemma_whole::<T>(v, 0);
        assert forall|i: int| 0 <= i < k implies v(#[trigger] col[i]) == 0 as real by {}
        lemma_square_sum(v, col, n, k);
        let x = |i: int| v(col[i]);
        lemma_sum_squares(x, n as nat);
        lemma_sum_agree(
            |i: int| prod(v(col[i]), v(col[i])),
            |i: int| prod(x(i), x(i)),
            n as nat,
        );
        lemma_prod(0 as real, 0 as real);
        assert forall|i: int, j: int| 0 <= j < k + 1 && j < i < n implies #[trigger] at(v, t.r, n)(
            i,
            j,
        ) == 0 as real by {
            if j == k {
                assert(x(i) == 0 as real);
                assert(col[i] == s.r[i * n + k]);
            } else {
                assert(at(v, s.r, n)(i, j) == 0 as real);
            }
        }
    } else {
        lemma_mirrored(v, s, n, k);
        let l = v(len);
        let y = |i: int| v(w[i]);
        let g = |i: int| v(row_share(s.q, w, len, n, k, i));
        let ww = |i: int| prod(y(i), y(i));
        lemma_sum_agree(|i: int| prod(v(w[i]), v(w[i])), ww, n as nat);
        let (q, r) = (at(v, s.q, n), at(v, s.r, n));
        let (q2, r2) = (at(v, t.q, n), at(v, t.r, n));
        assert forall|i: int| 0 <= i < n implies prod(l, #[trigger] g(i)) == prod(
            2 as real,
            sum(|t: int| prod(q(i, t), y(t)), n as nat),
        ) by {
            lemma_row_share(v, s.q, w, len, n, k, i);
            lemma_sum_agree(
                |t: int| prod(q(i, t), v(w[t])),
                |t: int| prod(q(i, t), y(t)),
                n as nat,
            );
        }
        lemma_mirrored_orthonormal(q, q2, y, g, n as nat);
        assert forall|i: int, j: int| 0 <= i < n && 0 <= j < n implies #[trigger] product(
            q2,
            r2,
            n as nat,
            i,
            j,
        ) == at(v, a, n)(i, j) by {
            lemma_column_share(v, s.r, w, len, n, k, j);
            let f = v(column_share(s.r, w, len, n, k, j));
            let qi = |t: int| q(i, t);
            let rj = |t: int| r(t, j);
            lemma_sum_agree(
                |t: int| prod(v(w[t]), r(t, j)),
                |t: int| prod(y(t), rj(t)),
                n as nat,
            );
            lemma_sum_agree(
                |t: int| prod(q(i, t), y(t)),
                |t: int| prod(qi(t), y(t)),
                n as nat,
            );
            lemma_prod_two(sum(|t: int| prod(y(t), rj(t)), n as nat));
            lemma_prod_two(sum(|t: int| prod(qi(t), y(t)), n as nat));
            assert(prod(l, g(i)) == prod(2 as real, sum(|t: int| prod(q(i, t), y(t)), n as nat)));
            lemma_mirrored_product(qi, rj, y, g(i), f, n as nat);
            let whole = |t: int| prod(qi(t) - prod(g(i), y(t)), rj(t) - prod(f, y(t)));
            let got = |t: int| prod(q2(i, t), r2(t, j));
            assert forall|t: int| 0 <= t < n implies #[trigger] got(t) == whole(t) by {
                assert(q2(i, t) == q(i, t) - prod(g(i), v(w[t])));
                assert(r2(t, j) == r(t, j) - prod(f, v(w[t])));
            }
            lemma_sum_agree(got, whole, n as nat);
            lemma_sum_agree(
                |t: int| prod(qi(t), rj(t)),
                |t: int| prod(q(i, t), r(t, j)),
                n as nat,
            );
            assert(product(q, r, n as nat, i, j) == at(v, a, n)(i, j));
        }
        assert forall|i: int, j: int| 0 <= j < k + 1 && j < i < n implies #[trigger] at(v, t.r, n)(
            i,
            j,
        ) == 0 as real by {
            if j < k {
                lemma_column_share(v, s.r, w, len, n, k, j);
                let wr = |t: int| prod(v(w[t]), at(v, s.r, n)(t, j));
                assert forall|t: int| 0 <= t < n implies #[trigger] wr(t) == 0 as real by {
                    if t < k {
                        lemma_prod(at(v, s.r, n)(t, j), 0 as real);
                        assert(v(w[t]) == 0 as real);
                    } else {
                        lemma_prod(v(w[t]), 0 as real);
                        assert(at(v, s.r, n)(t, j) == 0 as real);
                    }
                }
                lemma_sum_zero(wr, n as nat);
                lemma_prod(2 as real, 0 as real);
                lemma_prod(l, 0 as real);
                let f = v(column_share(s.r, w, len, n, k, j));
                lemma_prod_cancel(l, f, 0 as real);
                lemma_prod(v(w[i]), 0 as real);
                assert(at(v, s.r, n)(i, j) == 0 as real);
            }
        }
        assert(t.r.len() == n * n && t.q.len() == n * n) by {
            lemma_within(k, n, k, n);
        }
    }
}

proof fn lemma_factored<T: Analytic>(v: spec_fn(T) -> real, a: Seq<T>, n: int, k: nat)
    requires
        faithful_roots(v),
        0 < n,
        a.len() == n * n,
        k <= reflections(n),
        clear_columns(v, a, n),
    ensures
        factored(v, reflected(a, n, k), a, n, k as int),
    decreases k,
{
    if k == 0 {
        lemma_whole::<T>(v, 0);
        lemma_whole::<T>(v, 1);
        let e = at(v, identity::<T>(n), n);
        lemma_within(0, n, 0, n);
        assert forall|i: int, j: int| 0 <= i < n && 0 <= j < n implies #[trigger] e(i, j) == delta(
            i,
            j,
        ) by {
            lemma_within(i, n, j, n);
            lemma_split(i, n, j);
        }
        assert forall|i: int, j: int| 0 <= i < n && 0 <= j < n implies #[trigger] gram(
            e,
            n as nat,
            i,
            j,
        ) == delta(i, j) by {
            let f = |t: int| prod(e(t, i), e(t, j));
            assert forall|t: int| 0 <= t < n && t != i implies #[trigger] f(t) == 0 as real by {
                lemma_prod(e(t, j), 0 as real);
                assert(e(t, i) == delta(t, i));
            }
            lemma_sum_single(f, i, n as nat);
            lemma_prod(e(i, j), 1 as real);
            assert(e(i, i) == delta(i, i));
            assert(e(i, j) == delta(i, j));
        }
        assert forall|i: int, j: int| 0 <= i < n && 0 <= j < n implies #[trigger] product(
            e,
            at(v, a, n),
            n as nat,
            i,
            j,
        ) == at(v, a, n)(i, j) by {
            let f = |t: int| prod(e(i, t), at(v, a, n)(t, j));
            assert forall|t: int| 0 <= t < n && t != i implies #[trigger] f(t) == 0 as real by {
                lemma_prod(at(v, a, n)(t, j), 0 as real);
                assert(e(i, t) == delta(i, t));
            }
            lemma_sum_single(f, i, n as nat);
            lemma_prod(at(v, a, n)(i, j), 1 as real);
            assert(e(i, i) == delta(i, i));
        }
    } else {
        lemma_factored(v, a, n, (k - 1) as nat);
        assert(mirrors_what_is_there(v, reflected(a, n, (k - 1) as nat), n, k - 1));
        lemma_factored_step(v, reflected(a, n, (k - 1) as nat), a, n, k - 1);
    }
}

/// Where arithmetic is exact, a QR decomposition is one: `q` is orthonormal, `r` is
/// upper triangular, and `q * r` is the matrix.
pub proof fn law_qr<T: Analytic>(v: spec_fn(T) -> real, a: Seq<T>, n: int)
    requires
        faithful_roots(v),
        0 < n,
        a.len() == n * n,
        clear_columns(v, a, n),
    ensures
        orthonormal(at(v, qr_of(a, n).0, n), n as nat),
        multiplies_to(at(v, qr_of(a, n).0, n), at(v, qr_of(a, n).1, n), at(v, a, n), n as nat),
        forall|i: int, j: int|
            0 <= j < i < n ==> #[trigger] at(v, qr_of(a, n).1, n)(i, j) == 0 as real,
{
    let s = reflected(a, n, reflections(n));
    lemma_factored(v, a, n, reflections(n));
    lemma_whole::<T>(v, 0);
    let (r, u) = (at(v, s.r, n), at(v, upper(s.r, n), n));
    assert forall|i: int, j: int| 0 <= i < n && 0 <= j < n implies #[trigger] u(i, j) == r(i, j) && (
    j < i ==> u(i, j) == 0 as real) by {
        lemma_within(i, n, j, n);
        lemma_split(i, n, j);
        if j < i {
            assert(r(i, j) == 0 as real);
        }
    }
    let q = at(v, s.q, n);
    assert forall|i: int, j: int| 0 <= i < n && 0 <= j < n implies #[trigger] product(
        q,
        u,
        n as nat,
        i,
        j,
    ) == at(v, a, n)(i, j) by {
        let f = |t: int| prod(q(i, t), u(t, j));
        let g = |t: int| prod(q(i, t), r(t, j));
        assert forall|t: int| 0 <= t < n implies #[trigger] f(t) == g(t) by {
            assert(u(t, j) == r(t, j));
        }
        lemma_sum_agree(f, g, n as nat);
        assert(product(q, r, n as nat, i, j) == at(v, a, n)(i, j));
    }
    assert forall|i: int, j: int| 0 <= j < i < n implies #[trigger] at(v, qr_of(a, n).1, n)(i, j)
        == 0 as real by {
        assert(u(i, j) == r(i, j));
    }
}


// ---- QL ---------------------------------------------------------------------------

/// Three terms.
pub proof fn lemma_sum_three(f: spec_fn(int) -> real)
    ensures
        sum(f, 3) == f(0) + f(1) + f(2),
{
    reveal_with_fuel(sum, 4);
}

/// The side of zero as a factor: its square is one, and it makes a number
/// positive.
proof fn lemma_side<T: Scalar>(v: spec_fn(T) -> real, x: T)
    requires
        faithful(v),
    ensures
        prod(v(side_of(x)), v(side_of(x))) == 1 as real,
        prod(v(x), v(side_of(x))) >= 0 as real,
{
    lemma_whole::<T>(v, 0);
    lemma_whole::<T>(v, 1);
    lemma_whole::<T>(v, (-1) as i32);
    lemma_prod(1 as real, 1 as real);
    lemma_prod(v(x), 1 as real);
}

/// A 3x3 index with its column turned round.
proof fn lemma_nine(i: int, j: int)
    requires
        0 <= i < 3,
        0 <= j < 3,
    ensures
        0 <= i * 3 + j < 9,
        (i * 3 + j) / 3 == i,
        (i * 3 + j) % 3 == j,
{
}

/// Where arithmetic is exact, a QL decomposition is one, also of a singular matrix:
/// `q` is orthonormal, `l` is lower triangular with nothing negative on its
/// diagonal, and `q * l` is the matrix.
pub proof fn law_ql<T: Analytic>(v: spec_fn(T) -> real, a: Seq<T>)
    requires
        faithful_roots(v),
        a.len() == 9,
        clear_columns(v, columns_reversed(a), 3),
    ensures
        orthonormal(at(v, ql_of(a).0, 3), 3),
        multiplies_to(at(v, ql_of(a).0, 3), at(v, ql_of(a).1, 3), at(v, a, 3), 3),
        forall|i: int, j: int|
            0 <= i < j < 3 ==> #[trigger] at(v, ql_of(a).1, 3)(i, j) == 0 as real,
        forall|i: int| 0 <= i < 3 ==> #[trigger] at(v, ql_of(a).1, 3)(i, i) >= 0 as real,
{
    let b = columns_reversed(a);
    law_qr(v, b, 3);
    let (qs, rs) = qr_of(b, 3);
    let (qt, rt) = (at(v, qs, 3), at(v, rs, 3));
    let (q, l) = (at(v, ql_of(a).0, 3), at(v, ql_of(a).1, 3));
    let s = |j: int| v(side_of(rs[8 - 4 * j]));
    assert forall|i: int, j: int| 0 <= i < 3 && 0 <= j < 3 implies #[trigger] q(i, j) == prod(
        qt(i, 2 - j),
        s(j),
    ) && l(i, j) == prod(rt(2 - i, 2 - j), s(i)) && at(v, b, 3)(i, 2 - j) == at(v, a, 3)(i, j) by {
        lemma_nine(i, j);
        assert(i == 0 || i == 1 || i == 2);
        assert(j == 0 || j == 1 || j == 2);
    }
    assert forall|i: int, j: int| 0 <= i < 3 && 0 <= j < 3 implies #[trigger] gram(q, 3, i, j)
        == delta(i, j) by {
        assert(gram(qt, 3, 2 - i, 2 - j) == delta(2 - i, 2 - j));
        let f = |t: int| prod(qt(t, 2 - i), qt(t, 2 - j));
        let c = prod(s(i), s(j));
        lemma_sum_times(f, c, 3);
        let got = |t: int| prod(q(t, i), q(t, j));
        let want = |t: int| prod(c, f(t));
        assert forall|t: int| 0 <= t < 3 implies #[trigger] got(t) == want(t) by {
            assert(q(t, i) == prod(qt(t, 2 - i), s(i)));
            assert(q(t, j) == prod(qt(t, 2 - j), s(j)));
            lemma_four_factors(qt(t, 2 - i), s(i), qt(t, 2 - j), s(j));
            lemma_prod(f(t), c);
        }
        lemma_sum_agree(got, want, 3);
        lemma_side(v, rs[8 - 4 * i]);
        lemma_prod(c, 0 as real);
        lemma_prod(c, 1 as real);
    }
    assert forall|i: int, j: int| 0 <= i < 3 && 0 <= j < 3 implies #[trigger] product(
        q,
        l,
        3,
        i,
        j,
    ) == at(v, a, 3)(i, j) by {
        assert(product(qt, rt, 3, i, 2 - j) == at(v, b, 3)(i, 2 - j));
        let f = |t: int| prod(qt(i, t), rt(t, 2 - j));
        let got = |t: int| prod(q(i, t), l(t, j));
        assert forall|t: int| 0 <= t < 3 implies #[trigger] got(t) == f(2 - t) by {
            assert(q(i, t) == prod(qt(i, 2 - t), s(t)));
            assert(q(t, j) == prod(qt(t, 2 - j), s(j)));
            lemma_four_factors(qt(i, 2 - t), s(t), rt(2 - t, 2 - j), s(t));
            lemma_side(v, rs[8 - 4 * t]);
            lemma_prod(f(2 - t), 1 as real);
        }
        lemma_sum_three(f);
        lemma_sum_three(got);
        assert(got(0) == f(2) && got(1) == f(1) && got(2) == f(0));
        assert(q(i, j) == prod(qt(i, 2 - j), s(j)));
    }
    assert forall|i: int, j: int| 0 <= i < j < 3 implies #[trigger] at(v, ql_of(a).1, 3)(i, j)
        == 0 as real by {
        assert(q(i, j) == prod(qt(i, 2 - j), s(j)));
        assert(rt(2 - i, 2 - j) == 0 as real);
        lemma_prod(s(i), 0 as real);
    }
    assert forall|i: int| 0 <= i < 3 implies #[trigger] at(v, ql_of(a).1, 3)(i, i) >= 0 as real by {
        assert(q(i, i) == prod(qt(i, 2 - i), s(i)));
        assert((2 - i) * 3 + (2 - i) == 8 - 4 * i);
        lemma_side(v, rs[8 - 4 * i]);
    }
}

} // verus!
