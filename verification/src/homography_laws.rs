//! What the weighted homography is where arithmetic is exact.

use crate::index::{accumulate, lemma_split, lemma_within};
use crate::inverse_laws::lemma_three;
use crate::jacobi_laws::{
    applied, law_eigenpairs, law_eigenvectors, row_gram, rows_orthonormal, settled,
};
use crate::linalg::{
    eigen_of, first_row, least_index, normal_of, normal_term, root_weight, second_row, smallest_of,
};
use crate::linalg_laws::{at, delta, gram};
use crate::reals::{
    faithful, faithful_roots, inner, lemma_accumulate, lemma_prod, lemma_prod_cancel,
    lemma_prod_plus, lemma_prod_regroup, lemma_prod_square, lemma_sum_agree, lemma_sum_both,
    lemma_sum_single, lemma_sum_swap, lemma_sum_times, lemma_sum_zero, lemma_whole, prod, sum,
    turned,
};
use crate::scalar::{one, zero, Analytic, Scalar};
use vstd::prelude::*;

verus! {

/// The homography `h` takes every source point to its destination.
pub open spec fn takes_points<T>(
    v: spec_fn(T) -> real,
    h: spec_fn(int) -> real,
    src: Seq<T>,
    dst: Seq<T>,
    m: int,
) -> bool {
    forall|k: int|
        0 <= k < m ==> {
            let (x, y) = (v(#[trigger] src[2 * k]), v(src[2 * k + 1]));
            let depth = prod(h(6), x) + prod(h(7), y) + h(8);
            &&& prod(v(dst[2 * k]), depth) == prod(h(0), x) + prod(h(1), y) + h(2)
            &&& prod(v(dst[2 * k + 1]), depth) == prod(h(3), x) + prod(h(4), y) + h(5)
        }
}

/// The matrix takes `y` to zero.
pub open spec fn vanishes(m: spec_fn(int, int) -> real, y: spec_fn(int) -> real, n: nat) -> bool {
    forall|i: int| 0 <= i < n ==> #[trigger] applied(m, y, n, i) == 0 as real
}

/// `y` is a multiple of `h`.
pub open spec fn multiple_of(y: spec_fn(int) -> real, h: spec_fn(int) -> real, n: nat) -> bool {
    exists|c: real| #[trigger] is_times(y, c, h, n)
}

/// `y` is `c` times `h`.
pub open spec fn is_times(
    y: spec_fn(int) -> real,
    c: real,
    h: spec_fn(int) -> real,
    n: nat,
) -> bool {
    forall|i: int| 0 <= i < n ==> #[trigger] y(i) == prod(c, h(i))
}

/// The equations of the point pairs leave nothing but multiples of `h`.
pub open spec fn settles_on(m: spec_fn(int, int) -> real, h: spec_fn(int) -> real, n: nat) -> bool {
    forall|y: spec_fn(int) -> real| #[trigger] vanishes(m, y, n) ==> multiple_of(y, h, n)
}

// ---- sums of squares ---------------------------------------------------------------

/// The product of row `k` with a vector.
spec fn dot(a: spec_fn(int, int) -> real, y: spec_fn(int) -> real, n: nat, k: int) -> real {
    sum(|j: int| prod(a(k, j), y(j)), n)
}

/// What row `k` of two matrices adds to element `(i, j)` of their normal equations.
spec fn both_at(
    a: spec_fn(int, int) -> real,
    b: spec_fn(int, int) -> real,
    i: int,
    j: int,
) -> spec_fn(int) -> real {
    |k: int| prod(a(k, i), a(k, j)) + prod(b(k, i), b(k, j))
}

/// `g` holds the normal equations of `m` rows of two matrices.
spec fn normal(
    g: spec_fn(int, int) -> real,
    a: spec_fn(int, int) -> real,
    b: spec_fn(int, int) -> real,
    m: nat,
    n: nat,
) -> bool {
    forall|i: int, j: int|
        0 <= i < n && 0 <= j < n ==> #[trigger] g(i, j) == sum(both_at(a, b, i, j), m)
}

/// One row's part of the normal equations times a vector.
spec fn spread(
    a: spec_fn(int, int) -> real,
    b: spec_fn(int, int) -> real,
    y: spec_fn(int) -> real,
    n: nat,
    i: int,
) -> spec_fn(int) -> real {
    |k: int| prod(a(k, i), dot(a, y, n, k)) + prod(b(k, i), dot(b, y, n, k))
}

/// The normal equations times a vector, row by row.
proof fn lemma_applied(
    g: spec_fn(int, int) -> real,
    a: spec_fn(int, int) -> real,
    b: spec_fn(int, int) -> real,
    y: spec_fn(int) -> real,
    m: nat,
    n: nat,
    i: int,
)
    requires
        normal(g, a, b, m, n),
        0 <= i < n,
    ensures
        applied(g, y, n, i) == sum(spread(a, b, y, n, i), m),
{
    let f = |j: int, k: int|
        prod(a(k, i), prod(a(k, j), y(j))) + prod(b(k, i), prod(b(k, j), y(j)));
    let left = |j: int| prod(g(i, j), y(j));
    assert forall|j: int| 0 <= j < n implies #[trigger] left(j) == inner(f, m)(j) by {
        assert(g(i, j) == sum(both_at(a, b, i, j), m));
        let e = both_at(a, b, i, j);
        lemma_sum_times(e, y(j), m);
        let x = |k: int| prod(y(j), e(k));
        let r = |k: int| f(j, k);
        assert forall|k: int| 0 <= k < m implies #[trigger] x(k) == r(k) by {
            lemma_prod_plus(y(j), prod(a(k, i), a(k, j)), prod(b(k, i), b(k, j)));
            lemma_prod_regroup(a(k, i), a(k, j), y(j));
            lemma_prod_regroup(b(k, i), b(k, j), y(j));
        }
        lemma_sum_agree(x, r, m);
        lemma_prod(g(i, j), y(j));
    }
    lemma_sum_agree(left, inner(f, m), n);
    lemma_sum_swap(f, n, m);
    let back = inner(turned(f), n);
    let want = spread(a, b, y, n, i);
    assert forall|k: int| 0 <= k < m implies #[trigger] back(k) == want(k) by {
        let (p, q) = (|j: int| prod(a(k, j), y(j)), |j: int| prod(b(k, j), y(j)));
        lemma_sum_times(p, a(k, i), n);
        lemma_sum_times(q, b(k, i), n);
        let (s, t) = (|j: int| prod(a(k, i), p(j)), |j: int| prod(b(k, i), q(j)));
        lemma_sum_both(s, t, n);
        let x = |j: int| s(j) + t(j);
        let r = |j: int| turned(f)(k, j);
        assert forall|j: int| 0 <= j < n implies #[trigger] x(j) == r(j) by {}
        lemma_sum_agree(x, r, n);
    }
    lemma_sum_agree(back, want, m);
}

/// A vector that every row takes to zero solves the normal equations.
proof fn lemma_solves(
    g: spec_fn(int, int) -> real,
    a: spec_fn(int, int) -> real,
    b: spec_fn(int, int) -> real,
    y: spec_fn(int) -> real,
    m: nat,
    n: nat,
)
    requires
        normal(g, a, b, m, n),
        forall|k: int| 0 <= k < m ==> #[trigger] dot(a, y, n, k) == 0 as real,
        forall|k: int| 0 <= k < m ==> #[trigger] dot(b, y, n, k) == 0 as real,
    ensures
        vanishes(g, y, n),
{
    assert forall|i: int| 0 <= i < n implies #[trigger] applied(g, y, n, i) == 0 as real by {
        lemma_applied(g, a, b, y, m, n, i);
        let e = spread(a, b, y, n, i);
        assert forall|k: int| 0 <= k < m implies #[trigger] e(k) == 0 as real by {
            assert(dot(a, y, n, k) == 0 as real && dot(b, y, n, k) == 0 as real);
            lemma_prod(a(k, i), 0 as real);
            lemma_prod(b(k, i), 0 as real);
        }
        lemma_sum_zero(e, m);
    }
}

proof fn lemma_sum_not_negative(f: spec_fn(int) -> real, n: nat)
    requires
        forall|i: int| 0 <= i < n ==> #[trigger] f(i) >= 0 as real,
    ensures
        sum(f, n) >= 0 as real,
    decreases n,
{
    if n > 0 {
        lemma_sum_not_negative(f, (n - 1) as nat);
        assert(f(n - 1) >= 0 as real);
    }
}

/// The normal equations take no vector to its opposite side.
proof fn lemma_not_negative(
    g: spec_fn(int, int) -> real,
    a: spec_fn(int, int) -> real,
    b: spec_fn(int, int) -> real,
    y: spec_fn(int) -> real,
    m: nat,
    n: nat,
)
    requires
        normal(g, a, b, m, n),
    ensures
        sum(|i: int| prod(y(i), applied(g, y, n, i)), n) >= 0 as real,
{
    let f = |i: int, k: int| prod(y(i), spread(a, b, y, n, i)(k));
    let left = |i: int| prod(y(i), applied(g, y, n, i));
    assert forall|i: int| 0 <= i < n implies #[trigger] left(i) == inner(f, m)(i) by {
        lemma_applied(g, a, b, y, m, n, i);
        let e = spread(a, b, y, n, i);
        lemma_sum_times(e, y(i), m);
        let (x, r) = (|k: int| prod(y(i), e(k)), |k: int| f(i, k));
        assert forall|k: int| 0 <= k < m implies #[trigger] x(k) == r(k) by {}
        lemma_sum_agree(x, r, m);
    }
    lemma_sum_agree(left, inner(f, m), n);
    lemma_sum_swap(f, n, m);
    let back = inner(turned(f), n);
    assert forall|k: int| 0 <= k < m implies #[trigger] back(k) >= 0 as real by {
        let (da, db) = (dot(a, y, n, k), dot(b, y, n, k));
        let (p, q) = (|j: int| prod(a(k, j), y(j)), |j: int| prod(b(k, j), y(j)));
        lemma_sum_times(p, da, n);
        lemma_sum_times(q, db, n);
        let (s, t) = (|j: int| prod(da, p(j)), |j: int| prod(db, q(j)));
        lemma_sum_both(s, t, n);
        let x = |j: int| s(j) + t(j);
        let r = |i: int| turned(f)(k, i);
        assert forall|i: int| 0 <= i < n implies #[trigger] x(i) == r(i) by {
            lemma_prod_plus(y(i), prod(a(k, i), da), prod(b(k, i), db));
            lemma_three(y(i), a(k, i), da);
            lemma_three(y(i), b(k, i), db);
        }
        lemma_sum_agree(x, r, n);
        lemma_prod_square(da);
        lemma_prod_square(db);
    }
    lemma_sum_not_negative(back, m);
}

// ---- eigenvectors and solutions ------------------------------------------------------

/// An eigenvector and a solution stand at right angles unless the eigenvalue is
/// zero.
proof fn lemma_right_angle(
    g: spec_fn(int, int) -> real,
    x: spec_fn(int) -> real,
    value: real,
    h: spec_fn(int) -> real,
    n: nat,
)
    requires
        forall|i: int, j: int| 0 <= i < n && 0 <= j < n ==> #[trigger] g(i, j) == g(j, i),
        forall|i: int| 0 <= i < n ==> #[trigger] applied(g, x, n, i) == prod(value, x(i)),
        vanishes(g, h, n),
    ensures
        prod(value, sum(|j: int| prod(x(j), h(j)), n)) == 0 as real,
{
    let xh = |j: int| prod(x(j), h(j));
    lemma_sum_times(xh, value, n);
    let scaled = |j: int| prod(value, xh(j));
    let f = |j: int, k: int| prod(prod(g(j, k), x(k)), h(j));
    assert forall|j: int| 0 <= j < n implies #[trigger] scaled(j) == inner(f, n)(j) by {
        assert(applied(g, x, n, j) == prod(value, x(j)));
        let e = |k: int| prod(g(j, k), x(k));
        lemma_sum_times(e, h(j), n);
        let (p, r) = (|k: int| prod(h(j), e(k)), |k: int| f(j, k));
        assert forall|k: int| 0 <= k < n implies #[trigger] p(k) == r(k) by {
            lemma_prod(h(j), e(k));
        }
        lemma_sum_agree(p, r, n);
        lemma_prod_regroup(value, x(j), h(j));
        lemma_prod(prod(value, x(j)), h(j));
    }
    lemma_sum_agree(scaled, inner(f, n), n);
    lemma_sum_swap(f, n, n);
    let back = inner(turned(f), n);
    assert forall|k: int| 0 <= k < n implies #[trigger] back(k) == 0 as real by {
        assert(applied(g, h, n, k) == 0 as real);
        let e = |j: int| prod(g(k, j), h(j));
        lemma_sum_times(e, x(k), n);
        let (p, r) = (|j: int| prod(x(k), e(j)), |j: int| turned(f)(k, j));
        assert forall|j: int| 0 <= j < n implies #[trigger] p(j) == r(j) by {
            assert(g(k, j) == g(j, k));
            lemma_prod_regroup(g(j, k), x(k), h(j));
            lemma_prod_regroup(x(k), g(j, k), h(j));
        }
        lemma_sum_agree(p, r, n);
        lemma_prod(x(k), 0 as real);
    }
    lemma_sum_zero(back, n);
}

/// How far a vector reaches along column `i`.
spec fn along(w: spec_fn(int, int) -> real, h: spec_fn(int) -> real, n: nat, i: int) -> real {
    sum(|j: int| prod(w(j, i), h(j)), n)
}

/// A vector at right angles to all of a full set of vectors is zero.
proof fn lemma_no_room(w: spec_fn(int, int) -> real, h: spec_fn(int) -> real, n: nat, k: int)
    requires
        rows_orthonormal(w, n),
        0 <= k < n,
        forall|i: int| 0 <= i < n ==> #[trigger] along(w, h, n, i) == 0 as real,
    ensures
        h(k) == 0 as real,
{
    let f = |j: int, i: int| prod(prod(w(k, i), w(j, i)), h(j));
    let part = |j: int| prod(delta(k, j), h(j));
    assert forall|j: int| 0 <= j < n implies #[trigger] part(j) == inner(f, n)(j) by {
        assert(row_gram(w, n, k, j) == delta(k, j));
        let e = |i: int| prod(w(k, i), w(j, i));
        lemma_sum_times(e, h(j), n);
        let (p, r) = (|i: int| prod(h(j), e(i)), |i: int| f(j, i));
        assert forall|i: int| 0 <= i < n implies #[trigger] p(i) == r(i) by {
            lemma_prod(h(j), e(i));
        }
        lemma_sum_agree(p, r, n);
        lemma_prod(delta(k, j), h(j));
    }
    lemma_sum_agree(part, inner(f, n), n);
    lemma_sum_swap(f, n, n);
    let back = inner(turned(f), n);
    assert forall|i: int| 0 <= i < n implies #[trigger] back(i) == 0 as real by {
        let e = |j: int| prod(w(j, i), h(j));
        assert(along(w, h, n, i) == 0 as real);
        lemma_sum_times(e, w(k, i), n);
        let (p, r) = (|j: int| prod(w(k, i), e(j)), |j: int| turned(f)(i, j));
        assert forall|j: int| 0 <= j < n implies #[trigger] p(j) == r(j) by {
            lemma_prod_regroup(w(k, i), w(j, i), h(j));
        }
        lemma_sum_agree(p, r, n);
        lemma_prod(w(k, i), 0 as real);
    }
    lemma_sum_zero(back, n);
    assert forall|j: int| 0 <= j < n && j != k implies #[trigger] part(j) == 0 as real by {
        lemma_prod(h(j), 0 as real);
        lemma_prod(0 as real, h(j));
    }
    lemma_sum_single(part, k, n);
    lemma_prod(h(k), 1 as real);
    lemma_prod(1 as real, h(k));
}

proof fn lemma_least<T: Scalar>(v: spec_fn(T) -> real, s: Seq<T>, n: nat)
    requires
        faithful(v),
        1 <= n <= s.len(),
    ensures
        0 <= least_index(s, n) < n,
        forall|i: int| 0 <= i < n ==> v(s[least_index(s, n)]) <= v(#[trigger] s[i]),
    decreases n,
{
    if n > 1 {
        lemma_least(v, s, (n - 1) as nat);
    }
}

/// Where the rotations have made the normal equations diagonal, the eigenvector of
/// the smallest eigenvalue solves them, if anything does.
proof fn lemma_smallest<T: Analytic>(
    v: spec_fn(T) -> real,
    full: Seq<T>,
    a: spec_fn(int, int) -> real,
    b: spec_fn(int, int) -> real,
    m: nat,
    n: int,
    h: spec_fn(int) -> real,
    k: int,
)
    requires
        faithful_roots(v),
        full.len() == n * n,
        settled(v, full, n),
        normal(at(v, full, n), a, b, m, n as nat),
        vanishes(at(v, full, n), h, n as nat),
        0 <= k < n,
        h(k) != 0 as real,
    ensures
        ({
            let x = smallest_of(full, n);
            &&& vanishes(at(v, full, n), |i: int| v(x[i]), n as nat)
            &&& exists|i: int| 0 <= i < n && v(#[trigger] x[i]) != 0 as real
        }),
{
    let c = n as nat;
    let g = at(v, full, n);
    law_eigenvectors(v, full, n);
    let (values, vectors) = eigen_of(full, n);
    let w = at(v, vectors, n);
    assert forall|i: int, j: int| 0 <= i < n && 0 <= j < n implies #[trigger] g(i, j) == g(
        j,
        i,
    ) by {
        assert(g(j, i) == sum(both_at(a, b, j, i), m));
        let (p, q) = (both_at(a, b, i, j), both_at(a, b, j, i));
        assert forall|t: int| 0 <= t < m implies #[trigger] p(t) == q(t) by {
            lemma_prod(a(t, i), a(t, j));
            lemma_prod(b(t, i), b(t, j));
        }
        lemma_sum_agree(p, q, m);
    }
    // some eigenvector does not stand at right angles to the solution
    if forall|i: int| 0 <= i < n ==> #[trigger] along(w, h, c, i) == 0 as real {
        lemma_no_room(w, h, c, k);
    }
    let e = choose|i: int| 0 <= i < n && #[trigger] along(w, h, c, i) != 0 as real;
    let xe = |j: int| w(j, e);
    assert forall|i: int| 0 <= i < n implies #[trigger] applied(g, xe, c, i) == prod(
        v(values[e]),
        xe(i),
    ) by {
        law_eigenpairs(v, full, n, e, i);
    }
    lemma_right_angle(g, xe, v(values[e]), h, c);
    let far = along(w, h, c, e);
    assert(far == sum(|j: int| prod(xe(j), h(j)), c)) by {
        lemma_sum_agree(|j: int| prod(w(j, e), h(j)), |j: int| prod(xe(j), h(j)), c);
    }
    lemma_prod(far, 0 as real);
    lemma_prod(far, v(values[e]));
    lemma_prod_cancel(far, v(values[e]), 0 as real);
    // so the smallest eigenvalue is zero
    let s = least_index(values, c);
    lemma_least(v, values, c);
    assert(v(values[s]) <= v(values[e]));
    let xs = |j: int| w(j, s);
    assert forall|i: int| 0 <= i < n implies #[trigger] applied(g, xs, c, i) == prod(
        v(values[s]),
        xs(i),
    ) by {
        law_eigenpairs(v, full, n, s, i);
    }
    lemma_not_negative(g, a, b, xs, m, c);
    let sq = |t: int| prod(w(t, s), w(t, s));
    lemma_sum_times(sq, v(values[s]), c);
    let (p, q) = (|i: int| prod(xs(i), applied(g, xs, c, i)), |t: int| prod(v(values[s]), sq(t)));
    assert forall|t: int| 0 <= t < n implies #[trigger] p(t) == q(t) by {
        assert(applied(g, xs, c, t) == prod(v(values[s]), xs(t)));
        lemma_three(xs(t), v(values[s]), xs(t));
    }
    lemma_sum_agree(p, q, c);
    assert(gram(w, c, s, s) == delta(s, s));
    lemma_prod(v(values[s]), 1 as real);
    assert(v(values[s]) == 0 as real);
    // and its eigenvector is taken to zero
    let x = smallest_of(full, n);
    let found = |i: int| v(x[i]);
    assert forall|i: int| 0 <= i < n implies #[trigger] applied(g, found, c, i) == 0 as real by {
        assert(applied(g, xs, c, i) == prod(v(values[s]), xs(i)));
        lemma_prod(xs(i), 0 as real);
        lemma_prod(0 as real, xs(i));
        let (y, z) = (|j: int| prod(g(i, j), found(j)), |j: int| prod(g(i, j), xs(j)));
        assert forall|j: int| 0 <= j < n implies #[trigger] y(j) == z(j) by {}
        lemma_sum_agree(y, z, c);
    }
    if forall|i: int| 0 <= i < n ==> v(#[trigger] x[i]) == 0 as real {
        assert forall|t: int| 0 <= t < n implies #[trigger] sq(t) == 0 as real by {
            assert(v(x[t]) == 0 as real);
            lemma_prod(0 as real, 0 as real);
        }
        lemma_sum_zero(sq, c);
    }
}

// ---- point pairs ------------------------------------------------------------------------

/// The first equations of the point pairs.
spec fn firsts<T: Analytic>(
    v: spec_fn(T) -> real,
    src: Seq<T>,
    dst: Seq<T>,
    w: Seq<T>,
) -> spec_fn(int, int) -> real {
    |k: int, j: int|
        v(first_row(src[2 * k], src[2 * k + 1], dst[2 * k], root_weight(w[k]))[j])
}

/// The second equations.
spec fn seconds<T: Analytic>(
    v: spec_fn(T) -> real,
    src: Seq<T>,
    dst: Seq<T>,
    w: Seq<T>,
) -> spec_fn(int, int) -> real {
    |k: int, j: int|
        v(second_row(src[2 * k], src[2 * k + 1], dst[2 * k + 1], root_weight(w[k]))[j])
}

proof fn lemma_normal<T: Analytic>(
    v: spec_fn(T) -> real,
    src: Seq<T>,
    dst: Seq<T>,
    w: Seq<T>,
    m: nat,
)
    requires
        faithful(v),
    ensures
        normal(
            at(v, normal_of(src, dst, w, m), 9),
            firsts(v, src, dst, w),
            seconds(v, src, dst, w),
            m,
            9,
        ),
{
    let g = at(v, normal_of(src, dst, w, m), 9);
    let (a, b) = (firsts(v, src, dst, w), seconds(v, src, dst, w));
    lemma_whole::<T>(v, 0);
    assert forall|i: int, j: int| 0 <= i < 9 && 0 <= j < 9 implies #[trigger] g(i, j) == sum(
        both_at(a, b, i, j),
        m,
    ) by {
        let p = i * 9 + j;
        lemma_split(i, 9, j);
        lemma_within(i, 9, j, 9);
        let t = normal_term(src, dst, w, p);
        lemma_accumulate(v, zero(), t, m);
        let x = |k: int| v(t(k));
        let y = both_at(a, b, i, j);
        assert forall|k: int| 0 <= k < m implies #[trigger] x(k) == y(k) by {}
        lemma_sum_agree(x, y, m);
        assert(normal_of(src, dst, w, m)[p] == accumulate(zero(), t, m));
    }
}

proof fn lemma_sum_nine(f: spec_fn(int) -> real)
    ensures
        sum(f, 9) == f(0) + f(1) + f(2) + f(3) + f(4) + f(5) + f(6) + f(7) + f(8),
{
    reveal_with_fuel(sum, 10);
}

/// An equation that a homography `a b c / p q r` meets.
proof fn lemma_equation(
    s: real,
    x: real,
    y: real,
    u: real,
    a: real,
    b: real,
    c: real,
    p: real,
    q: real,
    r: real,
)
    requires
        prod(u, prod(p, x) + prod(q, y) + r) == prod(a, x) + prod(b, y) + c,
    ensures
        prod(prod(-x, s), a) + prod(prod(-y, s), b) + prod(-s, c) + prod(prod(prod(x, u), s), p)
            + prod(prod(prod(y, u), s), q) + prod(prod(u, s), r) == 0 as real,
{
    // every term as `s` times something
    lemma_prod(x, s);
    lemma_prod(y, s);
    lemma_prod(prod(x, s), a);
    lemma_prod(prod(y, s), b);
    lemma_prod(s, c);
    lemma_prod_regroup(x, s, a);
    lemma_three(x, s, a);
    lemma_prod_regroup(y, s, b);
    lemma_three(y, s, b);
    assert(prod(prod(-x, s), a) == -prod(s, prod(a, x)));
    assert(prod(prod(-y, s), b) == -prod(s, prod(b, y)));
    lemma_prod_regroup(prod(x, u), s, p);
    lemma_prod_regroup(x, u, p);
    lemma_three(x, u, p);
    assert(prod(prod(prod(x, u), s), p) == prod(s, prod(u, prod(p, x))));
    lemma_prod_regroup(prod(y, u), s, q);
    lemma_prod_regroup(y, u, q);
    lemma_three(y, u, q);
    assert(prod(prod(prod(y, u), s), q) == prod(s, prod(u, prod(q, y))));
    lemma_prod_regroup(u, s, r);
    lemma_three(u, s, r);
    assert(prod(prod(u, s), r) == prod(s, prod(u, r)));
    // which add up to zero
    lemma_prod_plus(u, prod(p, x) + prod(q, y), r);
    lemma_prod_plus(u, prod(p, x), prod(q, y));
    let (left, right) = (prod(a, x) + prod(b, y), prod(u, prod(p, x)) + prod(u, prod(q, y)));
    lemma_prod_plus(s, left, c);
    lemma_prod_plus(s, prod(a, x), prod(b, y));
    lemma_prod_plus(s, right, prod(u, r));
    lemma_prod_plus(s, prod(u, prod(p, x)), prod(u, prod(q, y)));
}

/// A homography that takes every point to its destination meets all equations.
proof fn lemma_meets<T: Analytic>(
    v: spec_fn(T) -> real,
    h: spec_fn(int) -> real,
    src: Seq<T>,
    dst: Seq<T>,
    w: Seq<T>,
    m: int,
    k: int,
)
    requires
        faithful(v),
        takes_points(v, h, src, dst, m),
        0 <= k < m,
    ensures
        dot(firsts(v, src, dst, w), h, 9, k) == 0 as real,
        dot(seconds(v, src, dst, w), h, 9, k) == 0 as real,
{
    lemma_whole::<T>(v, 0);
    let (a, b) = (firsts(v, src, dst, w), seconds(v, src, dst, w));
    let s = v(root_weight(w[k]));
    let (x, y) = (v(src[2 * k]), v(src[2 * k + 1]));
    let (u, t) = (v(dst[2 * k]), v(dst[2 * k + 1]));
    lemma_sum_nine(|j: int| prod(a(k, j), h(j)));
    lemma_sum_nine(|j: int| prod(b(k, j), h(j)));
    lemma_equation(s, x, y, u, h(0), h(1), h(2), h(6), h(7), h(8));
    lemma_equation(s, x, y, t, h(3), h(4), h(5), h(6), h(7), h(8));
    let r1 = first_row(src[2 * k], src[2 * k + 1], dst[2 * k], root_weight(w[k]));
    let r2 = second_row(src[2 * k], src[2 * k + 1], dst[2 * k + 1], root_weight(w[k]));
    lemma_prod(h(0), 0 as real);
    lemma_prod(0 as real, h(0));
    lemma_prod(h(1), 0 as real);
    lemma_prod(0 as real, h(1));
    lemma_prod(h(2), 0 as real);
    lemma_prod(0 as real, h(2));
    lemma_prod(h(3), 0 as real);
    lemma_prod(0 as real, h(3));
    lemma_prod(h(4), 0 as real);
    lemma_prod(0 as real, h(4));
    lemma_prod(h(5), 0 as real);
    lemma_prod(0 as real, h(5));
    assert(v(r1[3]) == 0 as real && v(r1[4]) == 0 as real && v(r1[5]) == 0 as real);
    assert(v(r2[0]) == 0 as real && v(r2[1]) == 0 as real && v(r2[2]) == 0 as real);
    assert(v(r1[0]) == prod(-x, s) && v(r1[1]) == prod(-y, s) && v(r1[2]) == -s);
    assert(v(r1[6]) == prod(prod(x, u), s) && v(r1[7]) == prod(prod(y, u), s));
    assert(v(r1[8]) == prod(u, s));
    assert(v(r2[3]) == prod(-x, s) && v(r2[4]) == prod(-y, s) && v(r2[5]) == -s);
    assert(v(r2[6]) == prod(prod(x, t), s) && v(r2[7]) == prod(prod(y, t), s));
    assert(v(r2[8]) == prod(t, s));
}

/// Where arithmetic is exact, a homography whose last element is not zero and that
/// takes every point to its destination is found from the point pairs, its last
/// element made one: provided that they settle it and that the rotations make the
/// normal equations diagonal.
pub proof fn law_homography<T: Analytic>(
    v: spec_fn(T) -> real,
    h: spec_fn(int) -> real,
    src: Seq<T>,
    dst: Seq<T>,
    w: Seq<T>,
    m: nat,
    i: int,
)
    requires
        faithful_roots(v),
        takes_points(v, h, src, dst, m as int),
        h(8) != 0 as real,
        settles_on(at(v, normal_of(src, dst, w, m), 9), h, 9),
        settled(v, normal_of(src, dst, w, m), 9),
        0 <= i < 9,
    ensures
        ({
            let x = smallest_of(normal_of(src, dst, w, m), 9);
            let found = x[i].times_spec(one::<T>().over_spec(x[8]));
            &&& v(x[8]) != 0 as real
            &&& prod(v(found), h(8)) == h(i)
        }),
{
    let full = normal_of(src, dst, w, m);
    let g = at(v, full, 9);
    let (a, b) = (firsts(v, src, dst, w), seconds(v, src, dst, w));
    lemma_normal(v, src, dst, w, m);
    assert forall|k: int| 0 <= k < m implies #[trigger] dot(a, h, 9, k) == 0 as real by {
        lemma_meets(v, h, src, dst, w, m as int, k);
    }
    assert forall|k: int| 0 <= k < m implies #[trigger] dot(b, h, 9, k) == 0 as real by {
        lemma_meets(v, h, src, dst, w, m as int, k);
    }
    lemma_solves(g, a, b, h, m, 9);
    lemma_smallest(v, full, a, b, m, 9, h, 8);
    let x = smallest_of(full, 9);
    let y = |t: int| v(x[t]);
    assert(vanishes(g, y, 9));
    assert(multiple_of(y, h, 9));
    let c = choose|c: real| #[trigger] is_times(y, c, h, 9);
    let t = choose|t: int| 0 <= t < 9 && v(#[trigger] x[t]) != 0 as real;
    assert(y(t) == prod(c, h(t)));
    lemma_prod(h(t), 0 as real);
    lemma_prod(0 as real, h(t));
    assert(c != 0 as real);
    assert(y(8) == prod(c, h(8)) && y(i) == prod(c, h(i)));
    if v(x[8]) == 0 as real {
        lemma_prod(c, 0 as real);
        lemma_prod_cancel(c, h(8), 0 as real);
    }
    lemma_whole::<T>(v, 1);
    let inv = v(one::<T>().over_spec(x[8]));
    assert(prod(inv, v(x[8])) == 1 as real);
    // c * (x inv h8) == x inv x8 == x == c h
    let found = prod(v(x[i]), inv);
    lemma_prod_regroup(c, found, h(8));
    lemma_prod_regroup(found, c, h(8));
    lemma_prod_regroup(v(x[i]), inv, v(x[8]));
    lemma_prod(v(x[i]), 1 as real);
    lemma_prod_cancel(c, prod(found, h(8)), h(i));
}

} // verus!
