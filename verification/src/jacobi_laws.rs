//! What Jacobi rotations keep where arithmetic is exact.

use crate::index::{lemma_split, lemma_within};
use crate::linalg::{
    columns_rotated, eigen_of, identity, jacobi_tangent, rotated, rows_rotated, sweeps, swept,
    tiny, EigenState,
};
use crate::linalg_laws::{at, delta, gram, lemma_four_factors, orthonormal};
use crate::reals::{
    faithful, faithful_roots, inner, lemma_prod, lemma_prod_plus, lemma_prod_regroup,
    lemma_prod_square, lemma_sum_agree, lemma_sum_both, lemma_sum_single, lemma_sum_swap,
    lemma_sum_times, lemma_whole, prod, sum, turned,
};
use crate::scalar::{one, Analytic, Scalar};
use vstd::prelude::*;

verus! {

/// Numbers with those at `p` and `q` turned by an angle of cosine `c` and sine `s`.
spec fn swung(f: spec_fn(int) -> real, p: int, q: int, c: real, s: real) -> spec_fn(int) -> real {
    |t: int|
        if t == p {
            prod(c, f(p)) - prod(s, f(q))
        } else if t == q {
            prod(s, f(p)) + prod(c, f(q))
        } else {
            f(t)
        }
}

/// Row `i` of a matrix.
spec fn row(m: spec_fn(int, int) -> real, i: int) -> spec_fn(int) -> real {
    |u: int| m(i, u)
}

/// Column `j` of a matrix.
spec fn column(m: spec_fn(int, int) -> real, j: int) -> spec_fn(int) -> real {
    |t: int| m(t, j)
}

/// The products of numbers, one by one.
spec fn pairs(f: spec_fn(int) -> real, g: spec_fn(int) -> real) -> spec_fn(int) -> real {
    |t: int| prod(f(t), g(t))
}

/// The product of each row with a vector.
spec fn rows_times(m: spec_fn(int, int) -> real, h: spec_fn(int) -> real, n: nat) -> spec_fn(
    int,
) -> real {
    |k: int| sum(pairs(row(m, k), h), n)
}

/// Element `(i, j)` of `w * a` times `w` transposed.
pub open spec fn sandwiched(
    w: spec_fn(int, int) -> real,
    a: spec_fn(int, int) -> real,
    n: nat,
    i: int,
    j: int,
) -> real {
    sum(|t: int| prod(w(i, t), sum(|u: int| prod(a(t, u), w(j, u)), n)), n)
}

/// The product of rows `i` and `j`.
pub open spec fn row_gram(w: spec_fn(int, int) -> real, n: nat, i: int, j: int) -> real {
    sum(|t: int| prod(w(i, t), w(j, t)), n)
}

/// The rows of `w` have length one and stand at right angles.
pub open spec fn rows_orthonormal(w: spec_fn(int, int) -> real, n: nat) -> bool {
    forall|i: int, j: int|
        0 <= i < n && 0 <= j < n ==> #[trigger] row_gram(w, n, i, j) == delta(i, j)
}

/// Two turned pairs have the product that they had.
proof fn lemma_pair_kept(a: real, b: real, x: real, y: real, c: real, s: real)
    requires
        prod(c, c) + prod(s, s) == 1 as real,
    ensures
        prod(prod(c, a) - prod(s, b), prod(c, x) - prod(s, y)) + prod(
            prod(s, a) + prod(c, b),
            prod(s, x) + prod(c, y),
        ) == prod(a, x) + prod(b, y),
{
    let (ca, sb, cx, sy) = (prod(c, a), prod(s, b), prod(c, x), prod(s, y));
    let (sa, cb, sx, cy) = (prod(s, a), prod(c, b), prod(s, x), prod(c, y));
    lemma_prod_plus(ca - sb, cx, sy);
    lemma_prod_plus(cx, ca, sb);
    lemma_prod_plus(sy, ca, sb);
    lemma_prod_plus(sa + cb, sx, cy);
    lemma_prod_plus(sx, sa, cb);
    lemma_prod_plus(cy, sa, cb);
    lemma_four_factors(c, a, c, x);
    lemma_four_factors(c, a, s, y);
    lemma_four_factors(s, b, c, x);
    lemma_four_factors(s, b, s, y);
    lemma_four_factors(s, a, s, x);
    lemma_four_factors(s, a, c, y);
    lemma_four_factors(c, b, s, x);
    lemma_four_factors(c, b, c, y);
    lemma_prod(c, s);
    lemma_prod_plus(prod(a, x), prod(c, c), prod(s, s));
    lemma_prod_plus(prod(b, y), prod(c, c), prod(s, s));
    lemma_prod(prod(a, x), 1 as real);
    lemma_prod(prod(b, y), 1 as real);
}

/// Sums whose terms differ in two places.
proof fn lemma_sum_two_differ(
    f: spec_fn(int) -> real,
    g: spec_fn(int) -> real,
    p: int,
    q: int,
    n: nat,
)
    requires
        0 <= p < q,
        forall|t: int| 0 <= t < n && t != p && t != q ==> #[trigger] f(t) == g(t),
    ensures
        sum(f, n) - sum(g, n) == (if p < n {
            f(p) - g(p)
        } else {
            0 as real
        }) + (if q < n {
            f(q) - g(q)
        } else {
            0 as real
        }),
    decreases n,
{
    if n > 0 {
        lemma_sum_two_differ(f, g, p, q, (n - 1) as nat);
        if n - 1 != p && n - 1 != q {
            assert(f(n - 1) == g(n - 1));
        }
    }
}

/// Turning two vectors alike keeps their product.
proof fn lemma_product_kept(
    f: spec_fn(int) -> real,
    g: spec_fn(int) -> real,
    p: int,
    q: int,
    c: real,
    s: real,
    n: nat,
)
    requires
        0 <= p < q < n,
        prod(c, c) + prod(s, s) == 1 as real,
    ensures
        sum(pairs(swung(f, p, q, c, s), swung(g, p, q, c, s)), n) == sum(pairs(f, g), n),
{
    let x = pairs(swung(f, p, q, c, s), swung(g, p, q, c, s));
    let y = pairs(f, g);
    lemma_pair_kept(f(p), f(q), g(p), g(q), c, s);
    assert(x(p) + x(q) == y(p) + y(q));
    assert forall|t: int| 0 <= t < n && t != p && t != q implies #[trigger] x(t) == y(t) by {}
    lemma_sum_two_differ(x, y, p, q, n);
}

/// The product of a sum of two multiples with a vector.
proof fn lemma_sum_combined(
    f: spec_fn(int) -> real,
    g: spec_fn(int) -> real,
    h: spec_fn(int) -> real,
    x: spec_fn(int) -> real,
    a: real,
    b: real,
    n: nat,
)
    requires
        forall|u: int| 0 <= u < n ==> #[trigger] x(u) == prod(a, f(u)) + prod(b, g(u)),
    ensures
        sum(pairs(x, h), n) == prod(a, sum(pairs(f, h), n)) + prod(b, sum(pairs(g, h), n)),
{
    let (fh, gh) = (pairs(f, h), pairs(g, h));
    let fa = |u: int| prod(a, fh(u));
    let gb = |u: int| prod(b, gh(u));
    lemma_sum_times(fh, a, n);
    lemma_sum_times(gh, b, n);
    lemma_sum_both(fa, gb, n);
    let both = |u: int| fa(u) + gb(u);
    let xh = pairs(x, h);
    assert forall|u: int| 0 <= u < n implies #[trigger] xh(u) == both(u) by {
        assert(x(u) == prod(a, f(u)) + prod(b, g(u)));
        lemma_prod_plus(h(u), prod(a, f(u)), prod(b, g(u)));
        lemma_prod_regroup(a, f(u), h(u));
        lemma_prod_regroup(b, g(u), h(u));
    }
    lemma_sum_agree(xh, both, n);
}

/// Rows turned by an angle have turned products with a vector.
proof fn lemma_rows_swung(
    m: spec_fn(int, int) -> real,
    w: spec_fn(int, int) -> real,
    h: spec_fn(int) -> real,
    p: int,
    q: int,
    c: real,
    s: real,
    n: nat,
    i: int,
)
    requires
        0 <= p < q < n,
        0 <= i < n,
        forall|k: int, u: int|
            0 <= k < n && 0 <= u < n ==> #[trigger] w(k, u) == swung(column(m, u), p, q, c, s)(k),
    ensures
        rows_times(w, h, n)(i) == swung(rows_times(m, h, n), p, q, c, s)(i),
{
    let x = row(w, i);
    let (f, g) = (row(m, p), row(m, q));
    if i == p {
        assert forall|u: int| 0 <= u < n implies #[trigger] x(u) == prod(c, f(u)) + prod(
            -s,
            g(u),
        ) by {
            assert(w(i, u) == swung(column(m, u), p, q, c, s)(i));
            lemma_prod(s, g(u));
        }
        lemma_sum_combined(f, g, h, x, c, -s, n);
        lemma_prod(s, sum(pairs(g, h), n));
    } else if i == q {
        assert forall|u: int| 0 <= u < n implies #[trigger] x(u) == prod(s, f(u)) + prod(
            c,
            g(u),
        ) by {
            assert(w(i, u) == swung(column(m, u), p, q, c, s)(i));
        }
        lemma_sum_combined(f, g, h, x, s, c, n);
    } else {
        let (a, b) = (pairs(x, h), pairs(row(m, i), h));
        assert forall|u: int| 0 <= u < n implies #[trigger] a(u) == b(u) by {
            assert(w(i, u) == swung(column(m, u), p, q, c, s)(i));
        }
        lemma_sum_agree(a, b, n);
    }
}

/// The matrix with its columns turned.
spec fn across(m: spec_fn(int, int) -> real, p: int, q: int, c: real, s: real) -> spec_fn(
    int,
    int,
) -> real {
    |i: int, j: int| swung(row(m, i), p, q, c, s)(j)
}

/// The matrix with its rows turned.
spec fn down(m: spec_fn(int, int) -> real, p: int, q: int, c: real, s: real) -> spec_fn(
    int,
    int,
) -> real {
    |i: int, j: int| swung(column(m, j), p, q, c, s)(i)
}

/// The matrices agree from `0` to `n`.
spec fn alike(a: spec_fn(int, int) -> real, b: spec_fn(int, int) -> real, n: nat) -> bool {
    forall|i: int, j: int| 0 <= i < n && 0 <= j < n ==> #[trigger] a(i, j) == b(i, j)
}

proof fn lemma_sandwiched(
    w: spec_fn(int, int) -> real,
    a: spec_fn(int, int) -> real,
    n: nat,
    i: int,
    j: int,
)
    ensures
        sandwiched(w, a, n, i, j) == sum(pairs(row(w, i), rows_times(a, row(w, j), n)), n),
{
    let f = |t: int| prod(w(i, t), sum(|u: int| prod(a(t, u), w(j, u)), n));
    let g = pairs(row(w, i), rows_times(a, row(w, j), n));
    assert forall|t: int| 0 <= t < n implies #[trigger] f(t) == g(t) by {
        let x = |u: int| prod(a(t, u), w(j, u));
        let y = pairs(row(a, t), row(w, j));
        assert forall|u: int| 0 <= u < n implies #[trigger] x(u) == y(u) by {}
        lemma_sum_agree(x, y, n);
    }
    lemma_sum_agree(f, g, n);
}

/// A rotation of both does not change what the matrices make up.
proof fn lemma_sandwich_kept(
    w: spec_fn(int, int) -> real,
    a: spec_fn(int, int) -> real,
    w2: spec_fn(int, int) -> real,
    a2: spec_fn(int, int) -> real,
    p: int,
    q: int,
    c: real,
    s: real,
    n: nat,
    i: int,
    j: int,
)
    requires
        0 <= p < q < n,
        0 <= i < n,
        0 <= j < n,
        prod(c, c) + prod(s, s) == 1 as real,
        alike(w2, across(w, p, q, c, s), n),
        alike(a2, down(across(a, p, q, c, s), p, q, c, s), n),
    ensures
        sandwiched(w2, a2, n, i, j) == sandwiched(w, a, n, i, j),
{
    lemma_sandwiched(w, a, n, i, j);
    lemma_sandwiched(w2, a2, n, i, j);
    let b = across(a, p, q, c, s);
    let z = rows_times(a, row(w, j), n);
    let side = swung(row(w, j), p, q, c, s);
    // columns side along with the vector
    let zb = rows_times(b, side, n);
    assert forall|t: int| 0 <= t < n implies #[trigger] zb(t) == z(t) by {
        lemma_product_kept(row(a, t), row(w, j), p, q, c, s, n);
        let (x, y) = (pairs(row(b, t), side), pairs(swung(row(a, t), p, q, c, s), side));
        assert forall|u: int| 0 <= u < n implies #[trigger] x(u) == y(u) by {}
        lemma_sum_agree(x, y, n);
    }
    // then the rows
    let z2 = rows_times(a2, row(w2, j), n);
    let zt = swung(z, p, q, c, s);
    assert forall|t: int| 0 <= t < n implies #[trigger] z2(t) == zt(t) by {
        assert forall|k: int, u: int| 0 <= k < n && 0 <= u < n implies #[trigger] a2(k, u)
            == swung(column(b, u), p, q, c, s)(k) by {
            assert(a2(k, u) == down(b, p, q, c, s)(k, u));
        }
        lemma_rows_swung(b, a2, side, p, q, c, s, n, t);
        assert(zb(p) == z(p) && zb(q) == z(q) && zb(t) == z(t));
        let (x, y) = (pairs(row(a2, t), row(w2, j)), pairs(row(a2, t), side));
        assert forall|u: int| 0 <= u < n implies #[trigger] x(u) == y(u) by {
            assert(w2(j, u) == across(w, p, q, c, s)(j, u));
        }
        lemma_sum_agree(x, y, n);
    }
    lemma_product_kept(row(w, i), z, p, q, c, s, n);
    let (x, y) = (pairs(row(w2, i), z2), pairs(swung(row(w, i), p, q, c, s), zt));
    assert forall|t: int| 0 <= t < n implies #[trigger] x(t) == y(t) by {
        assert(w2(i, t) == across(w, p, q, c, s)(i, t));
        assert(z2(t) == zt(t));
    }
    lemma_sum_agree(x, y, n);
}

/// The matrix with rows and columns exchanged.
spec fn flipped(m: spec_fn(int, int) -> real) -> spec_fn(int, int) -> real {
    |i: int, j: int| m(j, i)
}

/// Turned columns that stood at right angles still do.
proof fn lemma_orthonormal_kept(
    w: spec_fn(int, int) -> real,
    w2: spec_fn(int, int) -> real,
    p: int,
    q: int,
    c: real,
    s: real,
    n: nat,
)
    requires
        0 <= p < q < n,
        prod(c, c) + prod(s, s) == 1 as real,
        alike(w2, across(w, p, q, c, s), n),
        orthonormal(w, n),
    ensures
        orthonormal(w2, n),
{
    let (f, f2) = (flipped(w), flipped(w2));
    assert forall|k: int, u: int| 0 <= k < n && 0 <= u < n implies #[trigger] f2(k, u) == swung(
        column(f, u),
        p,
        q,
        c,
        s,
    )(k) by {
        assert(w2(u, k) == across(w, p, q, c, s)(u, k));
    }
    assert forall|i: int, j: int| 0 <= i < n && 0 <= j < n implies #[trigger] gram(w2, n, i, j)
        == delta(i, j) by {
        let h = column(w2, j);
        // columns of `w` with a column of `w2`
        let mixed = rows_times(f, h, n);
        lemma_rows_swung(f, f2, h, p, q, c, s, n, i);
        let own = |k: int| swung(|l: int| delta(l, k), p, q, c, s)(j);
        assert forall|k: int| 0 <= k < n implies #[trigger] mixed(k) == own(k) by {
            let g = column(w, k);
            lemma_rows_swung(f, f2, g, p, q, c, s, n, j);
            let inside = rows_times(f, g, n);
            assert forall|l: int| 0 <= l < n implies #[trigger] inside(l) == delta(l, k) by {
                let (x, y) = (pairs(row(f, l), g), |t: int| prod(w(t, l), w(t, k)));
                assert forall|t: int| 0 <= t < n implies #[trigger] x(t) == y(t) by {}
                lemma_sum_agree(x, y, n);
                assert(gram(w, n, l, k) == delta(l, k));
            }
            assert(inside(p) == delta(p, k) && inside(q) == delta(q, k) && inside(j) == delta(
                j,
                k,
            ));
            let (x, y) = (pairs(row(f, k), h), pairs(row(f2, j), g));
            assert forall|t: int| 0 <= t < n implies #[trigger] x(t) == y(t) by {
                lemma_prod(w(t, k), w2(t, j));
            }
            lemma_sum_agree(x, y, n);
        }
        let (x, y) = (pairs(row(f2, i), h), |t: int| prod(w2(t, i), w2(t, j)));
        assert forall|t: int| 0 <= t < n implies #[trigger] x(t) == y(t) by {}
        lemma_sum_agree(x, y, n);
        assert(mixed(p) == own(p) && mixed(q) == own(q) && mixed(i) == own(i));
        lemma_prod(c, 1 as real);
        lemma_prod(s, 1 as real);
        lemma_prod(c, 0 as real);
        lemma_prod(s, 0 as real);
        lemma_prod(c, s);
        lemma_prod(s, s);
        lemma_prod(s, c);
    }
}

/// Turned rows that stood at right angles still do.
proof fn lemma_rows_orthonormal_kept(
    w: spec_fn(int, int) -> real,
    w2: spec_fn(int, int) -> real,
    p: int,
    q: int,
    c: real,
    s: real,
    n: nat,
)
    requires
        0 <= p < q < n,
        prod(c, c) + prod(s, s) == 1 as real,
        alike(w2, across(w, p, q, c, s), n),
        rows_orthonormal(w, n),
    ensures
        rows_orthonormal(w2, n),
{
    assert forall|i: int, j: int| 0 <= i < n && 0 <= j < n implies #[trigger] row_gram(
        w2,
        n,
        i,
        j,
    ) == delta(i, j) by {
        lemma_product_kept(row(w, i), row(w, j), p, q, c, s, n);
        let x = |t: int| prod(w2(i, t), w2(j, t));
        let y = pairs(swung(row(w, i), p, q, c, s), swung(row(w, j), p, q, c, s));
        assert forall|t: int| 0 <= t < n implies #[trigger] x(t) == y(t) by {
            assert(w2(i, t) == across(w, p, q, c, s)(i, t));
            assert(w2(j, t) == across(w, p, q, c, s)(j, t));
        }
        lemma_sum_agree(x, y, n);
        let (a, b) = (pairs(row(w, i), row(w, j)), |t: int| prod(w(i, t), w(j, t)));
        assert forall|t: int| 0 <= t < n implies #[trigger] a(t) == b(t) by {}
        lemma_sum_agree(a, b, n);
        assert(row_gram(w, n, i, j) == delta(i, j));
    }
}

/// A tangent's cosine and sine lie on the unit circle.
proof fn lemma_angle<T: Analytic>(v: spec_fn(T) -> real, t: T)
    requires
        faithful_roots(v),
    ensures
        ({
            let c = one::<T>().over_spec(t.times_spec(t).plus_spec(one()).root_spec());
            let s = t.times_spec(c);
            prod(v(c), v(c)) + prod(v(s), v(s)) == 1 as real
        }),
{
    lemma_whole::<T>(v, 1);
    let sq = t.times_spec(t).plus_spec(one());
    let r = sq.root_spec();
    let c = one::<T>().over_spec(r);
    let s = t.times_spec(c);
    lemma_prod_square(v(t));
    assert(v(sq) > 0 as real);
    assert(prod(v(r), v(r)) == v(sq));
    lemma_prod(v(r), 0 as real);
    assert(v(r) != 0 as real);
    assert(prod(v(c), v(r)) == 1 as real);
    // s^2 = t^2 c^2, and c^2 (t^2 + 1) = (c r)^2
    lemma_four_factors(v(t), v(c), v(t), v(c));
    let cc = prod(v(c), v(c));
    lemma_four_factors(v(c), v(r), v(c), v(r));
    lemma_prod_plus(cc, prod(v(t), v(t)), 1 as real);
    lemma_prod(cc, prod(v(t), v(t)));
    lemma_prod(cc, 1 as real);
    lemma_prod(1 as real, 1 as real);
}

/// What every rotation keeps: the vectors stand at right angles, and with the
/// matrix so far they make up the matrix at first.
pub open spec fn decomposed<T>(v: spec_fn(T) -> real, st: EigenState<T>, m: Seq<T>, n: int) -> bool {
    &&& st.a.len() == n * n
    &&& st.v.len() == n * n
    &&& orthonormal(at(v, st.v, n), n as nat)
    &&& rows_orthonormal(at(v, st.v, n), n as nat)
    &&& forall|i: int, j: int|
        0 <= i < n && 0 <= j < n ==> #[trigger] sandwiched(
            at(v, st.v, n),
            at(v, st.a, n),
            n as nat,
            i,
            j,
        ) == at(v, m, n)(i, j)
}

proof fn lemma_across<T: Scalar>(
    v: spec_fn(T) -> real,
    a: Seq<T>,
    n: int,
    p: int,
    q: int,
    c: T,
    s: T,
)
    requires
        faithful(v),
        0 <= p < q < n,
        a.len() == n * n,
    ensures
        alike(
            at(v, columns_rotated(a, n, p, q, c, s), n),
            across(at(v, a, n), p, q, v(c), v(s)),
            n as nat,
        ),
{
    let b = columns_rotated(a, n, p, q, c, s);
    assert forall|i: int, j: int| 0 <= i < n && 0 <= j < n implies #[trigger] at(v, b, n)(i, j)
        == across(at(v, a, n), p, q, v(c), v(s))(i, j) by {
        lemma_within(i, n, j, n);
        lemma_split(i, n, j);
        lemma_within(i, n, p, n);
        lemma_within(i, n, q, n);
    }
}

proof fn lemma_down<T: Scalar>(
    v: spec_fn(T) -> real,
    a: Seq<T>,
    n: int,
    p: int,
    q: int,
    c: T,
    s: T,
)
    requires
        faithful(v),
        0 <= p < q < n,
        a.len() == n * n,
    ensures
        alike(
            at(v, rows_rotated(a, n, p, q, c, s), n),
            down(at(v, a, n), p, q, v(c), v(s)),
            n as nat,
        ),
{
    let b = rows_rotated(a, n, p, q, c, s);
    assert forall|i: int, j: int| 0 <= i < n && 0 <= j < n implies #[trigger] at(v, b, n)(i, j)
        == down(at(v, a, n), p, q, v(c), v(s))(i, j) by {
        lemma_within(i, n, j, n);
        lemma_split(i, n, j);
        lemma_within(p, n, j, n);
        lemma_within(q, n, j, n);
    }
}

proof fn lemma_rotated<T: Analytic>(
    v: spec_fn(T) -> real,
    st: EigenState<T>,
    m: Seq<T>,
    n: int,
    p: int,
    q: int,
)
    requires
        faithful_roots(v),
        0 <= p < q < n,
        decomposed(v, st, m, n),
    ensures
        decomposed(v, rotated(st, n, p, q), m, n),
{
    if !st.a[p * n + q].magnitude_spec().less_spec(tiny()) {
        let t = jacobi_tangent(st.a, n, p, q);
        let c = one::<T>().over_spec(t.times_spec(t).plus_spec(one()).root_spec());
        let s = t.times_spec(c);
        lemma_angle(v, t);
        let side = columns_rotated(st.a, n, p, q, c, s);
        let next = rotated(st, n, p, q);
        let (w, a) = (at(v, st.v, n), at(v, st.a, n));
        let (w2, a2) = (at(v, next.v, n), at(v, next.a, n));
        let (x, y) = (v(c), v(s));
        assert(0 <= n * n) by (nonlinear_arith);
        lemma_across(v, st.v, n, p, q, c, s);
        lemma_across(v, st.a, n, p, q, c, s);
        lemma_down(v, side, n, p, q, c, s);
        assert(alike(a2, down(across(a, p, q, x, y), p, q, x, y), n as nat)) by {
            let b = at(v, side, n);
            assert forall|i: int, j: int| 0 <= i < n && 0 <= j < n implies #[trigger] a2(i, j)
                == down(across(a, p, q, x, y), p, q, x, y)(i, j) by {
                assert(a2(i, j) == down(b, p, q, x, y)(i, j));
                assert(b(i, j) == across(a, p, q, x, y)(i, j));
                assert(b(p, j) == across(a, p, q, x, y)(p, j));
                assert(b(q, j) == across(a, p, q, x, y)(q, j));
            }
        }
        lemma_orthonormal_kept(w, w2, p, q, x, y, n as nat);
        lemma_rows_orthonormal_kept(w, w2, p, q, x, y, n as nat);
        assert forall|i: int, j: int| 0 <= i < n && 0 <= j < n implies #[trigger] sandwiched(
            w2,
            a2,
            n as nat,
            i,
            j,
        ) == at(v, m, n)(i, j) by {
            assert(sandwiched(w, a, n as nat, i, j) == at(v, m, n)(i, j));
            lemma_sandwich_kept(w, a, w2, a2, p, q, x, y, n as nat, i, j);
        }
    }
}

proof fn lemma_swept<T: Analytic>(
    v: spec_fn(T) -> real,
    st: EigenState<T>,
    m: Seq<T>,
    n: int,
    p: int,
    q: int,
)
    requires
        faithful_roots(v),
        0 <= p < q,
        decomposed(v, st, m, n),
    ensures
        decomposed(v, swept(st, n, p, q), m, n),
    decreases n - p, n - q,
{
    if p >= n {
    } else if q >= n {
        lemma_swept(v, st, m, n, p + 1, p + 2);
    } else {
        lemma_rotated(v, st, m, n, p, q);
        lemma_swept(v, rotated(st, n, p, q), m, n, p, q + 1);
    }
}

proof fn lemma_sweeps<T: Analytic>(
    v: spec_fn(T) -> real,
    st: EigenState<T>,
    m: Seq<T>,
    n: int,
    left: nat,
)
    requires
        faithful_roots(v),
        decomposed(v, st, m, n),
    ensures
        decomposed(v, sweeps(st, n, left), m, n),
    decreases left,
{
    if left > 0 {
        lemma_swept(v, st, m, n, 0, 1);
        lemma_sweeps(v, swept(st, n, 0, 1), m, n, (left - 1) as nat);
    }
}

proof fn lemma_start<T: Analytic>(v: spec_fn(T) -> real, m: Seq<T>, n: int)
    requires
        faithful(v),
        0 <= n,
        m.len() == n * n,
    ensures
        decomposed(v, EigenState { a: m, v: identity(n) }, m, n),
{
    lemma_whole::<T>(v, 0);
    lemma_whole::<T>(v, 1);
    let w = at(v, identity::<T>(n), n);
    let a = at(v, m, n);
    let c = n as nat;
    assert forall|i: int, j: int| 0 <= i < n && 0 <= j < n implies #[trigger] w(i, j) == delta(
        i,
        j,
    ) by {
        lemma_within(i, n, j, n);
        lemma_split(i, n, j);
    }
    assert forall|i: int, j: int| 0 <= i < n && 0 <= j < n implies #[trigger] gram(w, c, i, j)
        == delta(i, j) by {
        let f = |t: int| prod(w(t, i), w(t, j));
        assert forall|t: int| 0 <= t < n && t != i implies #[trigger] f(t) == 0 as real by {
            assert(w(t, i) == 0 as real);
            lemma_prod(w(t, j), 0 as real);
            lemma_prod(0 as real, w(t, j));
        }
        lemma_sum_single(f, i, c);
        assert(w(i, i) == 1 as real && w(i, j) == delta(i, j));
        lemma_prod(w(i, j), 1 as real);
        lemma_prod(1 as real, w(i, j));
    }
    assert forall|i: int, j: int| 0 <= i < n && 0 <= j < n implies #[trigger] row_gram(w, c, i, j)
        == delta(i, j) by {
        let f = |t: int| prod(w(i, t), w(j, t));
        assert forall|t: int| 0 <= t < n && t != i implies #[trigger] f(t) == 0 as real by {
            assert(w(i, t) == 0 as real);
            lemma_prod(w(j, t), 0 as real);
            lemma_prod(0 as real, w(j, t));
        }
        lemma_sum_single(f, i, c);
        assert(w(i, i) == 1 as real && w(j, i) == delta(j, i));
        lemma_prod(w(j, i), 1 as real);
        lemma_prod(1 as real, w(j, i));
    }
    assert forall|i: int, j: int| 0 <= i < n && 0 <= j < n implies #[trigger] sandwiched(
        w,
        a,
        c,
        i,
        j,
    ) == a(i, j) by {
        let g = |t: int| prod(w(i, t), sum(|u: int| prod(a(t, u), w(j, u)), c));
        assert forall|t: int| 0 <= t < n && t != i implies #[trigger] g(t) == 0 as real by {
            let rest = sum(|u: int| prod(a(t, u), w(j, u)), c);
            assert(w(i, t) == 0 as real);
            lemma_prod(rest, 0 as real);
            lemma_prod(0 as real, rest);
        }
        lemma_sum_single(g, i, c);
        let f = |u: int| prod(a(i, u), w(j, u));
        assert forall|u: int| 0 <= u < n && u != j implies #[trigger] f(u) == 0 as real by {
            assert(w(j, u) == 0 as real);
            lemma_prod(a(i, u), 0 as real);
        }
        lemma_sum_single(f, j, c);
        assert(w(i, i) == 1 as real && w(j, j) == 1 as real);
        lemma_prod(a(i, j), 1 as real);
        lemma_prod(sum(f, c), 1 as real);
        lemma_prod(1 as real, sum(f, c));
    }
}

/// Where arithmetic is exact, the eigenvectors have length one and stand at right
/// angles, and with the rotated matrix between them they make up the matrix again.
/// The eigenvalues are the diagonal of the rotated matrix.
pub proof fn law_eigenvectors<T: Analytic>(v: spec_fn(T) -> real, m: Seq<T>, n: int)
    requires
        faithful_roots(v),
        0 <= n,
        m.len() == n * n,
    ensures
        ({
            let st = sweeps(EigenState { a: m, v: identity(n) }, n, 100);
            let (values, vectors) = eigen_of(m, n);
            &&& vectors == st.v
            &&& forall|i: int| 0 <= i < n ==> #[trigger] values[i] == st.a[i * n + i]
            &&& orthonormal(at(v, vectors, n), n as nat)
            &&& rows_orthonormal(at(v, vectors, n), n as nat)
            &&& forall|i: int, j: int|
                0 <= i < n && 0 <= j < n ==> #[trigger] sandwiched(
                    at(v, vectors, n),
                    at(v, st.a, n),
                    n as nat,
                    i,
                    j,
                ) == at(v, m, n)(i, j)
        }),
{
    let start = EigenState { a: m, v: identity(n) };
    lemma_start(v, m, n);
    lemma_sweeps(v, start, m, n, 100);
}

/// The rotations have made the matrix diagonal.
pub open spec fn settled<T: Analytic>(v: spec_fn(T) -> real, m: Seq<T>, n: int) -> bool {
    let st = sweeps(EigenState { a: m, v: identity(n) }, n, 100);
    forall|i: int, j: int|
        0 <= i < n && 0 <= j < n && i != j ==> #[trigger] at(v, st.a, n)(i, j) == 0 as real
}

/// Element `i` of a matrix times a vector.
pub open spec fn applied(m: spec_fn(int, int) -> real, y: spec_fn(int) -> real, n: nat, i: int) -> real {
    sum(|j: int| prod(m(i, j), y(j)), n)
}

/// A diagonal matrix between the vectors: one product for each of them.
proof fn lemma_diagonal_between(
    w: spec_fn(int, int) -> real,
    a: spec_fn(int, int) -> real,
    n: nat,
    k: int,
    j: int,
)
    requires
        0 <= k < n,
        0 <= j < n,
        forall|t: int, u: int|
            0 <= t < n && 0 <= u < n && t != u ==> #[trigger] a(t, u) == 0 as real,
    ensures
        sandwiched(w, a, n, k, j) == sum(|t: int| prod(w(k, t), prod(a(t, t), w(j, t))), n),
{
    let f = |t: int| prod(w(k, t), sum(|u: int| prod(a(t, u), w(j, u)), n));
    let g = |t: int| prod(w(k, t), prod(a(t, t), w(j, t)));
    assert forall|t: int| 0 <= t < n implies #[trigger] f(t) == g(t) by {
        let x = |u: int| prod(a(t, u), w(j, u));
        assert forall|u: int| 0 <= u < n && u != t implies #[trigger] x(u) == 0 as real by {
            assert(a(t, u) == 0 as real);
            lemma_prod(w(j, u), 0 as real);
            lemma_prod(0 as real, w(j, u));
        }
        lemma_sum_single(x, t, n);
    }
    lemma_sum_agree(f, g, n);
}

/// Where arithmetic is exact and the rotations have made the matrix diagonal, it
/// takes each eigenvector to its multiple by the eigenvalue.
pub proof fn law_eigenpairs<T: Analytic>(v: spec_fn(T) -> real, m: Seq<T>, n: int, i: int, k: int)
    requires
        faithful_roots(v),
        0 <= n,
        m.len() == n * n,
        settled(v, m, n),
        0 <= i < n,
        0 <= k < n,
    ensures
        ({
            let (values, vectors) = eigen_of(m, n);
            applied(at(v, m, n), |j: int| at(v, vectors, n)(j, i), n as nat, k) == prod(
                v(values[i]),
                at(v, vectors, n)(k, i),
            )
        }),
{
    law_eigenvectors(v, m, n);
    let st = sweeps(EigenState { a: m, v: identity(n) }, n, 100);
    let (w, a, full) = (at(v, st.v, n), at(v, st.a, n), at(v, m, n));
    let c = n as nat;
    let x = |j: int| w(j, i);
    // the terms of both sums
    let f = |j: int, t: int| prod(prod(w(k, t), a(t, t)), prod(w(j, t), w(j, i)));
    let outer = |j: int| prod(full(k, j), x(j));
    assert forall|j: int| 0 <= j < n implies #[trigger] outer(j) == inner(f, c)(j) by {
        assert(sandwiched(w, a, c, k, j) == full(k, j));
        lemma_diagonal_between(w, a, c, k, j);
        let g = |t: int| prod(w(k, t), prod(a(t, t), w(j, t)));
        lemma_sum_times(g, x(j), c);
        let h = |t: int| prod(x(j), g(t));
        let r = |t: int| f(j, t);
        assert forall|t: int| 0 <= t < n implies #[trigger] h(t) == r(t) by {
            lemma_prod_regroup(w(k, t), a(t, t), w(j, t));
            lemma_prod_regroup(x(j), prod(w(k, t), a(t, t)), w(j, t));
            lemma_prod(x(j), w(j, t));
        }
        lemma_sum_agree(h, r, c);
        lemma_prod(full(k, j), x(j));
    }
    lemma_sum_agree(outer, inner(f, c), c);
    lemma_sum_swap(f, c, c);
    let by_vector = |t: int| prod(prod(w(k, t), a(t, t)), gram(w, c, t, i));
    let back = inner(turned(f), c);
    assert forall|t: int| 0 <= t < n implies #[trigger] back(t) == by_vector(t) by {
        let g = |j: int| prod(w(j, t), w(j, i));
        lemma_sum_times(g, prod(w(k, t), a(t, t)), c);
        let h = |j: int| prod(prod(w(k, t), a(t, t)), g(j));
        let r = |j: int| turned(f)(t, j);
        assert forall|j: int| 0 <= j < n implies #[trigger] h(j) == r(j) by {}
        lemma_sum_agree(h, r, c);
    }
    lemma_sum_agree(back, by_vector, c);
    assert forall|t: int| 0 <= t < n && t != i implies #[trigger] by_vector(t) == 0 as real by {
        assert(gram(w, c, t, i) == delta(t, i));
        lemma_prod(prod(w(k, t), a(t, t)), 0 as real);
    }
    lemma_sum_single(by_vector, i, c);
    assert(gram(w, c, i, i) == delta(i, i));
    lemma_prod(prod(w(k, i), a(i, i)), 1 as real);
    lemma_prod(w(k, i), a(i, i));
    lemma_within(i, n, i, n);
}

} // verus!
