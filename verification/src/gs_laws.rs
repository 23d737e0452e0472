//! Quaternions and opacities of Gaussians where arithmetic is exact.

use crate::gs_adapter::{
    largest_of_four, matrix_quat, opacity_of, quat_candidate, quat_matrix, quat_sizes,
    root_or_zero,
};
use crate::reals::{
    faithful, faithful_roots, faithful_widening, lemma_prod, lemma_prod_cancel, lemma_prod_plus,
    lemma_prod_sign, lemma_prod_square, lemma_prod_two, lemma_whole, prod,
};
use crate::scalar::{one, zero, Analytic, Scalar, Widens};
use vstd::prelude::*;

verus! {

/// Where arithmetic is exact, a Gaussian is as opaque as its confidence says.
pub proof fn law_opacity_is_exact<S: Scalar, D: Widens<S>>(
    v: spec_fn(S) -> real,
    u: spec_fn(D) -> real,
    conf: S,
)
    requires
        faithful(u),
        faithful_widening::<S, D>(v, u),
    ensures
        v(opacity_of::<S, D>(conf)) == v(conf),
{
    let c = D::widened_spec(conf);
    lemma_whole::<D>(u, 1);
    let half = D::ratio_spec(1, 2);
    assert(prod(u(half), 2u32 as int as real) == 1i32 as int as real);
    let twice = one::<D>().minus_spec(one::<D>().minus_spec(c)).plus_spec(c);
    assert(u(twice) == u(c) + u(c));
    let h = u(half);
    lemma_prod_two(h);
    lemma_prod(h, 2 as real);
    assert(h + h == 1 as real);
    lemma_prod_plus(h, u(c), u(c));
    lemma_prod_plus(u(c), h, h);
    lemma_prod(u(c), 1 as real);
    lemma_prod(u(c), h);
}

// ---- quaternions ----------------------------------------------------------------

/// The squared length of a quaternion.
pub open spec fn length_squared<D>(v: spec_fn(D) -> real, q: Seq<D>) -> real {
    prod(v(q[0]), v(q[0])) + prod(v(q[1]), v(q[1])) + prod(v(q[2]), v(q[2])) + prod(
        v(q[3]),
        v(q[3]),
    )
}

/// The quaternions `a` and `b` are the same or opposite.
pub open spec fn same_turn<D>(v: spec_fn(D) -> real, a: Seq<D>, b: Seq<D>) -> bool {
    ||| forall|k: int| 0 <= k < 4 ==> v(#[trigger] a[k]) == v(b[k])
    ||| forall|k: int| 0 <= k < 4 ==> v(#[trigger] a[k]) == -v(b[k])
}

/// The matrix of a quaternion of length one.
proof fn lemma_matrix<D: Scalar>(v: spec_fn(D) -> real, q: Seq<D>)
    requires
        faithful(v),
        q.len() == 4,
        length_squared(v, q) == 1 as real,
    ensures
        ({
            let m = quat_matrix(q);
            let (i, j, k, r) = (v(q[0]), v(q[1]), v(q[2]), v(q[3]));
            let (one, two) = (1 as real, 2 as real);
            &&& v(m[0]) == one - two * (prod(j, j) + prod(k, k))
            &&& v(m[1]) == two * (prod(i, j) - prod(k, r))
            &&& v(m[2]) == two * (prod(i, k) + prod(j, r))
            &&& v(m[3]) == two * (prod(i, j) + prod(k, r))
            &&& v(m[4]) == one - two * (prod(i, i) + prod(k, k))
            &&& v(m[5]) == two * (prod(j, k) - prod(i, r))
            &&& v(m[6]) == two * (prod(i, k) - prod(j, r))
            &&& v(m[7]) == two * (prod(j, k) + prod(i, r))
            &&& v(m[8]) == one - two * (prod(i, i) + prod(j, j))
        }),
{
    lemma_whole::<D>(v, 1);
    lemma_whole::<D>(v, 2);
    let (i, j, k, r) = (v(q[0]), v(q[1]), v(q[2]), v(q[3]));
    let len = q[0].times_spec(q[0]).plus_spec(q[1].times_spec(q[1])).plus_spec(
        q[2].times_spec(q[2]),
    ).plus_spec(q[3].times_spec(q[3]));
    assert(v(len) == 1 as real);
    let s = D::ratio_spec(2, 1).over_spec(len);
    assert(prod(v(s), v(len)) == 2 as real);
    lemma_prod(v(s), 1 as real);
    assert(v(s) == 2 as real);
    lemma_prod_two(prod(j, j) + prod(k, k));
    lemma_prod_two(prod(i, j) - prod(k, r));
    lemma_prod_two(prod(i, k) + prod(j, r));
    lemma_prod_two(prod(i, j) + prod(k, r));
    lemma_prod_two(prod(i, i) + prod(k, k));
    lemma_prod_two(prod(j, k) - prod(i, r));
    lemma_prod_two(prod(i, k) - prod(j, r));
    lemma_prod_two(prod(j, k) + prod(i, r));
    lemma_prod_two(prod(i, i) + prod(j, j));
}

/// The square root of four squares: not negative, and its square is them.
proof fn lemma_size<D: Analytic>(v: spec_fn(D) -> real, x: D, b: real)
    requires
        faithful_roots(v),
        v(x) == (4 as real) * prod(b, b),
    ensures
        v(root_or_zero(x)) >= 0 as real,
        prod(v(root_or_zero(x)), v(root_or_zero(x))) == (4 as real) * prod(b, b),
{
    lemma_whole::<D>(v, 0);
    lemma_prod_square(b);
    lemma_prod(0 as real, 0 as real);
}

/// Of numbers that are not negative, the larger has the larger square.
proof fn lemma_squares_grow(a: real, b: real)
    requires
        0 as real <= a <= b,
    ensures
        prod(a, a) <= prod(b, b),
{
    lemma_prod_sign(b - a, b + a);
    lemma_prod_plus(b + a, b, a);
    lemma_prod_plus(b, b, a);
    lemma_prod_plus(a, b, a);
    lemma_prod(a, b);
}

/// A number whose square is at least one is at least one, unless it is negative.
proof fn lemma_at_least_one(a: real)
    requires
        a >= 0 as real,
        prod(a, a) >= 1 as real,
    ensures
        a >= 1 as real,
{
    if a < 1 as real {
        lemma_prod_sign(a, 1 as real - a);
        lemma_prod_plus(a, 1 as real, a);
        lemma_prod(a, 1 as real);
    }
}

/// Numbers with the same square are the same or opposite.
proof fn lemma_same_square(a: real, b: real)
    requires
        prod(a, a) == prod(b, b),
    ensures
        a == b || a == -b,
{
    lemma_prod_plus(a + b, a, b);
    lemma_prod_plus(a, a, b);
    lemma_prod_plus(b, a, b);
    lemma_prod(a, b);
    lemma_prod(a - b, a + b);
    if a != b {
        lemma_prod(a - b, 0 as real);
        lemma_prod_cancel(a - b, a + b, 0 as real);
    }
}

/// One component read off: `4 b q` over twice the size `2 |b|`.
proof fn lemma_component(x: real, size: real, b: real, q: real)
    requires
        size > 0 as real,
        size == b + b || size == -(b + b),
        prod(x, size + size) == (4 as real) * prod(b, q),
    ensures
        size == b + b ==> x == q,
        size == -(b + b) ==> x == -q,
{
    let d = b + b;
    lemma_prod_plus(x, b, b);
    lemma_prod_plus(x, d, d);
    lemma_prod(x, d + d);
    lemma_prod(x, b);
    lemma_prod(b, q);
    if size == d {
        lemma_prod_cancel(b, x, q);
    } else {
        assert(size + size == -(d + d));
        lemma_prod_cancel(b, x, -q);
    }
}

/// The quaternion `a` is `b` or its opposite.
pub open spec fn found_turn<D>(
    v: spec_fn(D) -> real,
    a: Seq<D>,
    b: (real, real, real, real),
) -> bool {
    ||| v(a[0]) == b.0 && v(a[1]) == b.1 && v(a[2]) == b.2 && v(a[3]) == b.3
    ||| v(a[0]) == -b.0 && v(a[1]) == -b.1 && v(a[2]) == -b.2 && v(a[3]) == -b.3
}

/// `m` is the matrix of a quaternion of length one.
pub open spec fn turns_like<D>(
    v: spec_fn(D) -> real,
    m: Seq<D>,
    q: (real, real, real, real),
) -> bool {
    let (i, j, k, r) = q;
    let (one, two) = (1 as real, 2 as real);
    &&& prod(i, i) + prod(j, j) + prod(k, k) + prod(r, r) == one
    &&& v(m[0]) == one - two * (prod(j, j) + prod(k, k))
    &&& v(m[1]) == two * (prod(i, j) - prod(k, r))
    &&& v(m[2]) == two * (prod(i, k) + prod(j, r))
    &&& v(m[3]) == two * (prod(i, j) + prod(k, r))
    &&& v(m[4]) == one - two * (prod(i, i) + prod(k, k))
    &&& v(m[5]) == two * (prod(j, k) - prod(i, r))
    &&& v(m[6]) == two * (prod(i, k) - prod(j, r))
    &&& v(m[7]) == two * (prod(j, k) + prod(i, r))
    &&& v(m[8]) == one - two * (prod(i, i) + prod(j, j))
}

/// What is read off by the component `b`: the quaternion or its opposite.
proof fn lemma_read_off<D: Analytic>(
    v: spec_fn(D) -> real,
    q: (real, real, real, real),
    c: Seq<D>,
    size: D,
    denom: D,
    b: real,
)
    requires
        faithful(v),
        v(size) > 0 as real,
        prod(v(size), v(size)) == (4 as real) * prod(b, b),
        v(denom) == v(size) + v(size),
        v(c[0]) == (4 as real) * prod(b, q.3),
        v(c[1]) == (4 as real) * prod(b, q.0),
        v(c[2]) == (4 as real) * prod(b, q.1),
        v(c[3]) == (4 as real) * prod(b, q.2),
    ensures
        found_turn(
            v,
            seq![
                c[1].over_spec(denom),
                c[2].over_spec(denom),
                c[3].over_spec(denom),
                c[0].over_spec(denom),
            ],
            q,
        ),
{
    let s = v(size);
    lemma_prod_plus(b + b, b, b);
    lemma_prod_plus(b, b, b);
    assert(prod(b + b, b + b) == (4 as real) * prod(b, b));
    lemma_same_square(s, b + b);
    assert(v(denom) != 0 as real);
    lemma_component(v(c[0].over_spec(denom)), s, b, q.3);
    lemma_component(v(c[1].over_spec(denom)), s, b, q.0);
    lemma_component(v(c[2].over_spec(denom)), s, b, q.1);
    lemma_component(v(c[3].over_spec(denom)), s, b, q.2);
}

/// The quaternion of a rotation is found from its matrix.
pub proof fn lemma_found<D: Analytic>(
    v: spec_fn(D) -> real,
    m: Seq<D>,
    q: (real, real, real, real),
)
    requires
        faithful_roots(v),
        turns_like(v, m, q),
    ensures
        found_turn(v, matrix_quat(m), q),
        v(matrix_quat(m)[3]) >= 0 as real,
{
    let (i, j, k, r) = q;
    lemma_whole::<D>(v, 0);
    lemma_whole::<D>(v, 1);
    lemma_whole::<D>(v, 2);
    let u = one::<D>();
    let qa = quat_sizes(m);
    lemma_size(v, u.plus_spec(m[0]).plus_spec(m[4]).plus_spec(m[8]), r);
    lemma_size(v, u.plus_spec(m[0]).minus_spec(m[4]).minus_spec(m[8]), i);
    lemma_size(v, u.minus_spec(m[0]).plus_spec(m[4]).minus_spec(m[8]), j);
    lemma_size(v, u.minus_spec(m[0]).minus_spec(m[4]).plus_spec(m[8]), k);
    let best = largest_of_four(qa);
    let s = v(qa[best]);
    assert(s >= v(qa[0]) && s >= v(qa[1]) && s >= v(qa[2]) && s >= v(qa[3]));
    lemma_squares_grow(v(qa[0]), s);
    lemma_squares_grow(v(qa[1]), s);
    lemma_squares_grow(v(qa[2]), s);
    lemma_squares_grow(v(qa[3]), s);
    lemma_at_least_one(s);
    let tenth = D::ratio_spec(1, 10);
    assert(prod(v(tenth), 10u32 as int as real) == 1i32 as int as real);
    assert(v(tenth) <= 1 as real) by {
        lemma_prod_sign(10 as real, v(tenth) - 1 as real);
        lemma_prod_plus(10 as real, v(tenth), 1 as real);
        lemma_prod(10 as real, 1 as real);
        lemma_prod(10 as real, v(tenth));
    }
    let denom = D::ratio_spec(2, 1).times_spec(qa[best].larger_spec(tenth));
    lemma_prod_two(s);
    assert(v(denom) == s + s);
    let c = quat_candidate(m, qa, best);
    lemma_prod(i, j);
    lemma_prod(i, k);
    lemma_prod(j, k);
    lemma_prod(i, r);
    lemma_prod(j, r);
    lemma_prod(k, r);
    let b = if best == 0 {
        r
    } else if best == 1 {
        i
    } else if best == 2 {
        j
    } else {
        k
    };
    lemma_read_off(v, q, c, qa[best], denom, b);
    let found = seq![
        c[1].over_spec(denom),
        c[2].over_spec(denom),
        c[3].over_spec(denom),
        c[0].over_spec(denom),
    ];
    let back = matrix_quat(m);
    let w = c[0].over_spec(denom);
    if w.less_spec(zero()) {
        assert(v(back[0]) == -v(found[0]) && v(back[1]) == -v(found[1]));
        assert(v(back[2]) == -v(found[2]) && v(back[3]) == -v(found[3]));
    } else {
        assert(back =~= found);
    }
}

/// Where arithmetic is exact, the matrix of a quaternion of length one gives back
/// that quaternion or its opposite, whichever has no negative `w`.
pub proof fn law_quaternion_round_trip<D: Analytic>(v: spec_fn(D) -> real, q: Seq<D>)
    requires
        faithful_roots(v),
        q.len() == 4,
        length_squared(v, q) == 1 as real,
    ensures
        same_turn(v, matrix_quat(quat_matrix(q)), q),
        v(matrix_quat(quat_matrix(q))[3]) >= 0 as real,
{
    lemma_matrix(v, q);
    lemma_found(v, quat_matrix(q), (v(q[0]), v(q[1]), v(q[2]), v(q[3])));
}

} // verus!
