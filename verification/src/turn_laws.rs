//! How Gaussians are turned and coloured, where arithmetic is exact.

use crate::cam_pose_laws::{hamilton, lemma_turned, turned_by};
use crate::gs_adapter::{
    axis_rotation, built_of, coefficient, harmonic_at, quat_matrix, rotation_of, shared_of, unit_quat,
    world_quat, GsAdapter,
};
use crate::gs_laws::{found_turn, lemma_found, turns_like};
use crate::index::{accumulate, lemma_accumulate_agree, lemma_split, lemma_within};
use crate::layer_laws::lemma_one_root;
use crate::linalg::{product_of, product_term};
use crate::linalg_laws::lemma_four_factors;
use crate::reals::{
    faithful, faithful_roots, faithful_widening, lemma_accumulate, lemma_prod, lemma_prod_cancel,
    lemma_prod_plus, lemma_prod_regroup, lemma_prod_square, lemma_prod_two, lemma_sum_agree,
    lemma_whole, prod, sum,
};
use crate::scalar::{Analytic, Circular, Scalar, Widens};
use vstd::prelude::*;

verus! {

/// A sum of four products, times a number on either side.
proof fn lemma_sum_times(t: real, s: real, a: real, b: real, c: real, d: real)
    requires
        t == a + b + c + d,
    ensures
        prod(t, s) == prod(a, s) + prod(b, s) + prod(c, s) + prod(d, s),
        prod(s, t) == prod(s, a) + prod(s, b) + prod(s, c) + prod(s, d),
{
    lemma_prod_plus(s, a + b + c, d);
    lemma_prod_plus(s, a + b, c);
    lemma_prod_plus(s, a, b);
}

/// Three factors, and their opposite.
proof fn lemma_triple(a: real, b: real, c: real)
    ensures
        prod(prod(a, b), c) == prod(a, prod(b, c)),
        prod(-prod(a, b), c) == -prod(a, prod(b, c)),
        prod(a, -prod(b, c)) == -prod(a, prod(b, c)),
{
    lemma_prod_regroup(a, b, c);
    lemma_prod(prod(a, b), c);
    lemma_prod(a, prod(b, c));
}

/// Component 0 of a product of quaternions, times a number behind it.
proof fn lemma_behind_0(p: (real, real, real, real), q: (real, real, real, real), s: real)
    ensures
        prod(hamilton(p, q).0, s) == prod(p.3, prod(q.0, s)) + prod(p.0, prod(q.3, s)) + prod(p.1, prod(q.2, s)) - prod(p.2, prod(q.1, s)),
{
    lemma_sum_times(hamilton(p, q).0, s, prod(p.3, q.0), prod(p.0, q.3), prod(p.1, q.2), -prod(p.2, q.1));
    lemma_triple(p.3, q.0, s);
    lemma_triple(p.0, q.3, s);
    lemma_triple(p.1, q.2, s);
    lemma_triple(p.2, q.1, s);
}

/// Component 0 of a product of quaternions, times a number before it.
proof fn lemma_before_0(p: (real, real, real, real), q: (real, real, real, real), s: real)
    ensures
        prod(s, hamilton(p, q).0) == prod(s, prod(p.3, q.0)) + prod(s, prod(p.0, q.3)) + prod(s, prod(p.1, q.2)) - prod(s, prod(p.2, q.1)),
{
    lemma_sum_times(hamilton(p, q).0, s, prod(p.3, q.0), prod(p.0, q.3), prod(p.1, q.2), -prod(p.2, q.1));
    lemma_triple(s, p.3, q.0);
    lemma_triple(s, p.0, q.3);
    lemma_triple(s, p.1, q.2);
    lemma_triple(s, p.2, q.1);
}

/// Component 1 of a product of quaternions, times a number behind it.
proof fn lemma_behind_1(p: (real, real, real, real), q: (real, real, real, real), s: real)
    ensures
        prod(hamilton(p, q).1, s) == prod(p.3, prod(q.1, s)) - prod(p.0, prod(q.2, s)) + prod(p.1, prod(q.3, s)) + prod(p.2, prod(q.0, s)),
{
    lemma_sum_times(hamilton(p, q).1, s, prod(p.3, q.1), -prod(p.0, q.2), prod(p.1, q.3), prod(p.2, q.0));
    lemma_triple(p.3, q.1, s);
    lemma_triple(p.0, q.2, s);
    lemma_triple(p.1, q.3, s);
    lemma_triple(p.2, q.0, s);
}

/// Component 1 of a product of quaternions, times a number before it.
proof fn lemma_before_1(p: (real, real, real, real), q: (real, real, real, real), s: real)
    ensures
        prod(s, hamilton(p, q).1) == prod(s, prod(p.3, q.1)) - prod(s, prod(p.0, q.2)) + prod(s, prod(p.1, q.3)) + prod(s, prod(p.2, q.0)),
{
    lemma_sum_times(hamilton(p, q).1, s, prod(p.3, q.1), -prod(p.0, q.2), prod(p.1, q.3), prod(p.2, q.0));
    lemma_triple(s, p.3, q.1);
    lemma_triple(s, p.0, q.2);
    lemma_triple(s, p.1, q.3);
    lemma_triple(s, p.2, q.0);
}

/// Component 2 of a product of quaternions, times a number behind it.
proof fn lemma_behind_2(p: (real, real, real, real), q: (real, real, real, real), s: real)
    ensures
        prod(hamilton(p, q).2, s) == prod(p.3, prod(q.2, s)) + prod(p.0, prod(q.1, s)) - prod(p.1, prod(q.0, s)) + prod(p.2, prod(q.3, s)),
{
    lemma_sum_times(hamilton(p, q).2, s, prod(p.3, q.2), prod(p.0, q.1), -prod(p.1, q.0), prod(p.2, q.3));
    lemma_triple(p.3, q.2, s);
    lemma_triple(p.0, q.1, s);
    lemma_triple(p.1, q.0, s);
    lemma_triple(p.2, q.3, s);
}

/// Component 2 of a product of quaternions, times a number before it.
proof fn lemma_before_2(p: (real, real, real, real), q: (real, real, real, real), s: real)
    ensures
        prod(s, hamilton(p, q).2) == prod(s, prod(p.3, q.2)) + prod(s, prod(p.0, q.1)) - prod(s, prod(p.1, q.0)) + prod(s, prod(p.2, q.3)),
{
    lemma_sum_times(hamilton(p, q).2, s, prod(p.3, q.2), prod(p.0, q.1), -prod(p.1, q.0), prod(p.2, q.3));
    lemma_triple(s, p.3, q.2);
    lemma_triple(s, p.0, q.1);
    lemma_triple(s, p.1, q.0);
    lemma_triple(s, p.2, q.3);
}

/// Component 3 of a product of quaternions, times a number behind it.
proof fn lemma_behind_3(p: (real, real, real, real), q: (real, real, real, real), s: real)
    ensures
        prod(hamilton(p, q).3, s) == prod(p.3, prod(q.3, s)) - prod(p.0, prod(q.0, s)) - prod(p.1, prod(q.1, s)) - prod(p.2, prod(q.2, s)),
{
    lemma_sum_times(hamilton(p, q).3, s, prod(p.3, q.3), -prod(p.0, q.0), -prod(p.1, q.1), -prod(p.2, q.2));
    lemma_triple(p.3, q.3, s);
    lemma_triple(p.0, q.0, s);
    lemma_triple(p.1, q.1, s);
    lemma_triple(p.2, q.2, s);
}

/// Component 3 of a product of quaternions, times a number before it.
proof fn lemma_before_3(p: (real, real, real, real), q: (real, real, real, real), s: real)
    ensures
        prod(s, hamilton(p, q).3) == prod(s, prod(p.3, q.3)) - prod(s, prod(p.0, q.0)) - prod(s, prod(p.1, q.1)) - prod(s, prod(p.2, q.2)),
{
    lemma_sum_times(hamilton(p, q).3, s, prod(p.3, q.3), -prod(p.0, q.0), -prod(p.1, q.1), -prod(p.2, q.2));
    lemma_triple(s, p.3, q.3);
    lemma_triple(s, p.0, q.0);
    lemma_triple(s, p.1, q.1);
    lemma_triple(s, p.2, q.2);
}

proof fn lemma_associative_0(
    p: (real, real, real, real),
    q: (real, real, real, real),
    r: (real, real, real, real),
)
    ensures
        hamilton(hamilton(p, q), r).0 == hamilton(p, hamilton(q, r)).0,
{
    lemma_behind_3(p, q, r.0);
    lemma_before_0(q, r, p.3);
    lemma_behind_0(p, q, r.3);
    lemma_before_3(q, r, p.0);
    lemma_behind_1(p, q, r.2);
    lemma_before_2(q, r, p.1);
    lemma_behind_2(p, q, r.1);
    lemma_before_1(q, r, p.2);
}

proof fn lemma_associative_1(
    p: (real, real, real, real),
    q: (real, real, real, real),
    r: (real, real, real, real),
)
    ensures
        hamilton(hamilton(p, q), r).1 == hamilton(p, hamilton(q, r)).1,
{
    lemma_behind_3(p, q, r.1);
    lemma_before_1(q, r, p.3);
    lemma_behind_0(p, q, r.2);
    lemma_before_2(q, r, p.0);
    lemma_behind_1(p, q, r.3);
    lemma_before_3(q, r, p.1);
    lemma_behind_2(p, q, r.0);
    lemma_before_0(q, r, p.2);
}

proof fn lemma_associative_2(
    p: (real, real, real, real),
    q: (real, real, real, real),
    r: (real, real, real, real),
)
    ensures
        hamilton(hamilton(p, q), r).2 == hamilton(p, hamilton(q, r)).2,
{
    lemma_behind_3(p, q, r.2);
    lemma_before_2(q, r, p.3);
    lemma_behind_0(p, q, r.1);
    lemma_before_1(q, r, p.0);
    lemma_behind_1(p, q, r.0);
    lemma_before_0(q, r, p.1);
    lemma_behind_2(p, q, r.3);
    lemma_before_3(q, r, p.2);
}

proof fn lemma_associative_3(
    p: (real, real, real, real),
    q: (real, real, real, real),
    r: (real, real, real, real),
)
    ensures
        hamilton(hamilton(p, q), r).3 == hamilton(p, hamilton(q, r)).3,
{
    lemma_behind_3(p, q, r.3);
    lemma_before_3(q, r, p.3);
    lemma_behind_0(p, q, r.0);
    lemma_before_0(q, r, p.0);
    lemma_behind_1(p, q, r.1);
    lemma_before_1(q, r, p.1);
    lemma_behind_2(p, q, r.2);
    lemma_before_2(q, r, p.2);
}

/// Products of quaternions can be taken in either order.
proof fn lemma_associative(
    p: (real, real, real, real),
    q: (real, real, real, real),
    r: (real, real, real, real),
)
    ensures
        hamilton(hamilton(p, q), r) == hamilton(p, hamilton(q, r)),
{
    lemma_associative_0(p, q, r);
    lemma_associative_1(p, q, r);
    lemma_associative_2(p, q, r);
    lemma_associative_3(p, q, r);
}

/// A quaternion turned the other way.
pub open spec fn opposite_turn(q: (real, real, real, real)) -> (real, real, real, real) {
    (-q.0, -q.1, -q.2, q.3)
}

/// The square of a quaternion's length.
pub open spec fn square_length(q: (real, real, real, real)) -> real {
    prod(q.0, q.0) + prod(q.1, q.1) + prod(q.2, q.2) + prod(q.3, q.3)
}

/// The turn that undoes two turns.
proof fn lemma_opposite(p: (real, real, real, real), q: (real, real, real, real))
    ensures
        opposite_turn(hamilton(p, q)) == hamilton(opposite_turn(q), opposite_turn(p)),
{
    lemma_prod(p.0, q.0);
    lemma_prod(-q.0, -p.0);
    lemma_prod(q.0, -p.0);
    lemma_prod(-q.0, p.0);
    lemma_prod(q.0, p.0);
    lemma_prod(p.0, q.1);
    lemma_prod(-q.1, -p.0);
    lemma_prod(q.1, -p.0);
    lemma_prod(-q.1, p.0);
    lemma_prod(q.1, p.0);
    lemma_prod(p.0, q.2);
    lemma_prod(-q.2, -p.0);
    lemma_prod(q.2, -p.0);
    lemma_prod(-q.2, p.0);
    lemma_prod(q.2, p.0);
    lemma_prod(p.0, q.3);
    lemma_prod(-q.3, -p.0);
    lemma_prod(q.3, -p.0);
    lemma_prod(-q.3, p.0);
    lemma_prod(q.3, p.0);
    lemma_prod(p.1, q.0);
    lemma_prod(-q.0, -p.1);
    lemma_prod(q.0, -p.1);
    lemma_prod(-q.0, p.1);
    lemma_prod(q.0, p.1);
    lemma_prod(p.1, q.1);
    lemma_prod(-q.1, -p.1);
    lemma_prod(q.1, -p.1);
    lemma_prod(-q.1, p.1);
    lemma_prod(q.1, p.1);
    lemma_prod(p.1, q.2);
    lemma_prod(-q.2, -p.1);
    lemma_prod(q.2, -p.1);
    lemma_prod(-q.2, p.1);
    lemma_prod(q.2, p.1);
    lemma_prod(p.1, q.3);
    lemma_prod(-q.3, -p.1);
    lemma_prod(q.3, -p.1);
    lemma_prod(-q.3, p.1);
    lemma_prod(q.3, p.1);
    lemma_prod(p.2, q.0);
    lemma_prod(-q.0, -p.2);
    lemma_prod(q.0, -p.2);
    lemma_prod(-q.0, p.2);
    lemma_prod(q.0, p.2);
    lemma_prod(p.2, q.1);
    lemma_prod(-q.1, -p.2);
    lemma_prod(q.1, -p.2);
    lemma_prod(-q.1, p.2);
    lemma_prod(q.1, p.2);
    lemma_prod(p.2, q.2);
    lemma_prod(-q.2, -p.2);
    lemma_prod(q.2, -p.2);
    lemma_prod(-q.2, p.2);
    lemma_prod(q.2, p.2);
    lemma_prod(p.2, q.3);
    lemma_prod(-q.3, -p.2);
    lemma_prod(q.3, -p.2);
    lemma_prod(-q.3, p.2);
    lemma_prod(q.3, p.2);
    lemma_prod(p.3, q.0);
    lemma_prod(-q.0, -p.3);
    lemma_prod(q.0, -p.3);
    lemma_prod(-q.0, p.3);
    lemma_prod(q.0, p.3);
    lemma_prod(p.3, q.1);
    lemma_prod(-q.1, -p.3);
    lemma_prod(q.1, -p.3);
    lemma_prod(-q.1, p.3);
    lemma_prod(q.1, p.3);
    lemma_prod(p.3, q.2);
    lemma_prod(-q.2, -p.3);
    lemma_prod(q.2, -p.3);
    lemma_prod(-q.2, p.3);
    lemma_prod(q.2, p.3);
    lemma_prod(p.3, q.3);
    lemma_prod(-q.3, -p.3);
    lemma_prod(q.3, -p.3);
    lemma_prod(-q.3, p.3);
    lemma_prod(q.3, p.3);
}

/// A quaternion times its opposite turn is the square of its length.
proof fn lemma_undone(q: (real, real, real, real))
    ensures
        hamilton(q, opposite_turn(q)) == (0 as real, 0 as real, 0 as real, square_length(q)),
{
    lemma_prod(q.0, q.0);
    lemma_prod(q.0, q.1);
    lemma_prod(q.0, q.2);
    lemma_prod(q.0, q.3);
    lemma_prod(q.1, q.0);
    lemma_prod(q.1, q.1);
    lemma_prod(q.1, q.2);
    lemma_prod(q.1, q.3);
    lemma_prod(q.2, q.0);
    lemma_prod(q.2, q.1);
    lemma_prod(q.2, q.2);
    lemma_prod(q.2, q.3);
    lemma_prod(q.3, q.0);
    lemma_prod(q.3, q.1);
    lemma_prod(q.3, q.2);
    lemma_prod(q.3, q.3);
}

/// Nothing is turned by one.
proof fn lemma_neutral(p: (real, real, real, real))
    ensures
        hamilton(p, (0 as real, 0 as real, 0 as real, 1 as real)) == p,
{
    lemma_prod(p.0, 0 as real);
    lemma_prod(p.1, 0 as real);
    lemma_prod(p.2, 0 as real);
    lemma_prod(p.3, 0 as real);
    lemma_prod(p.0, 1 as real);
    lemma_prod(p.1, 1 as real);
    lemma_prod(p.2, 1 as real);
    lemma_prod(p.3, 1 as real);
}

/// One turn after another is the turn of the product.
proof fn lemma_turn_twice(
    p: (real, real, real, real),
    q: (real, real, real, real),
    a: (real, real, real),
)
    ensures
        ({
            let b = turned_by(q, a);
            turned_by(p, (b.0, b.1, b.2)) == turned_by(hamilton(p, q), a)
        }),
{
    let z = (a.0, a.1, a.2, 0 as real);
    let b = turned_by(q, a);
    lemma_turned(q, a);
    let (po, qo) = (opposite_turn(p), opposite_turn(q));
    assert(b == hamilton(hamilton(q, z), qo));
    assert((b.0, b.1, b.2, 0 as real) == b);
    lemma_associative(p, hamilton(q, z), qo);
    lemma_associative(p, q, z);
    let t = hamilton(hamilton(p, q), z);
    assert(hamilton(p, b) == hamilton(t, qo));
    lemma_associative(t, qo, po);
    lemma_opposite(p, q);
}

/// Turns of length one make a turn of length one.
proof fn lemma_unit_product(p: (real, real, real, real), q: (real, real, real, real))
    requires
        square_length(p) == 1 as real,
        square_length(q) == 1 as real,
    ensures
        square_length(hamilton(p, q)) == 1 as real,
{
    let t = hamilton(p, q);
    lemma_undone(p);
    lemma_undone(q);
    lemma_undone(t);
    lemma_opposite(p, q);
    let (po, qo) = (opposite_turn(p), opposite_turn(q));
    lemma_associative(t, qo, po);
    lemma_associative(p, q, qo);
    lemma_neutral(p);
    assert(hamilton(t, qo) == p);
    assert(hamilton(t, hamilton(qo, po)) == hamilton(p, po));
}

/// Axis `j`.
pub open spec fn axis(j: int) -> (real, real, real) {
    (
        if j == 0 {
            1 as real
        } else {
            0 as real
        },
        if j == 1 {
            1 as real
        } else {
            0 as real
        },
        if j == 2 {
            1 as real
        } else {
            0 as real
        },
    )
}

/// Column `j` of `m` is what `q` turns axis `j` into.
pub open spec fn column_turned<D>(
    v: spec_fn(D) -> real,
    m: Seq<D>,
    q: (real, real, real, real),
    j: int,
) -> bool {
    let b = turned_by(q, axis(j));
    v(m[j]) == b.0 && v(m[3 + j]) == b.1 && v(m[6 + j]) == b.2
}

/// The columns of a matrix are what a turn makes of the axes.
pub open spec fn axes_turned<D>(
    v: spec_fn(D) -> real,
    m: Seq<D>,
    q: (real, real, real, real),
) -> bool {
    column_turned(v, m, q, 0) && column_turned(v, m, q, 1) && column_turned(v, m, q, 2)
}

/// A matrix whose columns are turned axes, entry by entry.
proof fn lemma_axes<D: Scalar>(v: spec_fn(D) -> real, m: Seq<D>, q: (real, real, real, real))
    requires
        square_length(q) == 1 as real,
    ensures
        axes_turned(v, m, q) == turns_like(v, m, q),
{
    let (x, y, z, w) = q;
    let (xx, yy, zz, ww) = (prod(x, x), prod(y, y), prod(z, z), prod(w, w));
    lemma_prod(ww + xx - yy - zz, 1 as real);
    lemma_prod(ww + xx - yy - zz, 0 as real);
    lemma_prod(ww + yy - xx - zz, 1 as real);
    lemma_prod(ww + yy - xx - zz, 0 as real);
    lemma_prod(ww + zz - xx - yy, 1 as real);
    lemma_prod(ww + zz - xx - yy, 0 as real);
    lemma_prod(prod(x, y) - prod(z, w), 1 as real);
    lemma_prod(prod(x, y) - prod(z, w), 0 as real);
    lemma_prod(prod(x, z) + prod(y, w), 1 as real);
    lemma_prod(prod(x, z) + prod(y, w), 0 as real);
    lemma_prod(prod(x, y) + prod(z, w), 1 as real);
    lemma_prod(prod(x, y) + prod(z, w), 0 as real);
    lemma_prod(prod(y, z) - prod(x, w), 1 as real);
    lemma_prod(prod(y, z) - prod(x, w), 0 as real);
    lemma_prod(prod(x, z) - prod(y, w), 1 as real);
    lemma_prod(prod(x, z) - prod(y, w), 0 as real);
    lemma_prod(prod(y, z) + prod(x, w), 1 as real);
    lemma_prod(prod(y, z) + prod(x, w), 0 as real);
    lemma_turned(q, axis(0));
    lemma_turned(q, axis(1));
    lemma_turned(q, axis(2));
}

/// A turn as a matrix: what it makes of a direction.
proof fn lemma_turn_applied(q: (real, real, real, real), a: (real, real, real))
    ensures
        ({
            let (b, c0, c1, c2) = (
                turned_by(q, a),
                turned_by(q, axis(0)),
                turned_by(q, axis(1)),
                turned_by(q, axis(2)),
            );
            &&& b.0 == prod(c0.0, a.0) + prod(c1.0, a.1) + prod(c2.0, a.2)
            &&& b.1 == prod(c0.1, a.0) + prod(c1.1, a.1) + prod(c2.1, a.2)
            &&& b.2 == prod(c0.2, a.0) + prod(c1.2, a.1) + prod(c2.2, a.2)
        }),
{
    let (x, y, z, w) = q;
    let (xx, yy, zz, ww) = (prod(x, x), prod(y, y), prod(z, z), prod(w, w));
    lemma_turned(q, a);
    lemma_turned(q, axis(0));
    lemma_turned(q, axis(1));
    lemma_turned(q, axis(2));
    lemma_prod(ww + xx - yy - zz, 1 as real);
    lemma_prod(ww + xx - yy - zz, 0 as real);
    lemma_prod(ww + yy - xx - zz, 1 as real);
    lemma_prod(ww + yy - xx - zz, 0 as real);
    lemma_prod(ww + zz - xx - yy, 1 as real);
    lemma_prod(ww + zz - xx - yy, 0 as real);
    lemma_prod(prod(x, y) - prod(z, w), 1 as real);
    lemma_prod(prod(x, y) - prod(z, w), 0 as real);
    lemma_twice(prod(x, y) - prod(z, w), a.1);
    lemma_prod(prod(x, z) + prod(y, w), 1 as real);
    lemma_prod(prod(x, z) + prod(y, w), 0 as real);
    lemma_twice(prod(x, z) + prod(y, w), a.2);
    lemma_prod(prod(x, y) + prod(z, w), 1 as real);
    lemma_prod(prod(x, y) + prod(z, w), 0 as real);
    lemma_twice(prod(x, y) + prod(z, w), a.0);
    lemma_prod(prod(y, z) - prod(x, w), 1 as real);
    lemma_prod(prod(y, z) - prod(x, w), 0 as real);
    lemma_twice(prod(y, z) - prod(x, w), a.2);
    lemma_prod(prod(x, z) - prod(y, w), 1 as real);
    lemma_prod(prod(x, z) - prod(y, w), 0 as real);
    lemma_twice(prod(x, z) - prod(y, w), a.0);
    lemma_prod(prod(y, z) + prod(x, w), 1 as real);
    lemma_prod(prod(y, z) + prod(x, w), 0 as real);
    lemma_twice(prod(y, z) + prod(x, w), a.1);
}

/// Twice a number, times another.
proof fn lemma_twice(m: real, a: real)
    ensures
        prod((2 as real) * m, a) == (2 as real) * prod(m, a),
{
    lemma_prod_plus(a, m, m);
    assert((2 as real) * m == m + m);
}

/// Column `j` of a product of matrices.
proof fn lemma_product_column<D: Scalar>(v: spec_fn(D) -> real, a: Seq<D>, b: Seq<D>, i: int, j: int)
    requires
        faithful(v),
        0 <= i < 3,
        0 <= j < 3,
    ensures
        v(product_of(a, b, 3)[3 * i + j]) == prod(v(a[3 * i]), v(b[j])) + prod(
            v(a[3 * i + 1]),
            v(b[3 + j]),
        ) + prod(v(a[3 * i + 2]), v(b[6 + j])),
{
    lemma_whole::<D>(v, 0);
    let p = 3 * i + j;
    lemma_split(i, 3, j);
    let f = product_term(a, b, 3, p);
    reveal_with_fuel(accumulate, 4);
    assert(product_of(a, b, 3)[p] == accumulate(D::ratio_spec(0, 1), f, 3));
    assert(p / 3 == i && p % 3 == j);
    assert(f(0) == a[3 * i].times_spec(b[j]));
    assert(f(1) == a[3 * i + 1].times_spec(b[3 + j]));
    assert(f(2) == a[3 * i + 2].times_spec(b[6 + j]));
}

/// A quaternion of any length in the world: `r` is its reading with the last number
/// first, and `d` its direction.
proof fn lemma_world<D: Analytic>(
    v: spec_fn(D) -> real,
    r: Seq<D>,
    rotation: Seq<D>,
    d: (real, real, real, real),
    p: (real, real, real, real),
)
    requires
        faithful_roots(v),
        r.len() == 4,
        turns_like(v, quat_matrix(r), d),
        square_length(d) == 1 as real,
        square_length(p) == 1 as real,
        axes_turned(v, rotation, p),
    ensures
        found_turn(v, world_quat(seq![r[1], r[2], r[3], r[0]], rotation), hamilton(p, d)),
        v(world_quat(seq![r[1], r[2], r[3], r[0]], rotation)[3]) >= 0 as real,
{
    let q = seq![r[1], r[2], r[3], r[0]];
    assert(seq![q[3], q[0], q[1], q[2]] =~= r);
    let b = quat_matrix(r);
    lemma_axes(v, b, d);
    let m = product_of(rotation, b, 3);
    let t = hamilton(p, d);
    lemma_unit_product(p, d);
    assert forall|j: int| 0 <= j < 3 implies #[trigger] column_turned(v, m, t, j) by {
        let c = turned_by(d, axis(j));
        assert(column_turned(v, b, d, j));
        lemma_turn_twice(p, d, axis(j));
        lemma_turn_applied(p, (c.0, c.1, c.2));
        lemma_product_column(v, rotation, b, 0, j);
        lemma_product_column(v, rotation, b, 1, j);
        lemma_product_column(v, rotation, b, 2, j);
        assert(column_turned(v, rotation, p, 0));
        assert(column_turned(v, rotation, p, 1));
        assert(column_turned(v, rotation, p, 2));
    }
    assert(column_turned(v, m, t, 0) && column_turned(v, m, t, 1) && column_turned(v, m, t, 2));
    lemma_axes(v, m, t);
    lemma_found(v, m, t);
}

/// The quaternion that the network gives for pixel `pix`, with what it has as its last
/// number first.
pub open spec fn raw_turn<S>(v: spec_fn(S) -> real, raw: Seq<S>, pix: int) -> (
    real,
    real,
    real,
    real,
) {
    (
        v(raw[37 * pix + 8]),
        v(raw[37 * pix + 5]),
        v(raw[37 * pix + 6]),
        v(raw[37 * pix + 7]),
    )
}

/// `n` times a quaternion.
pub open spec fn stretched(d: (real, real, real, real), n: real) -> (real, real, real, real) {
    (prod(d.0, n), prod(d.1, n), prod(d.2, n), prod(d.3, n))
}

/// Row `j` of the rotation of the extrinsics is what `p` turns axis `j` into.
pub open spec fn camera_axes<S>(
    v: spec_fn(S) -> real,
    ext: Seq<S>,
    p: (real, real, real, real),
    j: int,
) -> bool {
    let b = turned_by(p, axis(j));
    v(ext[4 * j]) == b.0 && v(ext[4 * j + 1]) == b.1 && v(ext[4 * j + 2]) == b.2
}

/// The square of the length of a stretched quaternion.
proof fn lemma_stretched(d: (real, real, real, real), n: real)
    requires
        square_length(d) == 1 as real,
    ensures
        square_length(stretched(d, n)) == prod(n, n),
{
    let nn = prod(n, n);
    lemma_four_factors(d.0, n, d.0, n);
    lemma_four_factors(d.1, n, d.1, n);
    lemma_four_factors(d.2, n, d.2, n);
    lemma_four_factors(d.3, n, d.3, n);
    lemma_sum_times(
        square_length(d),
        nn,
        prod(d.0, d.0),
        prod(d.1, d.1),
        prod(d.2, d.2),
        prod(d.3, d.3),
    );
    lemma_prod(nn, 1 as real);
    lemma_prod(1 as real, nn);
}

/// The matrix of a quaternion does not depend on its length.
proof fn lemma_any_length<D: Scalar>(
    u: spec_fn(D) -> real,
    q: Seq<D>,
    d: (real, real, real, real),
    c: real,
)
    requires
        faithful(u),
        q.len() == 4,
        square_length(d) == 1 as real,
        c != 0 as real,
        (u(q[0]), u(q[1]), u(q[2]), u(q[3])) == stretched(d, c),
    ensures
        turns_like(u, quat_matrix(q), d),
{
    lemma_whole::<D>(u, 1);
    lemma_whole::<D>(u, 2);
    let cc = prod(c, c);
    lemma_stretched(d, c);
    let len = q[0].times_spec(q[0]).plus_spec(q[1].times_spec(q[1])).plus_spec(
        q[2].times_spec(q[2]),
    ).plus_spec(q[3].times_spec(q[3]));
    assert(u(len) == cc);
    lemma_prod_square(c);
    let s = u(D::ratio_spec(2, 1).over_spec(len));
    assert(prod(s, cc) == 2 as real);
    let (x, y, z, w) = d;
    lemma_entry(s, c, cc, x, x);
    lemma_entry(s, c, cc, y, y);
    lemma_entry(s, c, cc, z, z);
    lemma_entry(s, c, cc, x, y);
    lemma_entry(s, c, cc, x, z);
    lemma_entry(s, c, cc, y, z);
    lemma_entry(s, c, cc, x, w);
    lemma_entry(s, c, cc, y, w);
    lemma_entry(s, c, cc, z, w);
    let (i, j, k, r) = (u(q[0]), u(q[1]), u(q[2]), u(q[3]));
    lemma_prod_plus(s, prod(j, j), prod(k, k));
    lemma_prod_plus(s, prod(i, j), prod(k, r));
    lemma_prod_plus(s, prod(i, k), prod(j, r));
    lemma_prod_plus(s, prod(i, i), prod(k, k));
    lemma_prod_plus(s, prod(j, k), prod(i, r));
    lemma_prod_plus(s, prod(i, i), prod(j, j));
}

/// Two over the square of a length, times two stretched components.
proof fn lemma_entry(s: real, c: real, cc: real, x: real, y: real)
    requires
        cc == prod(c, c),
        prod(s, cc) == 2 as real,
    ensures
        prod(s, prod(prod(x, c), prod(y, c))) == (2 as real) * prod(x, y),
{
    lemma_four_factors(x, c, y, c);
    let xy = prod(x, y);
    lemma_prod(xy, cc);
    lemma_prod_regroup(s, cc, xy);
    lemma_prod_two(xy);
}

/// A Gaussian stands in the world as the network turns it and as its camera is turned:
/// where `d` is the direction of the network's quaternion, `n` its length, and `p` turns
/// the axes into the rows of the extrinsics' rotation, the Gaussian's quaternion is the
/// product of `p` and `d` or the opposite of that, and its last number is not negative.
pub proof fn law_gaussian_turns<S: Scalar, D: Circular + Widens<S>>(
    v: spec_fn(S) -> real,
    u: spec_fn(D) -> real,
    a: GsAdapter<D>,
    raw: Seq<S>,
    depth: Seq<S>,
    conf: Seq<S>,
    ext: Seq<S>,
    intr: Seq<S>,
    h: int,
    w: int,
    pix: int,
    d: (real, real, real, real),
    n: real,
    p: (real, real, real, real),
)
    requires
        faithful_roots(u),
        faithful_widening::<S, D>(v, u),
        u(D::from_double_bits_spec(0x3e45_798e_e230_8c3a)) >= 0 as real,
        0 <= pix < h * w,
        square_length(d) == 1 as real,
        n > 0 as real,
        raw_turn(v, raw, pix) == stretched(d, n),
        square_length(p) == 1 as real,
        camera_axes(v, ext, p, 0),
        camera_axes(v, ext, p, 1),
        camera_axes(v, ext, p, 2),
    ensures
        ({
            let r = built_of::<S, D>(a, raw, depth, conf, ext, intr, h, w).rotations;
            &&& r.len() == h * w * 4
            &&& found_turn(v, r.subrange(4 * pix, 4 * pix + 4), hamilton(p, d))
            &&& v(r[4 * pix + 3]) >= 0 as real
        }),
{
    let q = unit_quat::<S, D>(raw, pix);
    let g = Seq::new(4, |i: int| D::widened_spec(raw[pix * 37 + 5 + i]));
    let squares = g[0].times_spec(g[0]).plus_spec(g[1].times_spec(g[1])).plus_spec(
        g[2].times_spec(g[2]),
    ).plus_spec(g[3].times_spec(g[3]));
    let tiny = D::from_double_bits_spec(0x3e45_798e_e230_8c3a);
    let nn = squares.root_spec().plus_spec(tiny);
    let t = raw_turn(v, raw, pix);
    assert(u(g[3]) == t.0 && u(g[0]) == t.1 && u(g[1]) == t.2 && u(g[2]) == t.3);
    lemma_stretched(d, n);
    lemma_prod_square(n);
    assert(u(squares) == prod(n, n));
    lemma_one_root(n, u(squares.root_spec()));
    let e = u(nn);
    assert(e == n + u(tiny));
    let f = (u(q[3]), u(q[0]), u(q[1]), u(q[2]));
    assert(q[0] == g[0].over_spec(nn) && q[1] == g[1].over_spec(nn) && q[2] == g[2].over_spec(nn)
        && q[3] == g[3].over_spec(nn));
    assert(prod(f.0, e) == t.0 && prod(f.1, e) == t.1 && prod(f.2, e) == t.2 && prod(f.3, e)
        == t.3);
    let c = prod(f.0, d.0) + prod(f.1, d.1) + prod(f.2, d.2) + prod(f.3, d.3);
    assert(prod(c, e) == n) by {
        lemma_sum_times(
            c,
            e,
            prod(f.0, d.0),
            prod(f.1, d.1),
            prod(f.2, d.2),
            prod(f.3, d.3),
        );
        lemma_swapped(f.0, d.0, e, n);
        lemma_swapped(f.1, d.1, e, n);
        lemma_swapped(f.2, d.2, e, n);
        lemma_swapped(f.3, d.3, e, n);
        lemma_sum_times(
            square_length(d),
            n,
            prod(d.0, d.0),
            prod(d.1, d.1),
            prod(d.2, d.2),
            prod(d.3, d.3),
        );
        lemma_prod(n, 1 as real);
        lemma_prod(1 as real, n);
    }
    assert(c != 0 as real) by {
        lemma_prod(e, 0 as real);
        lemma_prod(0 as real, e);
    }
    lemma_same_share(f.0, d.0, c, e, n);
    lemma_same_share(f.1, d.1, c, e, n);
    lemma_same_share(f.2, d.2, c, e, n);
    lemma_same_share(f.3, d.3, c, e, n);
    let r = seq![q[3], q[0], q[1], q[2]];
    lemma_any_length(u, r, d, c);
    let rotation = rotation_of::<S, D>(ext);
    assert(axes_turned(u, rotation, p)) by {
        assert(rotation[0] == D::widened_spec(ext[0]) && rotation[3] == D::widened_spec(ext[1])
            && rotation[6] == D::widened_spec(ext[2]));
        assert(rotation[1] == D::widened_spec(ext[4]) && rotation[4] == D::widened_spec(ext[5])
            && rotation[7] == D::widened_spec(ext[6]));
        assert(rotation[2] == D::widened_spec(ext[8]) && rotation[5] == D::widened_spec(ext[9])
            && rotation[8] == D::widened_spec(ext[10]));
    }
    lemma_world(u, r, rotation, d, p);
    assert(seq![r[1], r[2], r[3], r[0]] =~= q);
    let wq = world_quat(q, rotation);
    let out = built_of::<S, D>(a, raw, depth, conf, ext, intr, h, w).rotations;
    assert forall|k: int| 0 <= k < 4 implies #[trigger] out[4 * pix + k] == wq[k].narrowed_spec()
        by {
        assert((4 * pix + k) / 4 == pix && (4 * pix + k) % 4 == k);
    }
    let part = out.subrange(4 * pix, 4 * pix + 4);
    assert(part[0] == out[4 * pix + 0] && part[1] == out[4 * pix + 1] && part[2] == out[4 * pix + 2]
        && part[3] == out[4 * pix + 3]);
    assert(v(wq[0].narrowed_spec()) == u(wq[0]) && v(wq[1].narrowed_spec()) == u(wq[1]) && v(
        wq[2].narrowed_spec(),
    ) == u(wq[2]) && v(wq[3].narrowed_spec()) == u(wq[3]));
}

/// Three factors of which two make up a product.
proof fn lemma_swapped(f: real, d: real, e: real, n: real)
    requires
        prod(f, e) == prod(d, n),
    ensures
        prod(prod(f, d), e) == prod(prod(d, d), n),
{
    lemma_prod_regroup(d, f, e);
    lemma_prod_regroup(d, d, n);
    lemma_prod(f, d);
}

/// A component over the same divisor.
proof fn lemma_same_share(f: real, d: real, c: real, e: real, n: real)
    requires
        prod(f, e) == prod(d, n),
        prod(c, e) == n,
        e != 0 as real,
    ensures
        f == prod(d, c),
{
    lemma_prod_regroup(d, c, e);
    lemma_prod(e, f);
    lemma_prod(e, prod(d, c));
    lemma_prod_cancel(e, f, prod(d, c));
}

/// The linear map from raw coefficients to a harmonic: row `k` of `m`, of `n` numbers,
/// over the coefficients from `at` on.
pub open spec fn mixed<S, D>(
    v: spec_fn(S) -> real,
    u: spec_fn(D) -> real,
    m: Seq<D>,
    k: int,
    n: nat,
    raw: Seq<S>,
    at: int,
) -> real {
    sum(|j: int| prod(u(m[k * n + j]), v(raw[at + j])), n)
}

/// The harmonics of colour `c` of a pixel come from that colour's nine numbers behind the
/// first nine of the pixel. The first stays as it is. The next three are a fortieth of
/// the three numbers behind it, rotated by the camera's matrix of degree one, and the
/// last five are a 160th of the last five, rotated by its matrix of degree two.
pub proof fn law_harmonics<S: Scalar, D: Circular + Widens<S>>(
    v: spec_fn(S) -> real,
    u: spec_fn(D) -> real,
    a: GsAdapter<D>,
    raw: Seq<S>,
    depth: Seq<S>,
    conf: Seq<S>,
    ext: Seq<S>,
    intr: Seq<S>,
    h: int,
    w: int,
    pix: int,
    c: int,
    k: int,
)
    requires
        faithful(u),
        faithful_widening::<S, D>(v, u),
        a.sh_degree >= 2,
        a.d_sh == 9,
        0 <= pix < h * w,
        0 <= c < 3,
        0 <= k < 9,
    ensures
        ({
            let out = built_of::<S, D>(a, raw, depth, conf, ext, intr, h, w).harmonics;
            let sh = shared_of::<S, D>(ext, intr, h, w, a.sh_degree as int);
            let x = v(out[(3 * pix + c) * 9 + k]);
            let at = 37 * pix + 9 + 9 * c;
            &&& out.len() == h * w * 3 * 9
            &&& k == 0 ==> x == v(raw[at])
            &&& 1 <= k < 4 ==> (40 as real) * x == mixed(v, u, sh.degree1, k - 1, 3, raw, at + 1)
            &&& 4 <= k ==> (160 as real) * x == mixed(v, u, sh.degree2, k - 4, 5, raw, at + 4)
        }),
{
    let out = built_of::<S, D>(a, raw, depth, conf, ext, intr, h, w).harmonics;
    let sh = shared_of::<S, D>(ext, intr, h, w, a.sh_degree as int);
    lemma_whole::<D>(u, 0);
    lemma_whole::<D>(u, 1);
    let row = 3 * pix + c;
    lemma_within(pix, h * w, c, 3);
    lemma_within(row, h * w * 3, k, 9);
    lemma_split(row, 9, k);
    lemma_split(pix, 3, c);
    let at = 37 * pix + 9 + 9 * c;
    assert(row / 3 == pix && row % 3 == c);
    assert(out[row * 9 + k] == harmonic_at::<S, D>(raw, sh, 9, row, k));
    let f = |j: int| coefficient::<S, D>(raw, sh.mask, 9, row, j);
    assert forall|j: int| 0 <= j < 9 implies #[trigger] f(j) == D::widened_spec(
        raw[at + j],
    ).times_spec(sh.mask[j]) by {
        assert(row / 3 * 37 + 9 + row % 3 * 9 + j == at + j);
    }
    let tenth = D::ratio_spec(1, 10);
    let (quarter, sixteenth) = (D::ratio_spec(1, 4), D::ratio_spec(1, 16));
    assert(prod(u(tenth), 10u32 as int as real) == 1 as real);
    assert(prod(u(quarter), 4u32 as int as real) == 1 as real);
    assert(prod(u(sixteenth), 16u32 as int as real) == 1 as real);
    lemma_fractions(u(tenth), u(quarter), u(sixteenth));
    if k == 0 {
        assert(sh.mask[0] == D::ratio_spec(1, 1));
        lemma_prod(v(raw[at]), 1 as real);
        assert(f(0) == D::widened_spec(raw[at + 0]).times_spec(sh.mask[0]));
        assert(v(f(0).narrowed_spec()) == u(f(0)));
    } else if k < 4 {
        let g = |j: int| sh.degree1[(k - 1) * 3 + j].times_spec(f(1 + j));
        let y = accumulate(D::ratio_spec(0, 1), g, 3);
        lemma_accumulate(u, D::ratio_spec(0, 1), g, 3);
        assert(v(y.narrowed_spec()) == u(y));
        let gs = |j: int| u(g(j));
        let ms = |j: int| prod(u(sh.degree1[(k - 1) * 3 + j]), v(raw[at + 1 + j]));
        assert forall|j: int| 0 <= j < 3 implies #[trigger] ms(j) == (40 as real) * gs(j) by {
            assert(f(1 + j) == D::widened_spec(raw[at + (1 + j)]).times_spec(sh.mask[1 + j]));
            assert(sh.mask[1 + j] == tenth.times_spec(quarter));
            lemma_weighted_40(
                u(sh.degree1[(k - 1) * 3 + j]),
                v(raw[at + 1 + j]),
                prod(u(tenth), u(quarter)),
            );
        }
        reveal_with_fuel(sum, 4);
        assert(ms(0) == (40 as real) * gs(0) && ms(1) == (40 as real) * gs(1) && ms(2) == (
        40 as real) * gs(2));
        lemma_sum_agree(|i: int| u(g(i)), gs, 3);
        lemma_sum_agree(
            |j: int| prod(u(sh.degree1[(k - 1) * 3 + j]), v(raw[(at + 1) + j])),
            ms,
            3,
        );
        assert(harmonic_at::<S, D>(raw, sh, 9, row, k) == y.narrowed_spec()) by {
            let c2 = |j: int| coefficient::<S, D>(raw, sh.mask, 9, row, j);
            let g2 = |j: int| sh.degree1[(k - 1) * 3 + j].times_spec(c2(1 + j));
            lemma_accumulate_agree(D::ratio_spec(0, 1), g, g2, 3);
        }
    } else {
        let g = |j: int| sh.degree2[(k - 4) * 5 + j].times_spec(f(4 + j));
        let y = accumulate(D::ratio_spec(0, 1), g, 5);
        lemma_accumulate(u, D::ratio_spec(0, 1), g, 5);
        assert(v(y.narrowed_spec()) == u(y));
        let gs = |j: int| u(g(j));
        let ms = |j: int| prod(u(sh.degree2[(k - 4) * 5 + j]), v(raw[at + 4 + j]));
        assert forall|j: int| 0 <= j < 5 implies #[trigger] ms(j) == (160 as real) * gs(j) by {
            assert(f(4 + j) == D::widened_spec(raw[at + (4 + j)]).times_spec(sh.mask[4 + j]));
            assert(sh.mask[4 + j] == tenth.times_spec(sixteenth));
            lemma_weighted_160(
                u(sh.degree2[(k - 4) * 5 + j]),
                v(raw[at + 4 + j]),
                prod(u(tenth), u(sixteenth)),
            );
        }
        reveal_with_fuel(sum, 6);
        assert(ms(0) == (160 as real) * gs(0) && ms(1) == (160 as real) * gs(1) && ms(2) == (
        160 as real) * gs(2) && ms(3) == (160 as real) * gs(3) && ms(4) == (160 as real) * gs(4));
        lemma_sum_agree(|i: int| u(g(i)), gs, 5);
        lemma_sum_agree(
            |j: int| prod(u(sh.degree2[(k - 4) * 5 + j]), v(raw[(at + 4) + j])),
            ms,
            5,
        );
        assert(harmonic_at::<S, D>(raw, sh, 9, row, k) == y.narrowed_spec()) by {
            let c2 = |j: int| coefficient::<S, D>(raw, sh.mask, 9, row, j);
            let g2 = |j: int| sh.degree2[(k - 4) * 5 + j].times_spec(c2(4 + j));
            lemma_accumulate_agree(D::ratio_spec(0, 1), g, g2, 5);
        }
    }
}

/// A tenth of a quarter and of a sixteenth.
proof fn lemma_fractions(t: real, q: real, s: real)
    requires
        prod(t, 10 as real) == 1 as real,
        prod(q, 4 as real) == 1 as real,
        prod(s, 16 as real) == 1 as real,
    ensures
        (40 as real) * prod(t, q) == 1 as real,
        (160 as real) * prod(t, s) == 1 as real,
{
    reveal(prod);
    assert(t * q == (t * (10 as real)) * (q * (4 as real)) / (40 as real)) by (nonlinear_arith);
    assert(t * s == (t * (10 as real)) * (s * (16 as real)) / (160 as real)) by (nonlinear_arith);
}

/// Forty times a product with a fortieth.
proof fn lemma_weighted_40(m: real, r: real, w: real)
    requires
        (40 as real) * w == 1 as real,
    ensures
        prod(m, r) == (40 as real) * prod(m, prod(r, w)),
{
    reveal(prod);
    assert(m * r == (40 as real) * (m * (r * w))) by (nonlinear_arith)
        requires
            (40 as real) * w == 1 as real,
    ;
}

/// 160 times a product with a 160th.
proof fn lemma_weighted_160(m: real, r: real, w: real)
    requires
        (160 as real) * w == 1 as real,
    ensures
        prod(m, r) == (160 as real) * prod(m, prod(r, w)),
{
    reveal(prod);
    assert(m * r == (160 as real) * (m * (r * w))) by (nonlinear_arith)
        requires
            (160 as real) * w == 1 as real,
    ;
}

/// `cs` and `sn` are cosine and sine of the reals, as far as signs and sums go, and those
/// of numbers are exact with them.
pub open spec fn circles<D: Circular>(
    u: spec_fn(D) -> real,
    cs: spec_fn(real) -> real,
    sn: spec_fn(real) -> real,
) -> bool {
    &&& faithful(u)
    &&& forall|x: D| u(#[trigger] x.cosine_spec()) == cs(u(x))
    &&& forall|x: D| u(#[trigger] x.sine_spec()) == sn(u(x))
    &&& cs(0 as real) == 1 as real && sn(0 as real) == 0 as real
    &&& forall|a: real, b: real|
        #[trigger] cs(a + b) == prod(cs(a), cs(b)) - prod(sn(a), sn(b))
    &&& forall|a: real, b: real|
        #[trigger] sn(a + b) == prod(sn(a), cs(b)) + prod(cs(a), sn(b))
}

/// Element `i`, `j` of the rotation of harmonics about their axis.
pub open spec fn axis_entry<D: Circular>(
    u: spec_fn(D) -> real,
    angle: D,
    l: int,
    i: int,
    j: int,
) -> real {
    u(axis_rotation(angle, l)[i * (2 * l + 1) + j])
}

/// Turning harmonics about their axis mixes each with its opposite number: number `i` of
/// degree `l` stands for the frequency `l - i`, and the pair of `i` and `2 l - i` turns by
/// `l - i` times the angle. Everything else stays apart. A turn by nothing changes
/// nothing, and one turn after another is the turn by both angles.
pub proof fn law_axis_rotation<D: Circular>(
    u: spec_fn(D) -> real,
    cs: spec_fn(real) -> real,
    sn: spec_fn(real) -> real,
    a: D,
    b: D,
    l: int,
    i: int,
    j: int,
)
    requires
        circles(u, cs, sn),
        1 <= l <= 0x7fff_ffff,
        0 <= i < 2 * l + 1,
        0 <= j < 2 * l + 1,
    ensures
        axis_rotation(a, l).len() == (2 * l + 1) * (2 * l + 1),
        i == j ==> axis_entry(u, a, l, i, j) == cs(prod((l - i) as real, u(a))),
        i != j && i + j == 2 * l ==> axis_entry(u, a, l, i, j) == sn(prod((l - i) as real, u(a))),
        i != j && i + j != 2 * l ==> axis_entry(u, a, l, i, j) == 0 as real,
        u(a) == 0 as real && i == j ==> axis_entry(u, a, l, i, j) == 1 as real,
        u(a) == 0 as real && i != j ==> axis_entry(u, a, l, i, j) == 0 as real,
        i != j && i + j == 2 * l ==> axis_entry(u, a.plus_spec(b), l, i, i) == prod(
            axis_entry(u, a, l, i, i),
            axis_entry(u, b, l, i, i),
        ) - prod(axis_entry(u, a, l, i, j), axis_entry(u, b, l, i, j)) && axis_entry(
            u,
            a.plus_spec(b),
            l,
            i,
            j,
        ) == prod(axis_entry(u, a, l, i, j), axis_entry(u, b, l, i, i)) + prod(
            axis_entry(u, a, l, i, i),
            axis_entry(u, b, l, i, j),
        ),
{
    lemma_axis_entry(u, cs, sn, a, l, i, j);
    lemma_axis_entry(u, cs, sn, a, l, i, i);
    lemma_axis_entry(u, cs, sn, b, l, i, j);
    lemma_axis_entry(u, cs, sn, b, l, i, i);
    lemma_axis_entry(u, cs, sn, a.plus_spec(b), l, i, j);
    lemma_axis_entry(u, cs, sn, a.plus_spec(b), l, i, i);
    let f = (l - i) as real;
    lemma_prod(f, 0 as real);
    lemma_prod_plus(f, u(a), u(b));
    let (p, q) = (prod(f, u(a)), prod(f, u(b)));
    assert(cs(p + q) == prod(cs(p), cs(q)) - prod(sn(p), sn(q)));
    assert(sn(p + q) == prod(sn(p), cs(q)) + prod(cs(p), sn(q)));
}

proof fn lemma_axis_entry<D: Circular>(
    u: spec_fn(D) -> real,
    cs: spec_fn(real) -> real,
    sn: spec_fn(real) -> real,
    a: D,
    l: int,
    i: int,
    j: int,
)
    requires
        circles(u, cs, sn),
        1 <= l <= 0x7fff_ffff,
        0 <= i < 2 * l + 1,
        0 <= j < 2 * l + 1,
    ensures
        axis_rotation(a, l).len() == (2 * l + 1) * (2 * l + 1),
        i == j ==> axis_entry(u, a, l, i, j) == cs(prod((l - i) as real, u(a))),
        i != j && i + j == 2 * l ==> axis_entry(u, a, l, i, j) == sn(prod((l - i) as real, u(a))),
        i != j && i + j != 2 * l ==> axis_entry(u, a, l, i, j) == 0 as real,
{
    lemma_whole::<D>(u, 0);
    let d = 2 * l + 1;
    lemma_within(i, d, j, d);
    lemma_split(i, d, j);
    let freq = D::from_count_spec(l as usize).minus_spec(D::from_count_spec(i as usize));
    assert(u(freq) == (l - i) as real);
    let x = freq.times_spec(a);
    assert(u(x) == prod((l - i) as real, u(a)));
}

} // verus!
