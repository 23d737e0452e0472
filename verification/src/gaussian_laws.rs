//! Where Gaussians lie and how large they are, where arithmetic is exact.

use crate::activation_laws::exponentials;
use crate::gs_adapter::{
    built_of, cross, depth_at, image_place, inverse3, inverse_or_zero, mean_at, multiplier_of,
    normed, place_of, ray_at, rotation_of, shared_of, unit_vector, GsAdapter,
};
use crate::index::{accumulate, lemma_split, lemma_within};
use crate::inverse_laws::{law_inverse_or_zeros, unit_matrix};
use crate::linalg::det3_of;
use crate::linalg_laws::{at, delta, lemma_four_factors, lemma_sum_three, product};
use crate::reals::{
    faithful, faithful_roots, faithful_widening, lemma_prod, lemma_prod_cancel, lemma_prod_plus,
    lemma_prod_regroup, lemma_prod_sign, lemma_prod_square, lemma_prod_two, lemma_whole, prod,
};
use crate::scalar::{zero, Analytic, Circular, Scalar, Widens};
use vstd::prelude::*;

verus! {

/// The inner product of two vectors.
pub open spec fn dot(a: (real, real, real), b: (real, real, real)) -> real {
    prod(a.0, b.0) + prod(a.1, b.1) + prod(a.2, b.2)
}

/// Row `i` of the rotation of a 3x4 matrix.
pub open spec fn turn_row<S>(v: spec_fn(S) -> real, ext: Seq<S>, i: int) -> (real, real, real) {
    (v(ext[4 * i]), v(ext[4 * i + 1]), v(ext[4 * i + 2]))
}

/// Row `i` of a 3x3 matrix.
pub open spec fn lens_row<S>(v: spec_fn(S) -> real, intr: Seq<S>, i: int) -> (real, real, real) {
    (v(intr[3 * i]), v(intr[3 * i + 1]), v(intr[3 * i + 2]))
}

/// The rotation of a 3x4 matrix is one: its rows have length one and are at right
/// angles.
pub open spec fn turns_rigidly<S>(v: spec_fn(S) -> real, ext: Seq<S>) -> bool {
    forall|i: int, j: int|
        0 <= i < 3 && 0 <= j < 3 ==> dot(
            #[trigger] turn_row(v, ext, i),
            #[trigger] turn_row(v, ext, j),
        ) == delta(i, j)
}

/// A point of the world as the camera has it.
pub open spec fn in_camera<S>(
    v: spec_fn(S) -> real,
    ext: Seq<S>,
    p: (real, real, real),
) -> (real, real, real) {
    (
        dot(turn_row(v, ext, 0), p) + v(ext[3]),
        dot(turn_row(v, ext, 1), p) + v(ext[7]),
        dot(turn_row(v, ext, 2), p) + v(ext[11]),
    )
}

/// A point of the camera's as it appears in the image: two coordinates and their
/// common divisor.
pub open spec fn in_image<S>(
    v: spec_fn(S) -> real,
    intr: Seq<S>,
    p: (real, real, real),
) -> (real, real, real) {
    (dot(lens_row(v, intr, 0), p), dot(lens_row(v, intr, 1), p), dot(lens_row(v, intr, 2), p))
}

/// The centre of pixel `pix`'s Gaussian.
pub open spec fn centre<S: Scalar, D: Circular + Widens<S>>(
    v: spec_fn(S) -> real,
    a: GsAdapter<D>,
    raw: Seq<S>,
    depth: Seq<S>,
    conf: Seq<S>,
    ext: Seq<S>,
    intr: Seq<S>,
    h: int,
    w: int,
    pix: int,
) -> (real, real, real) {
    let m = built_of::<S, D>(a, raw, depth, conf, ext, intr, h, w).means;
    (v(m[3 * pix]), v(m[3 * pix + 1]), v(m[3 * pix + 2]))
}

/// The depth of pixel `pix` with what the network adds to it.
pub open spec fn full_depth<S, D>(
    v: spec_fn(S) -> real,
    a: GsAdapter<D>,
    raw: Seq<S>,
    depth: Seq<S>,
    pix: int,
) -> real {
    v(depth[pix]) + (if a.pred_offset_depth {
        v(raw[37 * pix + 36])
    } else {
        0 as real
    })
}

/// How far the network moves pixel `pix` to the right (`which` 0) or down (`which` 1).
pub open spec fn moved<S, D>(
    v: spec_fn(S) -> real,
    a: GsAdapter<D>,
    raw: Seq<S>,
    pix: int,
    which: int,
) -> real {
    if a.pred_offset_xy {
        v(raw[37 * pix + which])
    } else {
        0 as real
    }
}

/// A multiple of a vector in an inner product.
pub proof fn lemma_dot_times(a: (real, real, real), b: (real, real, real), c: real)
    ensures
        dot(a, (prod(b.0, c), prod(b.1, c), prod(b.2, c))) == prod(dot(a, b), c),
{
    lemma_prod_regroup(a.0, b.0, c);
    lemma_prod_regroup(a.1, b.1, c);
    lemma_prod_regroup(a.2, b.2, c);
    lemma_prod_plus(c, prod(a.0, b.0) + prod(a.1, b.1), prod(a.2, b.2));
    lemma_prod_plus(c, prod(a.0, b.0), prod(a.1, b.1));
}

/// A sum of multiples of three vectors in an inner product.
pub proof fn lemma_dot_rows(
    a: (real, real, real),
    p: (real, real, real),
    q: (real, real, real),
    r: (real, real, real),
    z: (real, real, real),
)
    ensures
        dot(
            a,
            (
                prod(p.0, z.0) + prod(q.0, z.1) + prod(r.0, z.2),
                prod(p.1, z.0) + prod(q.1, z.1) + prod(r.1, z.2),
                prod(p.2, z.0) + prod(q.2, z.1) + prod(r.2, z.2),
            ),
        ) == prod(dot(a, p), z.0) + prod(dot(a, q), z.1) + prod(dot(a, r), z.2),
{
    lemma_dot_times(a, p, z.0);
    lemma_dot_times(a, q, z.1);
    lemma_dot_times(a, r, z.2);
    lemma_prod_plus(a.0, prod(p.0, z.0) + prod(q.0, z.1), prod(r.0, z.2));
    lemma_prod_plus(a.0, prod(p.0, z.0), prod(q.0, z.1));
    lemma_prod_plus(a.1, prod(p.1, z.0) + prod(q.1, z.1), prod(r.1, z.2));
    lemma_prod_plus(a.1, prod(p.1, z.0), prod(q.1, z.1));
    lemma_prod_plus(a.2, prod(p.2, z.0) + prod(q.2, z.1), prod(r.2, z.2));
    lemma_prod_plus(a.2, prod(p.2, z.0), prod(q.2, z.1));
}

/// The camera's place.
proof fn lemma_translation<S: Scalar, D: Widens<S> + Analytic>(
    v: spec_fn(S) -> real,
    u: spec_fn(D) -> real,
    ext: Seq<S>,
    j: int,
)
    requires
        faithful(u),
        faithful_widening::<S, D>(v, u),
        0 <= j < 3,
    ensures
        u(place_of::<S, D>(ext)[j]) == -(prod(v(ext[j]), v(ext[3])) + prod(v(ext[4 + j]), v(ext[7]))
            + prod(v(ext[8 + j]), v(ext[11]))),
        u(rotation_of::<S, D>(ext)[3 * j]) == v(ext[j]),
        u(rotation_of::<S, D>(ext)[3 * j + 1]) == v(ext[4 + j]),
        u(rotation_of::<S, D>(ext)[3 * j + 2]) == v(ext[8 + j]),
{
    lemma_whole::<D>(u, 0);
    let r = rotation_of::<S, D>(ext);
    let f = |k: int| r[j * 3 + k].times_spec(D::widened_spec(ext[k * 4 + 3]));
    reveal_with_fuel(accumulate, 4);
    assert((3 * j) % 3 * 4 + (3 * j) / 3 == j);
    assert((3 * j + 1) % 3 * 4 + (3 * j + 1) / 3 == 4 + j);
    assert((3 * j + 2) % 3 * 4 + (3 * j + 2) / 3 == 8 + j);
    assert(r[3 * j] == D::widened_spec(ext[j]));
    assert(r[3 * j + 1] == D::widened_spec(ext[4 + j]));
    assert(r[3 * j + 2] == D::widened_spec(ext[8 + j]));
    assert(u(f(0)) == prod(v(ext[j]), v(ext[3])));
    assert(u(f(1)) == prod(v(ext[4 + j]), v(ext[7])));
    assert(u(f(2)) == prod(v(ext[8 + j]), v(ext[11])));
    let s = accumulate(zero::<D>(), f, 3);
    assert(u(s) == u(f(0)) + u(f(1)) + u(f(2)));
    assert(place_of::<S, D>(ext)[j] == s.negated_spec());
}

/// A coordinate of a centre: the camera's axes times a vector.
proof fn lemma_mean<S: Scalar, D: Widens<S> + Circular>(
    v: spec_fn(S) -> real,
    u: spec_fn(D) -> real,
    raw: Seq<S>,
    depth: Seq<S>,
    ext: Seq<S>,
    intr: Seq<S>,
    degree: int,
    offset_depth: bool,
    offset_xy: bool,
    h: int,
    w: int,
    pix: int,
    j: int,
)
    requires
        faithful(u),
        faithful_widening::<S, D>(v, u),
        0 <= j < 3,
    ensures
        ({
            let sh = shared_of::<S, D>(ext, intr, h, w, degree);
            let ray = ray_at::<S, D>(raw, sh.unproject, offset_xy, h, w, pix);
            let d = u(depth_at::<S, D>(raw, depth, offset_depth, pix));
            v(mean_at::<S, D>(raw, depth, sh, offset_depth, offset_xy, h, w, pix, j)) == prod(
                v(ext[j]),
                prod(u(ray.0), d) - v(ext[3]),
            ) + prod(v(ext[4 + j]), prod(u(ray.1), d) - v(ext[7])) + prod(
                v(ext[8 + j]),
                prod(u(ray.2), d) - v(ext[11]),
            )
        }),
{
    let sh = shared_of::<S, D>(ext, intr, h, w, degree);
    let (x, y, z) = ray_at::<S, D>(raw, sh.unproject, offset_xy, h, w, pix);
    let dd = depth_at::<S, D>(raw, depth, offset_depth, pix);
    let d = u(dd);
    lemma_translation::<S, D>(v, u, ext, j);
    let (e0, e1, e2) = (v(ext[j]), v(ext[4 + j]), v(ext[8 + j]));
    let r = sh.rotation;
    let row = r[j * 3].times_spec(x).plus_spec(r[j * 3 + 1].times_spec(y)).plus_spec(
        r[j * 3 + 2].times_spec(z),
    );
    assert(u(row) == prod(e0, u(x)) + prod(e1, u(y)) + prod(e2, u(z)));
    let m = sh.translation[j].plus_spec(row.times_spec(dd));
    assert(v(m.narrowed_spec()) == u(m));
    lemma_prod_plus(d, prod(e0, u(x)) + prod(e1, u(y)), prod(e2, u(z)));
    lemma_prod_plus(d, prod(e0, u(x)), prod(e1, u(y)));
    lemma_prod_regroup(e0, u(x), d);
    lemma_prod_regroup(e1, u(y), d);
    lemma_prod_regroup(e2, u(z), d);
    lemma_prod_plus(e0, prod(u(x), d), v(ext[3]));
    lemma_prod_plus(e1, prod(u(y), d), v(ext[7]));
    lemma_prod_plus(e2, prod(u(z), d), v(ext[11]));
}

/// The determinant in units of the image is not zero either.
proof fn lemma_normed<S: Scalar, D: Widens<S> + Analytic>(
    v: spec_fn(S) -> real,
    u: spec_fn(D) -> real,
    intr: Seq<S>,
    h: int,
    w: int,
)
    requires
        faithful(v),
        faithful(u),
        faithful_widening::<S, D>(v, u),
        0 < h <= usize::MAX,
        0 < w <= usize::MAX,
        v(det3_of(intr)) != 0 as real,
    ensures
        u(det3_of(normed::<S, D>(intr, h, w))) != 0 as real,
        forall|p: int|
            0 <= p < 3 ==> prod(u(#[trigger] normed::<S, D>(intr, h, w)[p]), w as real) == v(
                intr[p],
            ),
        forall|p: int|
            3 <= p < 6 ==> prod(u(#[trigger] normed::<S, D>(intr, h, w)[p]), h as real) == v(
                intr[p],
            ),
        forall|p: int| 6 <= p < 9 ==> u(#[trigger] normed::<S, D>(intr, h, w)[p]) == v(intr[p]),
{
    let kn = normed::<S, D>(intr, h, w);
    let (x, y) = (w as real, h as real);
    let k = |p: int| u(kn[p]);
    let c = |p: int| v(intr[p]);
    assert forall|p: int| 0 <= p < 3 implies prod(u(#[trigger] kn[p]), x) == v(intr[p]) by {
        assert(kn[p] == D::widened_spec(intr[p]).over_spec(D::from_count_spec(w as usize)));
    }
    assert forall|p: int| 3 <= p < 6 implies prod(u(#[trigger] kn[p]), y) == v(intr[p]) by {
        assert(kn[p] == D::widened_spec(intr[p]).over_spec(D::from_count_spec(h as usize)));
    }
    assert(prod(k(0), x) == c(0) && prod(k(1), x) == c(1) && prod(k(2), x) == c(2)) by {
        assert(prod(u(kn[0]), x) == v(intr[0]));
        assert(prod(u(kn[1]), x) == v(intr[1]));
        assert(prod(u(kn[2]), x) == v(intr[2]));
    }
    assert(prod(k(3), y) == c(3) && prod(k(4), y) == c(4) && prod(k(5), y) == c(5)) by {
        assert(prod(u(kn[3]), y) == v(intr[3]));
        assert(prod(u(kn[4]), y) == v(intr[4]));
        assert(prod(u(kn[5]), y) == v(intr[5]));
    }
    assert(k(6) == c(6) && k(7) == c(7) && k(8) == c(8));
    let m0 = prod(k(4), k(8)) - prod(k(5), k(7));
    let m1 = prod(k(3), k(8)) - prod(k(5), k(6));
    let m2 = prod(k(3), k(7)) - prod(k(4), k(6));
    let d = u(det3_of(kn));
    assert(d == prod(k(0), m0) - prod(k(1), m1) + prod(k(2), m2));
    lemma_minor(k(4), k(8), k(5), k(7), y);
    lemma_minor(k(3), k(8), k(5), k(6), y);
    lemma_minor(k(3), k(7), k(4), k(6), y);
    lemma_four_factors(k(0), m0, x, y);
    lemma_four_factors(k(1), m1, x, y);
    lemma_four_factors(k(2), m2, x, y);
    let xy = prod(x, y);
    lemma_prod_plus(xy, prod(k(0), m0) - prod(k(1), m1), prod(k(2), m2));
    lemma_prod_plus(xy, prod(k(0), m0), prod(k(1), m1));
    assert(prod(d, xy) == v(det3_of(intr)));
    lemma_prod(xy, 0 as real);
    lemma_prod(d, xy);
}

/// A 2x2 determinant with one row scaled.
proof fn lemma_minor(a: real, b: real, c: real, d: real, y: real)
    ensures
        prod(prod(a, b) - prod(c, d), y) == prod(prod(a, y), b) - prod(prod(c, y), d),
{
    lemma_prod_plus(y, prod(a, b), prod(c, d));
    lemma_prod_regroup(y, a, b);
    lemma_prod_regroup(y, c, d);
    lemma_prod(y, a);
    lemma_prod(y, c);
    lemma_prod(y, prod(a, b));
    lemma_prod(y, prod(c, d));
}

/// Where a pixel lies in the image, in units of the image.
proof fn lemma_image_place<D: Scalar>(
    u: spec_fn(D) -> real,
    position: int,
    offset: D,
    size: int,
    p: real,
)
    requires
        faithful(u),
        0 <= position <= usize::MAX,
        0 < size <= usize::MAX,
        p + p == (2 * position + 1) as real + u(offset) + u(offset),
    ensures
        prod(u(image_place(position, offset, size)), size as real) == p,
{
    let s = D::from_count_spec(size as usize);
    let half = D::ratio_spec(1, 2);
    let h = u(half);
    lemma_prod(h, 2 as real);
    lemma_prod_two(h);
    assert(prod(h, 2u32 as int as real) == 1 as real);
    let a = D::from_count_spec(position as usize).plus_spec(half);
    let x = a.over_spec(s);
    let y = offset.over_spec(s);
    assert(prod(u(x), u(s)) == position as real + h);
    assert(prod(u(y), u(s)) == u(offset));
    lemma_prod_plus(u(s), u(x), u(y));
}

/// A vector over its length.
proof fn lemma_unit<D: Analytic>(u: spec_fn(D) -> real, x: D, y: D, z: D)
    requires
        faithful_roots(u),
        u(x) != 0 as real || u(y) != 0 as real || u(z) != 0 as real,
    ensures
        ({
            let n = u(
                x.times_spec(x).plus_spec(y.times_spec(y)).plus_spec(z.times_spec(z)).root_spec(),
            );
            let e = unit_vector(x, y, z);
            let r = (u(e.0), u(e.1), u(e.2));
            &&& n > 0 as real
            &&& prod(r.0, n) == u(x) && prod(r.1, n) == u(y) && prod(r.2, n) == u(z)
            &&& dot(r, r) == 1 as real
        }),
{
    lemma_whole::<D>(u, 0);
    let s = x.times_spec(x).plus_spec(y.times_spec(y)).plus_spec(z.times_spec(z));
    lemma_prod_square(u(x));
    lemma_prod_square(u(y));
    lemma_prod_square(u(z));
    assert(u(s) > 0 as real);
    let n = u(s.root_spec());
    lemma_prod(n, 0 as real);
    assert(n > 0 as real);
    let e = unit_vector(x, y, z);
    let r = (u(e.0), u(e.1), u(e.2));
    lemma_four_factors(r.0, n, r.0, n);
    lemma_four_factors(r.1, n, r.1, n);
    lemma_four_factors(r.2, n, r.2, n);
    let nn = prod(n, n);
    lemma_prod_plus(nn, prod(r.0, r.0) + prod(r.1, r.1), prod(r.2, r.2));
    lemma_prod_plus(nn, prod(r.0, r.0), prod(r.1, r.1));
    assert(prod(dot(r, r), nn) == nn);
    lemma_prod(nn, dot(r, r));
    lemma_prod(nn, 1 as real);
    lemma_prod_cancel(nn, dot(r, r), 1 as real);
}

/// A matrix applied to what its inverse makes of a vector.
proof fn lemma_undone<D: Analytic>(
    u: spec_fn(D) -> real,
    kn: Seq<D>,
    p: (real, real, real),
    i: int,
)
    requires
        faithful(u),
        kn.len() == 9,
        u(det3_of(kn)) != 0 as real,
        0 <= i < 3,
    ensures
        ({
            let m = inverse3(kn);
            dot(
                (u(kn[3 * i]), u(kn[3 * i + 1]), u(kn[3 * i + 2])),
                (
                    prod(u(m[0]), p.0) + prod(u(m[1]), p.1) + prod(u(m[2]), p.2),
                    prod(u(m[3]), p.0) + prod(u(m[4]), p.1) + prod(u(m[5]), p.2),
                    prod(u(m[6]), p.0) + prod(u(m[7]), p.1) + prod(u(m[8]), p.2),
                ),
            ) == (if i == 0 {
                p.0
            } else if i == 1 {
                p.1
            } else {
                p.2
            })
        }),
{
    let m = inverse3(kn);
    law_inverse_or_zeros(u, kn);
    let a = (u(kn[3 * i]), u(kn[3 * i + 1]), u(kn[3 * i + 2]));
    let (f, g) = (at(u, kn, 3), at(u, m, 3));
    let c = |j: int| (u(m[j]), u(m[3 + j]), u(m[6 + j]));
    assert forall|j: int| 0 <= j < 3 implies dot(a, #[trigger] c(j)) == delta(i, j) by {
        let h = |t: int| prod(f(i, t), g(t, j));
        assert(product(f, g, 3, i, j) == unit_matrix()(i, j));
        lemma_sum_three(h);
        assert(h(0) == prod(a.0, c(j).0));
        assert(h(1) == prod(a.1, c(j).1));
        assert(h(2) == prod(a.2, c(j).2));
    }
    assert(dot(a, c(0)) == delta(i, 0));
    assert(dot(a, c(1)) == delta(i, 1));
    assert(dot(a, c(2)) == delta(i, 2));
    lemma_dot_rows(a, c(0), c(1), c(2), p);
    lemma_prod(p.0, 1 as real);
    lemma_prod(p.0, 0 as real);
    lemma_prod(0 as real, p.0);
    lemma_prod(1 as real, p.0);
    lemma_prod(0 as real, p.1);
    lemma_prod(1 as real, p.1);
    lemma_prod(p.1, 1 as real);
    lemma_prod(p.1, 0 as real);
    lemma_prod(0 as real, p.2);
    lemma_prod(1 as real, p.2);
    lemma_prod(p.2, 1 as real);
    lemma_prod(p.2, 0 as real);
}

/// A centre as the camera has it: the pixel's ray times the depth.
proof fn lemma_centre<S: Scalar, D: Widens<S> + Circular>(
    v: spec_fn(S) -> real,
    u: spec_fn(D) -> real,
    a: GsAdapter<D>,
    raw: Seq<S>,
    depth: Seq<S>,
    conf: Seq<S>,
    ext: Seq<S>,
    intr: Seq<S>,
    h: int,
    w: int,
    pix: int,
)
    requires
        faithful(u),
        faithful_widening::<S, D>(v, u),
        turns_rigidly(v, ext),
        0 <= pix < h * w,
    ensures
        ({
            let sh = shared_of::<S, D>(ext, intr, h, w, a.sh_degree as int);
            let ray = ray_at::<S, D>(raw, sh.unproject, a.pred_offset_xy, h, w, pix);
            let d = full_depth(v, a, raw, depth, pix);
            in_camera(v, ext, centre::<S, D>(v, a, raw, depth, conf, ext, intr, h, w, pix)) == (
                prod(u(ray.0), d),
                prod(u(ray.1), d),
                prod(u(ray.2), d),
            )
        }),
{
    let sh = shared_of::<S, D>(ext, intr, h, w, a.sh_degree as int);
    let ray = ray_at::<S, D>(raw, sh.unproject, a.pred_offset_xy, h, w, pix);
    let dd = depth_at::<S, D>(raw, depth, a.pred_offset_depth, pix);
    let d = full_depth(v, a, raw, depth, pix);
    assert(u(dd) == d);
    let m = built_of::<S, D>(a, raw, depth, conf, ext, intr, h, w).means;
    let f = |j: int|
        mean_at::<S, D>(raw, depth, sh, a.pred_offset_depth, a.pred_offset_xy, h, w, pix, j);
    assert((3 * pix) / 3 == pix && (3 * pix) % 3 == 0);
    assert((3 * pix + 1) / 3 == pix && (3 * pix + 1) % 3 == 1);
    assert((3 * pix + 2) / 3 == pix && (3 * pix + 2) % 3 == 2);
    assert(m[3 * pix] == f(0) && m[3 * pix + 1] == f(1) && m[3 * pix + 2] == f(2));
    lemma_mean::<S, D>(
        v,
        u,
        raw,
        depth,
        ext,
        intr,
        a.sh_degree as int,
        a.pred_offset_depth,
        a.pred_offset_xy,
        h,
        w,
        pix,
        0,
    );
    lemma_mean::<S, D>(
        v,
        u,
        raw,
        depth,
        ext,
        intr,
        a.sh_degree as int,
        a.pred_offset_depth,
        a.pred_offset_xy,
        h,
        w,
        pix,
        1,
    );
    lemma_mean::<S, D>(
        v,
        u,
        raw,
        depth,
        ext,
        intr,
        a.sh_degree as int,
        a.pred_offset_depth,
        a.pred_offset_xy,
        h,
        w,
        pix,
        2,
    );
    let z = (
        prod(u(ray.0), d) - v(ext[3]),
        prod(u(ray.1), d) - v(ext[7]),
        prod(u(ray.2), d) - v(ext[11]),
    );
    let (r0, r1, r2) = (turn_row(v, ext, 0), turn_row(v, ext, 1), turn_row(v, ext, 2));
    lemma_dot_rows(r0, r0, r1, r2, z);
    lemma_dot_rows(r1, r0, r1, r2, z);
    lemma_dot_rows(r2, r0, r1, r2, z);
    assert(dot(r0, r0) == 1 as real && dot(r0, r1) == 0 as real && dot(r0, r2) == 0 as real);
    assert(dot(r1, r0) == 0 as real && dot(r1, r1) == 1 as real && dot(r1, r2) == 0 as real);
    assert(dot(r2, r0) == 0 as real && dot(r2, r1) == 0 as real && dot(r2, r2) == 1 as real);
    lemma_prod(z.0, 1 as real);
    lemma_prod(1 as real, z.0);
    lemma_prod(z.0, 0 as real);
    lemma_prod(0 as real, z.0);
    lemma_prod(z.1, 1 as real);
    lemma_prod(1 as real, z.1);
    lemma_prod(z.1, 0 as real);
    lemma_prod(0 as real, z.1);
    lemma_prod(z.2, 1 as real);
    lemma_prod(1 as real, z.2);
    lemma_prod(z.2, 0 as real);
    lemma_prod(0 as real, z.2);
}

/// A pixel's ray through the intrinsics gives the pixel back.
proof fn lemma_ray<S: Scalar, D: Widens<S> + Circular>(
    v: spec_fn(S) -> real,
    u: spec_fn(D) -> real,
    a: GsAdapter<D>,
    raw: Seq<S>,
    intr: Seq<S>,
    h: int,
    w: int,
    row: int,
    col: int,
    px: real,
    py: real,
) -> (n: real)
    requires
        faithful(v),
        faithful_roots(u),
        faithful_widening::<S, D>(v, u),
        0 < h <= usize::MAX,
        0 < w <= usize::MAX,
        v(det3_of(intr)) != 0 as real,
        0 <= row < h,
        0 <= col < w,
        px + px == (2 * col + 1) as real + moved(v, a, raw, row * w + col, 0) + moved(
            v,
            a,
            raw,
            row * w + col,
            0,
        ),
        py + py == (2 * row + 1) as real + moved(v, a, raw, row * w + col, 1) + moved(
            v,
            a,
            raw,
            row * w + col,
            1,
        ),
    ensures
        ({
            let ray = ray_at::<S, D>(
                raw,
                inverse3(normed::<S, D>(intr, h, w)),
                a.pred_offset_xy,
                h,
                w,
                row * w + col,
            );
            let r = (u(ray.0), u(ray.1), u(ray.2));
            let q = in_image(v, intr, r);
            &&& n > 0 as real
            &&& dot(r, r) == 1 as real
            &&& prod(q.0, n) == px
            &&& prod(q.1, n) == py
            &&& prod(q.2, n) == 1 as real
        }),
{
    let pix = row * w + col;
    lemma_within(row, h, col, w);
    lemma_split(row, w, col);
    lemma_whole::<D>(u, 0);
    let kn = normed::<S, D>(intr, h, w);
    let m = inverse3(kn);
    lemma_normed::<S, D>(v, u, intr, h, w);
    let ox = if a.pred_offset_xy {
        D::widened_spec(raw[pix * 37])
    } else {
        zero::<D>()
    };
    let oy = if a.pred_offset_xy {
        D::widened_spec(raw[pix * 37 + 1])
    } else {
        zero::<D>()
    };
    let (x, y) = (image_place(col, ox, w), image_place(row, oy, h));
    lemma_image_place(u, col, ox, w, px);
    lemma_image_place(u, row, oy, h, py);
    let e0 = m[0].times_spec(x).plus_spec(m[1].times_spec(y)).plus_spec(m[2]);
    let e1 = m[3].times_spec(x).plus_spec(m[4].times_spec(y)).plus_spec(m[5]);
    let e2 = m[6].times_spec(x).plus_spec(m[7].times_spec(y)).plus_spec(m[8]);
    let p = (u(x), u(y), 1 as real);
    lemma_prod(u(m[2]), 1 as real);
    lemma_prod(u(m[5]), 1 as real);
    lemma_prod(u(m[8]), 1 as real);
    let g = (u(e0), u(e1), u(e2));
    lemma_undone(u, kn, p, 0);
    lemma_undone(u, kn, p, 1);
    lemma_undone(u, kn, p, 2);
    let k = |i: int| (u(kn[3 * i]), u(kn[3 * i + 1]), u(kn[3 * i + 2]));
    assert(dot(k(0), g) == u(x));
    assert(dot(k(1), g) == u(y));
    assert(dot(k(2), g) == 1 as real);
    if g.0 == 0 as real && g.1 == 0 as real && g.2 == 0 as real {
        lemma_prod(k(2).0, 0 as real);
        lemma_prod(k(2).1, 0 as real);
        lemma_prod(k(2).2, 0 as real);
    }
    lemma_unit(u, e0, e1, e2);
    let n = u(
        e0.times_spec(e0).plus_spec(e1.times_spec(e1)).plus_spec(e2.times_spec(e2)).root_spec(),
    );
    let ray = ray_at::<S, D>(raw, m, a.pred_offset_xy, h, w, pix);
    assert(ray == unit_vector(e0, e1, e2));
    let r = (u(ray.0), u(ray.1), u(ray.2));
    let (c0, c1, c2) = (lens_row(v, intr, 0), lens_row(v, intr, 1), lens_row(v, intr, 2));
    lemma_dot_times(c0, r, n);
    lemma_dot_times(c1, r, n);
    lemma_dot_times(c2, r, n);
    assert(prod(u(kn[0]), w as real) == c0.0 && prod(u(kn[1]), w as real) == c0.1 && prod(
        u(kn[2]),
        w as real,
    ) == c0.2);
    assert(prod(u(kn[3]), h as real) == c1.0 && prod(u(kn[4]), h as real) == c1.1 && prod(
        u(kn[5]),
        h as real,
    ) == c1.2);
    assert(u(kn[6]) == c2.0 && u(kn[7]) == c2.1 && u(kn[8]) == c2.2);
    lemma_dot_times(g, k(0), w as real);
    lemma_dot_times(g, k(1), h as real);
    lemma_dot_swap(g, c0);
    lemma_dot_swap(g, c1);
    lemma_dot_swap(g, k(0));
    lemma_dot_swap(g, k(1));
    n
}

/// The factors of an inner product in the other order.
proof fn lemma_dot_swap(a: (real, real, real), b: (real, real, real))
    ensures
        dot(a, b) == dot(b, a),
{
    lemma_prod(a.0, b.0);
    lemma_prod(a.1, b.1);
    lemma_prod(a.2, b.2);
}

/// A Gaussian is seen where its pixel is. Taken through the extrinsics and the
/// intrinsics, the centre of the Gaussian of row `row` and column `col` lies in front
/// of the camera and at column `col + 1/2`, row `row + 1/2`, each moved by what the
/// network adds; and its distance from the camera is the pixel's depth.
pub proof fn law_centres_project_to_pixels<S: Scalar, D: Widens<S> + Circular>(
    v: spec_fn(S) -> real,
    u: spec_fn(D) -> real,
    a: GsAdapter<D>,
    raw: Seq<S>,
    depth: Seq<S>,
    conf: Seq<S>,
    ext: Seq<S>,
    intr: Seq<S>,
    h: int,
    w: int,
    row: int,
    col: int,
    px: real,
    py: real,
)
    requires
        faithful(v),
        faithful_roots(u),
        faithful_widening::<S, D>(v, u),
        0 < h <= usize::MAX,
        0 < w <= usize::MAX,
        v(det3_of(intr)) != 0 as real,
        turns_rigidly(v, ext),
        0 <= row < h,
        0 <= col < w,
        full_depth(v, a, raw, depth, row * w + col) > 0 as real,
        px + px == (2 * col + 1) as real + moved(v, a, raw, row * w + col, 0) + moved(
            v,
            a,
            raw,
            row * w + col,
            0,
        ),
        py + py == (2 * row + 1) as real + moved(v, a, raw, row * w + col, 1) + moved(
            v,
            a,
            raw,
            row * w + col,
            1,
        ),
    ensures
        built_of::<S, D>(a, raw, depth, conf, ext, intr, h, w).means.len() == h * w * 3,
        ({
            let c = in_camera(
                v,
                ext,
                centre::<S, D>(v, a, raw, depth, conf, ext, intr, h, w, row * w + col),
            );
            let d = full_depth(v, a, raw, depth, row * w + col);
            let q = in_image(v, intr, c);
            &&& q.2 > 0 as real
            &&& q.0 == prod(q.2, px)
            &&& q.1 == prod(q.2, py)
            &&& dot(c, c) == prod(d, d)
        }),
{
    let pix = row * w + col;
    lemma_within(row, h, col, w);
    let sh = shared_of::<S, D>(ext, intr, h, w, a.sh_degree as int);
    let ray = ray_at::<S, D>(raw, sh.unproject, a.pred_offset_xy, h, w, pix);
    let d = full_depth(v, a, raw, depth, pix);
    lemma_centre::<S, D>(v, u, a, raw, depth, conf, ext, intr, h, w, pix);
    let n = lemma_ray::<S, D>(v, u, a, raw, intr, h, w, row, col, px, py);
    let r = (u(ray.0), u(ray.1), u(ray.2));
    let c = (prod(r.0, d), prod(r.1, d), prod(r.2, d));
    let (c0, c1, c2) = (lens_row(v, intr, 0), lens_row(v, intr, 1), lens_row(v, intr, 2));
    let (q0, q1, q2) = (dot(c0, r), dot(c1, r), dot(c2, r));
    lemma_dot_times(c0, r, d);
    lemma_dot_times(c1, r, d);
    lemma_dot_times(c2, r, d);
    lemma_prod(n, q2);
    lemma_prod_sign(n, q2);
    lemma_prod_sign(q2, d);
    lemma_same_ratio(q0, q2, n, px, d);
    lemma_same_ratio(q1, q2, n, py, d);
    lemma_four_factors(r.0, d, r.0, d);
    lemma_four_factors(r.1, d, r.1, d);
    lemma_four_factors(r.2, d, r.2, d);
    let dd = prod(d, d);
    lemma_prod_plus(dd, prod(r.0, r.0) + prod(r.1, r.1), prod(r.2, r.2));
    lemma_prod_plus(dd, prod(r.0, r.0), prod(r.1, r.1));
    lemma_prod(dd, 1 as real);
    lemma_prod(1 as real, dd);
    assert(dot(c, c) == prod(dot(r, r), dd));
}

/// Two numbers that have the ratio `p` when both are taken `n` times have it when both
/// are taken `d` times.
proof fn lemma_same_ratio(q: real, e: real, n: real, p: real, d: real)
    requires
        n > 0 as real,
        prod(q, n) == p,
        prod(e, n) == 1 as real,
    ensures
        prod(q, d) == prod(prod(e, d), p),
{
    lemma_prod_regroup(n, e, p);
    lemma_prod(n, e);
    lemma_prod(1 as real, p);
    lemma_prod(p, 1 as real);
    lemma_prod(n, q);
    lemma_prod_cancel(n, q, prod(e, p));
    lemma_prod_regroup(d, e, p);
    lemma_prod(d, e);
    lemma_prod(d, prod(e, p));
}

/// With square axes, a Gaussian's scale along an axis is, in the units of a pixel at
/// its depth, a logistic share `s` of the way from the least to the largest scale:
/// ten times the scale times both focal lengths is the share times the depth times the
/// sum of the focal lengths.
pub proof fn law_scales<S: Scalar, D: Widens<S> + Circular>(
    v: spec_fn(S) -> real,
    u: spec_fn(D) -> real,
    ex: spec_fn(real) -> real,
    a: GsAdapter<D>,
    raw: Seq<S>,
    depth: Seq<S>,
    conf: Seq<S>,
    ext: Seq<S>,
    intr: Seq<S>,
    h: int,
    w: int,
    pix: int,
    c: int,
    s: real,
)
    requires
        faithful(v),
        exponentials(u, ex),
        faithful_widening::<S, D>(v, u),
        0 < h <= usize::MAX,
        0 < w <= usize::MAX,
        0 <= pix < h * w,
        0 <= c < 3,
        v(intr[1]) == 0 as real,
        v(intr[3]) == 0 as real,
        v(intr[0]) != 0 as real,
        v(intr[4]) != 0 as real,
        prod(s, 1 as real + ex(-v(raw[37 * pix + 2 + c]))) == 1 as real,
    ensures
        built_of::<S, D>(a, raw, depth, conf, ext, intr, h, w).scales.len() == h * w * 3,
        (10 as real) * prod(
            v(built_of::<S, D>(a, raw, depth, conf, ext, intr, h, w).scales[3 * pix + c]),
            prod(v(intr[0]), v(intr[4])),
        ) == prod(
            prod(
                u(a.scale_min) + prod(u(a.scale_max) - u(a.scale_min), s),
                full_depth(v, a, raw, depth, pix),
            ),
            v(intr[0]) + v(intr[4]),
        ),
{
    lemma_whole::<D>(u, 1);
    let kn = normed::<S, D>(intr, h, w);
    let x = raw[pix * 37 + 2 + c];
    let wide = D::widened_spec(x);
    let e = wide.negated_spec().exponential_spec();
    assert(u(e) == ex(-v(x)));
    let sg = D::ratio_spec(1, 1).over_spec(D::ratio_spec(1, 1).plus_spec(e));
    assert(prod(u(sg), 1 as real + u(e)) == 1 as real);
    lemma_prod(u(sg), 1 as real + u(e));
    lemma_prod(s, 1 as real + u(e));
    lemma_prod_cancel(1 as real + u(e), u(sg), s);
    let d = full_depth(v, a, raw, depth, pix);
    let dd = depth_at::<S, D>(raw, depth, a.pred_offset_depth, pix);
    assert(u(dd) == d);
    let mult = multiplier_of(kn, h, w);
    lemma_multiplier::<S, D>(v, u, intr, h, w);
    let share = a.scale_min.plus_spec(a.scale_max.minus_spec(a.scale_min).times_spec(sg));
    let full = share.times_spec(dd).times_spec(mult);
    assert(v(full.narrowed_spec()) == u(full));
    let sh = shared_of::<S, D>(ext, intr, h, w, a.sh_degree as int);
    assert((3 * pix + c) / 3 == pix && (3 * pix + c) % 3 == c);
    assert(built_of::<S, D>(a, raw, depth, conf, ext, intr, h, w).scales[3 * pix + c]
        == full.narrowed_spec());
    let b = prod(u(share), d);
    let ff = prod(v(intr[0]), v(intr[4]));
    lemma_prod_regroup(b, u(mult), ff);
    lemma_ten(b, prod(u(mult), ff));
}

/// Ten times a product.
proof fn lemma_ten(a: real, b: real)
    ensures
        prod(a, (10 as real) * b) == (10 as real) * prod(a, b),
        prod(a, 10 as real) == (10 as real) * a,
{
    reveal(prod);
    assert(a * ((10 as real) * b) == (10 as real) * (a * b)) by (nonlinear_arith);
}

/// A reciprocal of a product.
proof fn lemma_reciprocal(k: real, l: real, id: real, w: real, f: real, px: real)
    requires
        prod(prod(k, l), id) == 1 as real,
        prod(k, w) == f,
        prod(px, w) == 1 as real,
        w != 0 as real,
    ensures
        prod(prod(prod(l, id), px), f) == 1 as real,
{
    let m = prod(l, id);
    lemma_prod_regroup(k, l, id);
    assert(prod(k, m) == 1 as real);
    lemma_prod(k, w);
    lemma_prod(px, w);
    lemma_four_factors(m, px, k, w);
    lemma_prod(m, k);
    lemma_prod(1 as real, 1 as real);
}

/// The factor that all scales share.
proof fn lemma_multiplier<S: Scalar, D: Widens<S> + Circular>(
    v: spec_fn(S) -> real,
    u: spec_fn(D) -> real,
    intr: Seq<S>,
    h: int,
    w: int,
)
    requires
        faithful(v),
        faithful(u),
        faithful_widening::<S, D>(v, u),
        0 < h <= usize::MAX,
        0 < w <= usize::MAX,
        v(intr[1]) == 0 as real,
        v(intr[3]) == 0 as real,
        v(intr[0]) != 0 as real,
        v(intr[4]) != 0 as real,
    ensures
        (10 as real) * prod(
            u(multiplier_of(normed::<S, D>(intr, h, w), h, w)),
            prod(v(intr[0]), v(intr[4])),
        ) == v(intr[0]) + v(intr[4]),
{
    lemma_whole::<D>(u, 0);
    lemma_whole::<D>(u, 1);
    let kn = normed::<S, D>(intr, h, w);
    let (x, y) = (w as real, h as real);
    let (f, g) = (v(intr[0]), v(intr[4]));
    let (k0, k1, k3, k4) = (u(kn[0]), u(kn[1]), u(kn[3]), u(kn[4]));
    assert(kn[0] == D::widened_spec(intr[0]).over_spec(D::from_count_spec(w as usize)));
    assert(kn[1] == D::widened_spec(intr[1]).over_spec(D::from_count_spec(w as usize)));
    assert(kn[3] == D::widened_spec(intr[3]).over_spec(D::from_count_spec(h as usize)));
    assert(kn[4] == D::widened_spec(intr[4]).over_spec(D::from_count_spec(h as usize)));
    assert(prod(k0, x) == f && prod(k1, x) == 0 as real);
    assert(prod(k3, y) == 0 as real && prod(k4, y) == g);
    lemma_prod(x, 0 as real);
    lemma_prod(y, 0 as real);
    lemma_prod(k1, x);
    lemma_prod(k3, y);
    lemma_prod_cancel(x, k1, 0 as real);
    lemma_prod_cancel(y, k3, 0 as real);
    lemma_prod(k1, k3);
    lemma_prod(k1, 0 as real);
    lemma_prod(0 as real, 0 as real);
    lemma_prod(0 as real, k0);
    lemma_prod(0 as real, k4);
    lemma_prod(0 as real, x);
    lemma_prod(0 as real, y);
    lemma_prod(k0, 0 as real);
    lemma_prod(k4, 0 as real);
    let det = prod(k0, k4);
    assert(det != 0 as real) by {
        if det == 0 as real {
            lemma_prod_cancel(k0, k4, 0 as real);
        }
    }
    let cr = cross(kn[0], kn[4], kn[1], kn[3]);
    assert(u(cr) == det);
    let id = inverse_or_zero(cr);
    assert(prod(u(id), det) == 1 as real);
    lemma_prod(u(id), det);
    lemma_prod(k0, k4);
    let px = D::ratio_spec(1, 1).over_spec(D::from_count_spec(w as usize));
    let py = D::ratio_spec(1, 1).over_spec(D::from_count_spec(h as usize));
    assert(prod(u(px), x) == 1 as real && prod(u(py), y) == 1 as real);
    lemma_reciprocal(k0, k4, u(id), x, f, u(px));
    lemma_reciprocal(k4, k0, u(id), y, g, u(py));
    let (i, j) = (prod(prod(k4, u(id)), u(px)), prod(prod(k0, u(id)), u(py)));
    let mx = kn[4].times_spec(id).times_spec(px).plus_spec(
        kn[1].negated_spec().times_spec(id).times_spec(py),
    );
    let my = kn[3].negated_spec().times_spec(id).times_spec(px).plus_spec(
        kn[0].times_spec(id).times_spec(py),
    );
    lemma_prod(u(id), 0 as real);
    lemma_prod(0 as real, u(id));
    lemma_prod(u(px), 0 as real);
    lemma_prod(0 as real, u(px));
    lemma_prod(u(py), 0 as real);
    lemma_prod(0 as real, u(py));
    assert(u(mx) == i);
    assert(u(my) == j);
    let tenth = D::ratio_spec(1, 10);
    assert(prod(u(tenth), 10u32 as int as real) == 1 as real);
    lemma_ten(u(tenth), u(tenth));
    let ff = prod(f, g);
    lemma_prod_plus(ff, i, j);
    lemma_prod_regroup(i, f, g);
    lemma_prod_regroup(j, g, f);
    lemma_prod(f, g);
    lemma_prod(1 as real, f);
    lemma_prod(1 as real, g);
    lemma_prod(f, 1 as real);
    lemma_prod(g, 1 as real);
    assert(prod(i + j, ff) == g + f);
    lemma_prod_regroup(u(tenth), i + j, ff);
    lemma_ten(g + f, u(tenth));
    lemma_prod(u(tenth), g + f);
    lemma_prod(g + f, 1 as real);
}

} // verus!
