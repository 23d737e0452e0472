//! What a scene shows, where arithmetic is exact.

use crate::colmap_export::{frame_data, pixel_place, Frame};
use crate::gaussian_laws::{dot, lemma_dot_rows, lemma_dot_times};
use crate::glb_export::{
    affine, centred, column, confidence_floor, first_view, frame_colour, hsv_colour, middle, moved,
    outline, outline_point, outline_vertex, plane_corner, reach, scene_scale, widened_all, Camera,
    GlbOptions,
};
use crate::linalg_laws::delta;
use crate::rank_laws::{
    every_place, law_percentile, lemma_percentile_agree, lemma_percentile_unique, percentile,
};
use crate::reals::{
    faithful, faithful_roots, faithful_widening, lemma_prod, lemma_prod_cancel, lemma_prod_plus,
    lemma_prod_regroup, lemma_prod_sign, lemma_prod_square, lemma_prod_two, lemma_whole, prod,
};
use crate::reconstruct::percentile_of;
use crate::resample_laws::{faithful_rounding, rounds_to};
use crate::scalar::{from_int, Analytic, Scalar, Widens};
use crate::sort::faithful_floors;
use vstd::prelude::*;

verus! {

// ---- the least confidence --------------------------------------------------------

/// The least confidence of a scene's points is the threshold, but at least one
/// percentile of all confidences, and at most another, which has the last word.
pub proof fn law_scene_confidence<S: Scalar, D: Widens<S> + Analytic>(
    v: spec_fn(S) -> real,
    u: spec_fn(D) -> real,
    conf: Seq<S>,
    opt: GlbOptions<S>,
    p: real,
    q: real,
    lower: real,
    upper: real,
)
    requires
        faithful(v),
        faithful_floors(u),
        faithful_widening::<S, D>(v, u),
        1 <= conf.len() <= usize::MAX,
        (100 as real) * p == v(opt.conf_thresh_percentile),
        (100 as real) * q == v(opt.ensure_thresh_percentile),
        0 as real <= p <= 1 as real,
        0 as real <= q <= 1 as real,
        percentile(|i: int| v(conf[i]), every_place(), conf.len(), p, lower),
        percentile(|i: int| v(conf[i]), every_place(), conf.len(), q, upper),
    ensures
        v(confidence_floor::<S, D>(conf, opt)) <= upper,
        v(confidence_floor::<S, D>(conf, opt)) < upper ==> v(confidence_floor::<S, D>(conf, opt))
            >= lower && v(confidence_floor::<S, D>(conf, opt)) >= v(opt.conf_thresh),
        v(confidence_floor::<S, D>(conf, opt)) == upper || v(confidence_floor::<S, D>(conf, opt))
            == lower || v(confidence_floor::<S, D>(conf, opt)) == v(opt.conf_thresh),
        v(opt.conf_thresh) <= upper && lower <= upper ==> v(confidence_floor::<S, D>(conf, opt))
            >= v(opt.conf_thresh) && v(confidence_floor::<S, D>(conf, opt)) >= lower,
{
    let (a, b) = (
        D::widened_spec(opt.conf_thresh_percentile),
        D::widened_spec(opt.ensure_thresh_percentile),
    );
    law_percentile::<S, D>(v, u, conf, a, p);
    law_percentile::<S, D>(v, u, conf, b, q);
    let f = |i: int| v(conf[i]);
    let x = percentile_of::<S, D>(conf, a);
    let y = percentile_of::<S, D>(conf, b);
    lemma_percentile_unique(f, every_place(), conf.len(), p, u(x), lower);
    lemma_percentile_unique(f, every_place(), conf.len(), q, u(y), upper);
    assert(v(x.narrowed_spec()) == u(x));
    assert(v(y.narrowed_spec()) == u(y));
}

/// The least confidence of a model's points is the 40th percentile of all.
pub proof fn law_model_confidence<S: Scalar, D: Widens<S> + Analytic>(
    v: spec_fn(S) -> real,
    u: spec_fn(D) -> real,
    conf: Seq<S>,
    p: real,
)
    requires
        faithful(v),
        faithful_floors(u),
        faithful_widening::<S, D>(v, u),
        1 <= conf.len() <= usize::MAX,
        (10 as real) * p == 4 as real,
    ensures
        percentile(
            |i: int| v(conf[i]),
            every_place(),
            conf.len(),
            p,
            v(crate::colmap_export::confidence_floor::<S, D>(conf)),
        ),
{
    lemma_whole::<D>(u, 40);
    law_percentile::<S, D>(v, u, conf, D::ratio_spec(40, 1), p);
    let x = percentile_of::<S, D>(conf, D::ratio_spec(40, 1));
    assert(v(x.narrowed_spec()) == u(x));
}

// ---- colours ---------------------------------------------------------------------

/// How much a channel lacks of full colour at hue `h6` sixths of the circle: nothing
/// within one sixth of the channel's own hue on either side, all from two sixths on,
/// and in proportion between. `n` turns the circle: five for red, three for green, one
/// for blue.
pub open spec fn lack(n: real, h6: real) -> real {
    let k = if n + h6 >= 6 as real {
        n + h6 - 6 as real
    } else {
        n + h6
    };
    let near = if k < 4 as real - k {
        k
    } else {
        4 as real - k
    };
    if near < 0 as real {
        0 as real
    } else if near > 1 as real {
        1 as real
    } else {
        near
    }
}

/// The strength of a channel: the value less what the channel lacks of it by hue and
/// saturation.
pub open spec fn channel(n: real, h6: real, s: real, val: real) -> real {
    prod(val, 1 as real - prod(lack(n, h6), s))
}

/// Six times.
proof fn lemma_six(a: real)
    ensures
        prod(a, 6 as real) == (6 as real) * a,
{
    reveal(prod);
}

/// The colour of a hue, a saturation and a value, channel by channel: red, green and
/// blue stand a third of the hue circle apart.
pub proof fn law_colour<D: Analytic>(u: spec_fn(D) -> real, h: D, s: D, val: D)
    requires
        faithful_floors(u),
        0 as real <= u(h) < 1 as real,
    ensures
        u(hsv_colour(h, s, val).0) == channel(5 as real, (6 as real) * u(h), u(s), u(val)),
        u(hsv_colour(h, s, val).1) == channel(3 as real, (6 as real) * u(h), u(s), u(val)),
        u(hsv_colour(h, s, val).2) == channel(1 as real, (6 as real) * u(h), u(s), u(val)),
{
    lemma_whole::<D>(u, 0);
    lemma_whole::<D>(u, 1);
    lemma_whole::<D>(u, 6);
    let six = h.times_spec(D::ratio_spec(6, 1));
    lemma_six(u(h));
    let h6 = (6 as real) * u(h);
    assert(u(six) == h6);
    let m = six.floor_count_spec();
    assert(0 <= m as int <= 5) by {
        assert((m as int as real) <= h6);
        assert((m as int as real) < 6 as real);
    }
    let f = h6 - m as int as real;
    let sector = m as int;
    assert(!six.less_spec(D::ratio_spec(0, 1)));
    assert(crate::scalar::whole_part(six, 0x7fff_ffff_ffff_ffff) == sector);
    assert(u(six.minus_spec(from_int(sector))) == f);
    lemma_prod(u(s), 1 as real);
    lemma_prod(1 as real, u(s));
    lemma_prod(u(s), 0 as real);
    lemma_prod(0 as real, u(s));
    lemma_prod(u(val), 1 as real);
}

/// A fraction of a hundred, read as a real.
proof fn lemma_hundredths<D: Scalar>(u: spec_fn(D) -> real, n: i32)
    requires
        faithful(u),
    ensures
        (100 as real) * u(D::ratio_spec(n, 100)) == n as int as real,
{
    let x = u(D::ratio_spec(n, 100));
    assert(prod(x, 100u32 as int as real) == n as int as real);
    reveal(prod);
}

/// The colours of frames go once round the hue circle: frame `i` of `n` has the hue in
/// the middle of the `i`-th of `n` equal parts, the same saturation and value as all
/// others, and each channel is a whole number of 255 parts, rounded down.
pub proof fn law_frame_colour<D: Analytic>(
    u: spec_fn(D) -> real,
    i: i32,
    n: i32,
    h: real,
    s: real,
    val: real,
    c: int,
    byte: int,
)
    requires
        faithful_floors(u),
        0 <= i < n,
        prod(h, (2 * n) as real) == (2 * i + 1) as real,
        (100 as real) * s == 85 as real,
        (100 as real) * val == 95 as real,
        0 <= c < 3,
        0 <= byte < 255,
        byte as real <= (255 as real) * channel((5 - 2 * c) as real, (6 as real) * h, s, val)
            < byte as real + 1 as real,
    ensures
        frame_colour::<D>(i, n).len() == 3,
        frame_colour::<D>(i, n)[c] == byte,
{
    lemma_whole::<D>(u, i);
    lemma_whole::<D>(u, n);
    lemma_whole::<D>(u, 255);
    lemma_hundredths(u, 85);
    lemma_hundredths(u, 95);
    let half = D::ratio_spec(1, 2);
    let f = u(half);
    assert(prod(f, 2u32 as int as real) == 1 as real);
    lemma_prod(f, 2 as real);
    lemma_prod_two(f);
    let x = D::ratio_spec(i, 1).plus_spec(half).over_spec(D::ratio_spec(n, 1));
    let k = n as int as real;
    assert(prod(u(x), k) == i as int as real + f);
    assert((2 * n) as real == k + k);
    lemma_prod_plus(h, k, k);
    lemma_prod(k, h);
    lemma_prod(k, u(x));
    assert((2 * i + 1) as real == i as int as real + i as int as real + 1 as real);
    assert(prod(h, k) == prod(u(x), k));
    lemma_prod_cancel(k, u(x), h);
    assert(0 as real <= u(x) < 1 as real) by {
        lemma_prod_sign(k, u(x));
        lemma_prod_sign(k, 1 as real - u(x));
        lemma_prod_plus(k, 1 as real, u(x));
        lemma_prod(k, 1 as real);
        assert(i as int as real + 1 as real <= k);
    }
    let (a, b) = (D::ratio_spec(85, 100), D::ratio_spec(95, 100));
    law_colour(u, x, a, b);
    let rgb = hsv_colour(x, a, b);
    let e = if c == 0 {
        rgb.0
    } else if c == 1 {
        rgb.1
    } else {
        rgb.2
    };
    let z = e.times_spec(D::ratio_spec(255, 1));
    lemma_255(u(e));
    let m = z.floor_count_spec();
    assert(m as int == byte) by {
        assert(m as int as real <= u(z) < m as int as real + 1 as real);
    }
}

/// 255 times.
proof fn lemma_255(a: real)
    ensures
        prod(a, 255 as real) == (255 as real) * a,
{
    reveal(prod);
}

// ---- points and cameras ------------------------------------------------------------

/// Coordinate `r` of a point as a camera has it: `r` counts to the right, down and
/// ahead.
pub open spec fn ahead<S>(v: spec_fn(S) -> real, ext: [S; 16], xyz: Seq<S>, p: int, r: int) -> real {
    dot(
        (v(ext[4 * r]), v(ext[4 * r + 1]), v(ext[4 * r + 2])),
        (v(xyz[3 * p]), v(xyz[3 * p + 1]), v(xyz[3 * p + 2])),
    ) + v(ext[4 * r + 3])
}

/// A scene stands as the first camera sees it, to the right, up and back, moved as a
/// whole: from one point to another it is as far to the right as for the camera, as
/// far up as the camera has it further up, and as far back as the camera has it nearer.
pub proof fn law_scene_directions<S: Scalar, D: Widens<S> + Analytic>(
    v: spec_fn(S) -> real,
    u: spec_fn(D) -> real,
    cameras: Seq<Camera<S>>,
    xyz: Seq<S>,
    i: int,
    j: int,
)
    requires
        faithful(u),
        faithful_widening::<S, D>(v, u),
        cameras.len() > 0,
        0 <= i < xyz.len() / 3,
        0 <= j < xyz.len() / 3,
    ensures
        ({
            let pos = centred::<S, D>(first_view::<S, D>(cameras), xyz);
            let e = cameras[0].ext;
            &&& pos.len() == xyz.len() / 3 * 3
            &&& v(pos[3 * i]) - v(pos[3 * j]) == ahead(v, e, xyz, i, 0) - ahead(v, e, xyz, j, 0)
            &&& v(pos[3 * i + 1]) - v(pos[3 * j + 1]) == ahead(v, e, xyz, j, 1) - ahead(
                v,
                e,
                xyz,
                i,
                1,
            )
            &&& v(pos[3 * i + 2]) - v(pos[3 * j + 2]) == ahead(v, e, xyz, j, 2) - ahead(
                v,
                e,
                xyz,
                i,
                2,
            )
        }),
{
    lemma_seen::<S, D>(v, u, cameras, xyz, i, 0);
    lemma_seen::<S, D>(v, u, cameras, xyz, i, 1);
    lemma_seen::<S, D>(v, u, cameras, xyz, i, 2);
    lemma_seen::<S, D>(v, u, cameras, xyz, j, 0);
    lemma_seen::<S, D>(v, u, cameras, xyz, j, 1);
    lemma_seen::<S, D>(v, u, cameras, xyz, j, 2);
}

/// A coordinate of a scene's point.
proof fn lemma_seen<S: Scalar, D: Widens<S> + Analytic>(
    v: spec_fn(S) -> real,
    u: spec_fn(D) -> real,
    cameras: Seq<Camera<S>>,
    xyz: Seq<S>,
    p: int,
    r: int,
)
    requires
        faithful(u),
        faithful_widening::<S, D>(v, u),
        cameras.len() > 0,
        0 <= p < xyz.len() / 3,
        0 <= r < 3,
    ensures
        ({
            let a = first_view::<S, D>(cameras);
            let m = u(middle::<S, D>(moved::<S, D>(a, xyz, r)));
            let c = ahead(v, cameras[0].ext, xyz, p, r);
            v(centred::<S, D>(a, xyz)[3 * p + r]) == (if r == 0 {
                c
            } else {
                -c
            }) - m
        }),
{
    let a = first_view::<S, D>(cameras);
    let e = cameras[0].ext;
    let (x, y, z) = (
        D::widened_spec(xyz[3 * p]),
        D::widened_spec(xyz[3 * p + 1]),
        D::widened_spec(xyz[3 * p + 2]),
    );
    let col = moved::<S, D>(a, xyz, r);
    let at = affine(a, r, x, y, z);
    assert(col[p] == at.narrowed_spec());
    assert(v(at.narrowed_spec()) == u(at));
    lemma_prod(v(e[4 * r]), u(x));
    lemma_prod(v(e[4 * r + 1]), u(y));
    lemma_prod(v(e[4 * r + 2]), u(z));
    assert(u(at) == (if r == 0 {
        ahead(v, e, xyz, p, r)
    } else {
        -ahead(v, e, xyz, p, r)
    }));
    let d = D::widened_spec(col[p]).minus_spec(middle::<S, D>(col));
    assert(v(d.narrowed_spec()) == u(d));
    assert((3 * p + r) % 3 == r && (3 * p + r) / 3 == p);
    assert(centred::<S, D>(a, xyz)[3 * p + r] == d.narrowed_spec());
}

/// `lo` and `hi` are the 5th and the 95th percentile of coordinate `c` of some points.
pub open spec fn reaches<S>(
    v: spec_fn(S) -> real,
    pos: Seq<S>,
    c: int,
    lo: real,
    hi: real,
) -> bool {
    let n = pos.len() / 3;
    &&& percentile(coordinate(v, pos, c), every_place(), n, 5 as real / (100 as real), lo)
    &&& percentile(coordinate(v, pos, c), every_place(), n, 95 as real / (100 as real), hi)
}

/// Coordinate `c` of every point.
pub open spec fn coordinate<S>(v: spec_fn(S) -> real, pos: Seq<S>, c: int) -> spec_fn(int) -> real {
    |i: int| v(pos[3 * i + c])
}

/// How far a coordinate reaches.
proof fn lemma_reach<S: Scalar, D: Widens<S> + Analytic>(
    v: spec_fn(S) -> real,
    u: spec_fn(D) -> real,
    pos: Seq<S>,
    c: int,
    lo: real,
    hi: real,
)
    requires
        faithful(v),
        faithful_floors(u),
        faithful_widening::<S, D>(v, u),
        1 <= pos.len() / 3 <= usize::MAX,
        0 <= c < 3,
        reaches(v, pos, c, lo, hi),
    ensures
        u(reach::<S, D>(column(pos, c))) == hi - lo,
{
    lemma_whole::<D>(u, 5);
    lemma_whole::<D>(u, 95);
    let n = pos.len() / 3;
    let f = coordinate(v, pos, c);
    let (p, q) = (5 as real / (100 as real), 95 as real / (100 as real));
    let a = column(pos, c);
    let g = |i: int| v(a[i]);
    law_percentile::<S, D>(v, u, a, D::ratio_spec(5, 1), p);
    law_percentile::<S, D>(v, u, a, D::ratio_spec(95, 1), q);
    assert forall|i: int| 0 <= i < n implies #[trigger] f(i) == g(i) by {}
    lemma_percentile_agree(f, every_place(), g, every_place(), n, p, lo);
    lemma_percentile_agree(f, every_place(), g, every_place(), n, q, hi);
    lemma_percentile_unique(
        g,
        every_place(),
        n,
        p,
        u(percentile_of::<S, D>(a, D::ratio_spec(5, 1))),
        lo,
    );
    lemma_percentile_unique(
        g,
        every_place(),
        n,
        q,
        u(percentile_of::<S, D>(a, D::ratio_spec(95, 1))),
        hi,
    );
}

/// The size of a scene of two points or more is the diagonal of the box that its points
/// fill from the 5th to the 95th percentile of each coordinate, and one where that box
/// is a point.
pub proof fn law_scene_size<S: Scalar, D: Widens<S> + Analytic>(
    v: spec_fn(S) -> real,
    u: spec_fn(D) -> real,
    pos: Seq<S>,
    x: (real, real),
    y: (real, real),
    z: (real, real),
)
    requires
        faithful(v),
        faithful_floors(u),
        faithful_roots(u),
        faithful_widening::<S, D>(v, u),
        2 <= pos.len() / 3 <= usize::MAX,
        reaches(v, pos, 0, x.0, x.1),
        reaches(v, pos, 1, y.0, y.1),
        reaches(v, pos, 2, z.0, z.1),
    ensures
        u(scene_scale::<S, D>(pos)) > 0 as real,
        ({
            let d = (x.1 - x.0, y.1 - y.0, z.1 - z.0);
            &&& dot(d, d) > 0 as real ==> prod(
                u(scene_scale::<S, D>(pos)),
                u(scene_scale::<S, D>(pos)),
            ) == dot(d, d)
            &&& dot(d, d) == 0 as real ==> u(scene_scale::<S, D>(pos)) == 1 as real
        }),
{
    lemma_whole::<D>(u, 0);
    lemma_whole::<D>(u, 1);
    lemma_reach::<S, D>(v, u, pos, 0, x.0, x.1);
    lemma_reach::<S, D>(v, u, pos, 1, y.0, y.1);
    lemma_reach::<S, D>(v, u, pos, 2, z.0, z.1);
    let d = (x.1 - x.0, y.1 - y.0, z.1 - z.0);
    lemma_prod_square(d.0);
    lemma_prod_square(d.1);
    lemma_prod_square(d.2);
    let (dx, dy, dz) = (
        reach::<S, D>(column(pos, 0)),
        reach::<S, D>(column(pos, 1)),
        reach::<S, D>(column(pos, 2)),
    );
    let s = dx.times_spec(dx).plus_spec(dy.times_spec(dy)).plus_spec(dz.times_spec(dz));
    assert(u(s) == dot(d, d));
    let r = u(s.root_spec());
    lemma_prod(r, 0 as real);
    lemma_prod_square(r);
}

/// Rows of a camera's rotation with its translation.
pub struct Pose {
    pub rows: (
        (real, real, real),
        (real, real, real),
        (real, real, real),
    ),
    pub shift: (real, real, real),
}

/// A point of the world as a camera has it.
pub open spec fn seen_from(e: Pose, p: (real, real, real)) -> (real, real, real) {
    (
        dot(e.rows.0, p) + e.shift.0,
        dot(e.rows.1, p) + e.shift.1,
        dot(e.rows.2, p) + e.shift.2,
    )
}

/// Column `j` of an affine matrix or a 3x3 matrix with rows `n` apart.
pub open spec fn upright<S>(v: spec_fn(S) -> real, m: Seq<S>, n: int, j: int) -> (real, real, real) {
    (v(m[j]), v(m[n + j]), v(m[2 * n + j]))
}

/// `e` undoes the affine matrix `m`.
pub open spec fn undoes<S>(v: spec_fn(S) -> real, e: Pose, m: Seq<S>) -> bool {
    &&& forall|j: int|
        0 <= j < 3 ==> dot(e.rows.0, #[trigger] upright(v, m, 4, j)) == delta(0, j) && dot(
            e.rows.1,
            upright(v, m, 4, j),
        ) == delta(1, j) && dot(e.rows.2, upright(v, m, 4, j)) == delta(2, j)
    &&& seen_from(e, upright(v, m, 4, 3)) == (0 as real, 0 as real, 0 as real)
}

/// `k` undoes the 3x3 matrix `m`.
pub open spec fn unprojects<S>(
    v: spec_fn(S) -> real,
    k: ((real, real, real), (real, real, real), (real, real, real)),
    m: Seq<S>,
) -> bool {
    forall|j: int|
        0 <= j < 3 ==> dot(k.0, #[trigger] upright(v, m, 3, j)) == delta(0, j) && dot(
            k.1,
            upright(v, m, 3, j),
        ) == delta(1, j) && dot(k.2, upright(v, m, 3, j)) == delta(2, j)
}

/// Point `m` of an outline.
pub open spec fn outline_at<D>(u: spec_fn(D) -> real, out: Seq<D>, m: int) -> (real, real, real) {
    (u(out[3 * m]), u(out[3 * m + 1]), u(out[3 * m + 2]))
}

/// Which corner point `m` of an outline is, from the top left clockwise; none where it
/// is the camera itself. Four lines lead from the camera to the corners, four around.
pub open spec fn corner_of(m: int) -> Option<int> {
    if m < 8 {
        if m % 2 == 0 {
            None
        } else {
            Some((m - 1) / 2)
        }
    } else if m % 2 == 0 {
        Some((m - 8) / 2)
    } else {
        Some(((m - 9) / 2 + 1) % 4)
    }
}

/// The combination of a matrix's columns, undone.
proof fn lemma_combined(
    a: (real, real, real),
    c0: (real, real, real),
    c1: (real, real, real),
    c2: (real, real, real),
    p: (real, real, real),
    i: int,
)
    requires
        dot(a, c0) == delta(i, 0),
        dot(a, c1) == delta(i, 1),
        dot(a, c2) == delta(i, 2),
        0 <= i < 3,
    ensures
        dot(
            a,
            (
                prod(c0.0, p.0) + prod(c1.0, p.1) + prod(c2.0, p.2),
                prod(c0.1, p.0) + prod(c1.1, p.1) + prod(c2.1, p.2),
                prod(c0.2, p.0) + prod(c1.2, p.1) + prod(c2.2, p.2),
            ),
        ) == (if i == 0 {
            p.0
        } else if i == 1 {
            p.1
        } else {
            p.2
        }),
{
    lemma_dot_rows(a, c0, c1, c2, p);
    lemma_prod(1 as real, p.0);
    lemma_prod(p.0, 1 as real);
    lemma_prod(0 as real, p.0);
    lemma_prod(p.0, 0 as real);
    lemma_prod(1 as real, p.1);
    lemma_prod(p.1, 1 as real);
    lemma_prod(0 as real, p.1);
    lemma_prod(p.1, 0 as real);
    lemma_prod(1 as real, p.2);
    lemma_prod(p.2, 1 as real);
    lemma_prod(0 as real, p.2);
    lemma_prod(p.2, 0 as real);
}

/// A moved point in an inner product.
proof fn lemma_moved(a: (real, real, real), p: (real, real, real), t: (real, real, real))
    ensures
        dot(a, (p.0 + t.0, p.1 + t.1, p.2 + t.2)) == dot(a, p) + dot(a, t),
{
    lemma_prod_plus(a.0, p.0, t.0);
    lemma_prod_plus(a.1, p.1, t.1);
    lemma_prod_plus(a.2, p.2, t.2);
}

/// A corner in camera space.
proof fn lemma_corner<D: Scalar>(
    u: spec_fn(D) -> real,
    k: ((real, real, real), (real, real, real), (real, real, real)),
    m: Seq<D>,
    w: i32,
    h: i32,
    c: int,
    scale: D,
)
    requires
        faithful(u),
        unprojects(u, k, m),
        0 <= c < 4,
        1 <= w,
        1 <= h,
        ({
            let x = if c == 1 || c == 2 {
                (w - 1) as real
            } else {
                0 as real
            };
            let y = if c >= 2 {
                (h - 1) as real
            } else {
                0 as real
            };
            prod(u(m[6]), x) + prod(u(m[7]), y) + u(m[8]) != 0 as real
        }),
    ensures
        ({
            let p = plane_corner(m, w, h, c, scale);
            let q = (u(p.0), u(p.1), u(p.2));
            let x = if c == 1 || c == 2 {
                (w - 1) as real
            } else {
                0 as real
            };
            let y = if c >= 2 {
                (h - 1) as real
            } else {
                0 as real
            };
            &&& q.2 == u(scale)
            &&& dot(k.0, q) == prod(dot(k.2, q), x)
            &&& dot(k.1, q) == prod(dot(k.2, q), y)
        }),
{
    lemma_whole::<D>(u, 0);
    lemma_whole::<D>(u, 1);
    lemma_whole::<D>(u, (w - 1) as i32);
    lemma_whole::<D>(u, (h - 1) as i32);
    let x = if c == 1 || c == 2 {
        (w - 1) as real
    } else {
        0 as real
    };
    let y = if c >= 2 {
        (h - 1) as real
    } else {
        0 as real
    };
    let pt = (x, y, 1 as real);
    let (c0, c1, c2) = (upright(u, m, 3, 0), upright(u, m, 3, 1), upright(u, m, 3, 2));
    lemma_combined(k.0, c0, c1, c2, pt, 0);
    lemma_combined(k.1, c0, c1, c2, pt, 1);
    lemma_combined(k.2, c0, c1, c2, pt, 2);
    let ray = (
        prod(u(m[0]), x) + prod(u(m[1]), y) + prod(u(m[2]), 1 as real),
        prod(u(m[3]), x) + prod(u(m[4]), y) + prod(u(m[5]), 1 as real),
        prod(u(m[6]), x) + prod(u(m[7]), y) + prod(u(m[8]), 1 as real),
    );
    lemma_prod(u(m[8]), 1 as real);
    let z = ray.2;
    let s = u(scale);
    let p = plane_corner(m, w, h, c, scale);
    let q = (u(p.0), u(p.1), u(p.2));
    let cx = if c == 1 || c == 2 {
        D::ratio_spec((w - 1) as i32, 1)
    } else {
        D::ratio_spec(0, 1)
    };
    let cy = if c >= 2 {
        D::ratio_spec((h - 1) as i32, 1)
    } else {
        D::ratio_spec(0, 1)
    };
    let r = |i: int|
        m[3 * i].times_spec(cx).plus_spec(m[3 * i + 1].times_spec(cy)).plus_spec(
            m[3 * i + 2].times_spec(D::ratio_spec(1, 1)),
        );
    assert(u(cx) == x && u(cy) == y);
    assert(u(r(0)) == ray.0 && u(r(1)) == ray.1 && u(r(2)) == ray.2);
    let (d0, d1, d2) = (r(0).over_spec(r(2)), r(1).over_spec(r(2)), r(2).over_spec(r(2)));
    assert(p.0 == d0.times_spec(scale) && p.1 == d1.times_spec(scale) && p.2 == d2.times_spec(
        scale,
    ));
    assert(prod(u(d0), z) == ray.0 && prod(u(d1), z) == ray.1 && prod(u(d2), z) == ray.2);
    // The direction with depth one.
    let d = (u(d0), u(d1), u(d2));
    lemma_prod(z, d.2);
    lemma_prod(z, 1 as real);
    lemma_prod_cancel(z, d.2, 1 as real);
    lemma_prod(1 as real, s);
    lemma_prod(s, 1 as real);
    lemma_dot_times(k.0, d, z);
    lemma_dot_times(k.1, d, z);
    lemma_dot_times(k.2, d, z);
    lemma_dot_times(k.0, d, s);
    lemma_dot_times(k.1, d, s);
    lemma_dot_times(k.2, d, s);
    let (e0, e1, e2) = (dot(k.0, d), dot(k.1, d), dot(k.2, d));
    assert(prod(e0, z) == x && prod(e1, z) == y && prod(e2, z) == 1 as real);
    lemma_share(e0, e2, z, x, s);
    lemma_share(e1, e2, z, y, s);
}

/// Two numbers whose ratio is `x`, both taken `s` times.
proof fn lemma_share(e: real, f: real, z: real, x: real, s: real)
    requires
        z != 0 as real,
        prod(e, z) == x,
        prod(f, z) == 1 as real,
    ensures
        prod(e, s) == prod(prod(f, s), x),
{
    lemma_prod_regroup(z, f, x);
    lemma_prod(z, f);
    lemma_prod(1 as real, x);
    lemma_prod(x, 1 as real);
    lemma_prod(z, e);
    lemma_prod_cancel(z, e, prod(f, x));
    lemma_prod_regroup(s, f, x);
    lemma_prod(s, f);
    lemma_prod(s, prod(f, x));
}

/// The outline of a camera that has both inverses: its lines start at the camera or at
/// a corner and end at a corner; the camera stands where the extrinsics have their
/// origin, and each corner lies `scale` ahead of the camera, where the intrinsics show
/// it at the corner pixel of an image of `w` by `h`.
pub proof fn law_outline<S: Scalar, D: Widens<S>>(
    v: spec_fn(S) -> real,
    u: spec_fn(D) -> real,
    cam: Camera<S>,
    w: i32,
    h: i32,
    scale: D,
    k: ((real, real, real), (real, real, real), (real, real, real)),
    e: Pose,
    m: int,
)
    requires
        faithful(u),
        faithful_widening::<S, D>(v, u),
        1 <= w,
        1 <= h,
        cam.intrinsics_inverse is Some,
        cam.ext_inverse is Some,
        unprojects(v, k, cam.intrinsics_inverse->0@),
        undoes(v, e, cam.ext_inverse->0@),
        0 <= m < 16,
        corner_of(m) matches Some(c) ==> ({
            let x = if c == 1 || c == 2 {
                (w - 1) as real
            } else {
                0 as real
            };
            let y = if c >= 2 {
                (h - 1) as real
            } else {
                0 as real
            };
            let i = cam.intrinsics_inverse->0;
            prod(v(i[6]), x) + prod(v(i[7]), y) + v(i[8]) != 0 as real
        }),
    ensures
        outline::<S, D>(cam, w, h, scale).len() == 48,
        ({
            let q = seen_from(e, outline_at(u, outline::<S, D>(cam, w, h, scale), m));
            match corner_of(m) {
                None => q == (0 as real, 0 as real, 0 as real),
                Some(c) => {
                    let x = if c == 1 || c == 2 {
                        (w - 1) as real
                    } else {
                        0 as real
                    };
                    let y = if c >= 2 {
                        (h - 1) as real
                    } else {
                        0 as real
                    };
                    &&& q.2 == u(scale)
                    &&& dot(k.0, q) == prod(dot(k.2, q), x)
                    &&& dot(k.1, q) == prod(dot(k.2, q), y)
                },
            }
        }),
{
    let ki = widened_all::<S, D>(cam.intrinsics_inverse->0@);
    let cw = widened_all::<S, D>(cam.ext_inverse->0@);
    let out = outline::<S, D>(cam, w, h, scale);
    assert((3 * m) / 3 == m && (3 * m) % 3 == 0);
    assert((3 * m + 1) / 3 == m && (3 * m + 1) % 3 == 1);
    assert((3 * m + 2) / 3 == m && (3 * m + 2) % 3 == 2);
    let pt = outline_point(ki, cw, w, h, scale, outline_vertex(m));
    assert(out[3 * m] == pt[0] && out[3 * m + 1] == pt[1] && out[3 * m + 2] == pt[2]);
    assert forall|j: int| 0 <= j < 3 implies #[trigger] upright(u, ki, 3, j) == upright(
        v,
        cam.intrinsics_inverse->0@,
        3,
        j,
    ) by {}
    assert forall|j: int| 0 <= j < 4 implies #[trigger] upright(u, cw, 4, j) == upright(
        v,
        cam.ext_inverse->0@,
        4,
        j,
    ) by {}
    let t = upright(u, cw, 4, 3);
    assert(t == upright(v, cam.ext_inverse->0@, 4, 3));
    match corner_of(m) {
        None => {
            assert(outline_vertex(m) == 0);
        },
        Some(c) => {
            assert(outline_vertex(m) == c + 1) by {
                assert(m == 1 || m == 3 || m == 5 || m == 7 || m == 8 || m == 9 || m == 10 || m
                    == 11 || m == 12 || m == 13 || m == 14 || m == 15);
            }
            assert(0 <= c < 4);
            let p = plane_corner(ki, w, h, c, scale);
            lemma_corner(u, k, ki, w, h, c, scale);
            let q = (u(p.0), u(p.1), u(p.2));
            let (c0, c1, c2) = (upright(u, cw, 4, 0), upright(u, cw, 4, 1), upright(u, cw, 4, 2));
            lemma_combined(e.rows.0, c0, c1, c2, q, 0);
            lemma_combined(e.rows.1, c0, c1, c2, q, 1);
            lemma_combined(e.rows.2, c0, c1, c2, q, 2);
            let s = (
                prod(c0.0, q.0) + prod(c1.0, q.1) + prod(c2.0, q.2),
                prod(c0.1, q.0) + prod(c1.1, q.1) + prod(c2.1, q.2),
                prod(c0.2, q.0) + prod(c1.2, q.1) + prod(c2.2, q.2),
            );
            lemma_moved(e.rows.0, s, t);
            lemma_moved(e.rows.1, s, t);
            lemma_moved(e.rows.2, s, t);
            assert(u(pt[0]) == s.0 + t.0 && u(pt[1]) == s.1 + t.1 && u(pt[2]) == s.2 + t.2);
        },
    }
}

// ---- models ------------------------------------------------------------------------

/// A model's camera is the frame's at the size of the original image: focal length and
/// centre grow with the image, the first of each with its width and the second with its
/// height; the translation stays.
pub proof fn law_model_camera<S: Scalar, D: Widens<S>>(
    v: spec_fn(S) -> real,
    u: spec_fn(D) -> real,
    f: Frame<S>,
    w: usize,
    h: usize,
)
    requires
        faithful(u),
        faithful_widening::<S, D>(v, u),
        0 < w,
        0 < h,
        0 <= f.orig_w <= usize::MAX,
        0 <= f.orig_h <= usize::MAX,
    ensures
        ({
            let d = frame_data::<S, D>(f, w as int, h as int);
            let (ow, oh) = (f.orig_w as int as real, f.orig_h as int as real);
            &&& d.orig_w == f.orig_w && d.orig_h == f.orig_h
            &&& prod(u(d.fx), w as int as real) == prod(v(f.k[0]), ow)
            &&& prod(u(d.cx), w as int as real) == prod(v(f.k[2]), ow)
            &&& prod(u(d.fy), h as int as real) == prod(v(f.k[4]), oh)
            &&& prod(u(d.cy), h as int as real) == prod(v(f.k[5]), oh)
            &&& u(d.tx) == v(f.ext[3]) && u(d.ty) == v(f.ext[7]) && u(d.tz) == v(f.ext[11])
            &&& d.qvec == f.qvec
        }),
{
    let sw = from_int::<D>(f.orig_w as int).over_spec(D::from_count_spec(w));
    let sh = from_int::<D>(f.orig_h as int).over_spec(D::from_count_spec(h));
    lemma_prod_regroup(v(f.k[0]), u(sw), w as int as real);
    lemma_prod_regroup(v(f.k[2]), u(sw), w as int as real);
    lemma_prod_regroup(v(f.k[4]), u(sh), h as int as real);
    lemma_prod_regroup(v(f.k[5]), u(sh), h as int as real);
}

/// A pixel stands in the original image where its share of the width or height is the
/// same, without fraction: `at / size` of `orig`.
pub proof fn law_model_pixel<D: Analytic>(
    u: spec_fn(D) -> real,
    at: usize,
    orig: i64,
    size: usize,
    x: real,
    n: int,
)
    requires
        faithful_rounding(u),
        0 < size,
        0 <= orig <= usize::MAX,
        prod(x, size as int as real) == prod(at as int as real, orig as int as real),
        n as real <= x < n as real + 1 as real,
    ensures
        u(pixel_place::<D>(at, orig, size as int)) == n as real,
{
    lemma_whole::<D>(u, 0);
    let s = from_int::<D>(orig as int).over_spec(D::from_count_spec(size));
    let y = D::from_count_spec(at).times_spec(s);
    let z = size as int as real;
    assert(prod(u(s), z) == orig as int as real);
    lemma_prod_regroup(at as int as real, u(s), z);
    assert(prod(u(y), z) == prod(x, z));
    lemma_prod(z, u(y));
    lemma_prod(z, x);
    lemma_prod_cancel(z, u(y), x);
    assert(rounds_to(u, y, n));
    assert(x >= 0 as real) by {
        lemma_prod_sign(at as int as real, orig as int as real);
        lemma_prod_sign(z, x);
    }
}

} // verus!
