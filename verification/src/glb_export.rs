//! Point clouds and camera outlines as binary glTF.

use crate::reconstruct::{percentile_linear, percentile_of, WorldPoints};
use crate::reals::{faithful, faithful_widening};
use crate::scalar::{
    byte_of, finite, finite_spec, from_int, number, one, to_byte, whole_part,
    whole_part_of, zero, Analytic, Scalar, Stored, Style, Widens,
};
use crate::sort::law_quantile_moves;
use crate::text::{
    decimal, digits, le_bytes, le_number, lemma_le_bytes_len, law_le_round_trip, pad, padded,
    put_bytes, put_le, put_text,
};
use vstd::prelude::*;
use vstd::string::*;

verus! {

/// What goes into an exported scene.
pub struct GlbOptions<S> {
    /// A bound on the number of points; all points are kept all the same.
    pub num_max_points: i32,
    /// Whether cameras are drawn.
    pub show_cameras: bool,
    /// The size of a camera, as a fraction of the scene.
    pub camera_size: S,
    /// The least confidence of a point, subject to the two percentiles.
    pub conf_thresh: S,
    pub conf_thresh_percentile: S,
    pub ensure_thresh_percentile: S,
}

/// A million points, cameras of three hundredths of the scene, confidences from
/// 1.05 between the 40th and the 90th percentile.
pub open spec fn default_options<S: Scalar>() -> GlbOptions<S> {
    GlbOptions {
        num_max_points: 1_000_000,
        show_cameras: true,
        camera_size: S::ratio_spec(3, 100),
        conf_thresh: S::ratio_spec(105, 100),
        conf_thresh_percentile: S::ratio_spec(40, 1),
        ensure_thresh_percentile: S::ratio_spec(90, 1),
    }
}

impl<S: Scalar> Default for GlbOptions<S> {
    fn default() -> (r: Self)
        ensures
            r == default_options::<S>(),
    {
        GlbOptions {
            num_max_points: 1_000_000,
            show_cameras: true,
            camera_size: S::ratio(3, 100),
            conf_thresh: S::ratio(105, 100),
            conf_thresh_percentile: S::ratio(40, 1),
            ensure_thresh_percentile: S::ratio(90, 1),
        }
    }
}

/// The least confidence of a point: the threshold, raised to one percentile of
/// all confidences and lowered to another.
pub open spec fn confidence_floor<S: Scalar, D: Widens<S> + Analytic>(
    conf: Seq<S>,
    opt: GlbOptions<S>,
) -> S {
    if conf.len() == 0 {
        opt.conf_thresh
    } else {
        let lower = percentile_of::<S, D>(
            conf,
            D::widened_spec(opt.conf_thresh_percentile),
        ).narrowed_spec();
        let upper = percentile_of::<S, D>(
            conf,
            D::widened_spec(opt.ensure_thresh_percentile),
        ).narrowed_spec();
        opt.conf_thresh.larger_spec(lower).smaller_spec(upper)
    }
}

/// The least confidence of a point.
pub fn conf_threshold<S: Scalar, D: Widens<S> + Analytic>(
    conf: &[S],
    opt: &GlbOptions<S>,
) -> (r: S)
    ensures
        r == confidence_floor::<S, D>(conf@, *opt),
{
    if conf.len() == 0 {
        return opt.conf_thresh;
    }
    let lower: S = percentile_linear::<S, D>(
        conf,
        D::widened(opt.conf_thresh_percentile),
    ).narrowed();
    let upper: S = percentile_linear::<S, D>(
        conf,
        D::widened(opt.ensure_thresh_percentile),
    ).narrowed();
    opt.conf_thresh.larger(lower).smaller(upper)
}

// ---- colours ----------------------------------------------------------------

/// The colour of a hue, saturation and value, each from zero to one.
pub open spec fn hsv_colour<D: Scalar>(h: D, s: D, v: D) -> (D, D, D) {
    let six = h.times_spec(D::ratio_spec(6, 1));
    let sector = whole_part(six, 0x7fff_ffff_ffff_ffff);
    let f = six.minus_spec(from_int(sector));
    let u = one::<D>();
    let p = v.times_spec(u.minus_spec(s));
    let q = v.times_spec(u.minus_spec(f.times_spec(s)));
    let t = v.times_spec(u.minus_spec(u.minus_spec(f).times_spec(s)));
    if sector % 6 == 0 {
        (v, t, p)
    } else if sector % 6 == 1 {
        (q, v, p)
    } else if sector % 6 == 2 {
        (p, v, t)
    } else if sector % 6 == 3 {
        (p, q, v)
    } else if sector % 6 == 4 {
        (t, p, v)
    } else {
        (v, p, q)
    }
}

/// The colour of a hue, saturation and value, each from zero to one.
pub fn hsv_to_rgb<D: Scalar>(h: D, s: D, v: D) -> (r: (D, D, D))
    ensures
        r == hsv_colour(h, s, v),
{
    let six: D = h.times(D::ratio(6, 1));
    let sector: i64 = whole_part_of(six, 0x7fff_ffff_ffff_ffff);
    let f: D = six.minus(number(sector));
    let u: D = D::ratio(1, 1);
    let p: D = v.times(u.minus(s));
    let q: D = v.times(u.minus(f.times(s)));
    let t: D = v.times(u.minus(u.minus(f).times(s)));
    let turn: u64 = if sector >= 0 {
        sector as u64 % 6
    } else {
        (6 - (-sector) as u64 % 6) % 6
    };
    assert(turn == sector as int % 6);
    match turn {
        0 => (v, t, p),
        1 => (q, v, p),
        2 => (p, v, t),
        3 => (p, q, v),
        4 => (t, p, v),
        _ => (v, p, q),
    }
}

/// The colour of frame `i` of `n`.
pub open spec fn frame_colour<D: Scalar>(i: i32, n: i32) -> Seq<u8> {
    let count: i32 = if n < 1 {
        1
    } else {
        n
    };
    let h = D::ratio_spec(i, 1).plus_spec(D::ratio_spec(1, 2)).over_spec(D::ratio_spec(count, 1));
    let (r, g, b) = hsv_colour(h, D::ratio_spec(85, 100), D::ratio_spec(95, 100));
    let full = D::ratio_spec(255, 1);
    seq![
        byte_of(r.times_spec(full)),
        byte_of(g.times_spec(full)),
        byte_of(b.times_spec(full)),
    ]
}

/// The colour of frame `i` of `n`: hues evenly apart.
pub fn index_color_rgb<D: Scalar>(i: i32, n: i32) -> (c: [u8; 3])
    ensures
        c@ == frame_colour::<D>(i, n),
{
    let count: i32 = if n < 1 {
        1
    } else {
        n
    };
    let h: D = D::ratio(i, 1).plus(D::ratio(1, 2)).over(D::ratio(count, 1));
    let (r, g, b): (D, D, D) = hsv_to_rgb(h, D::ratio(85, 100), D::ratio(95, 100));
    let full: D = D::ratio(255, 1);
    let c: [u8; 3] = [to_byte(r.times(full)), to_byte(g.times(full)), to_byte(b.times(full))];
    assert(c@ =~= frame_colour::<D>(i, n));
    c
}

// ---- geometry ---------------------------------------------------------------

/// Row `r` of an affine 4x4 matrix applied to a point.
pub open spec fn affine<D: Scalar>(a: Seq<D>, r: int, x: D, y: D, z: D) -> D {
    a[4 * r].times_spec(x).plus_spec(a[4 * r + 1].times_spec(y)).plus_spec(
        a[4 * r + 2].times_spec(z),
    ).plus_spec(a[4 * r + 3])
}

fn affine_row<D: Scalar>(a: &[D; 16], r: usize, x: D, y: D, z: D) -> (out: D)
    requires
        r < 3,
    ensures
        out == affine(a@, r as int, x, y, z),
{
    a[4 * r].times(x).plus(a[4 * r + 1].times(y)).plus(a[4 * r + 2].times(z)).plus(a[4 * r + 3])
}

/// A point moved by an affine 4x4 matrix.
pub fn apply44<D: Scalar>(a: &[D; 16], x: D, y: D, z: D) -> (out: (D, D, D))
    ensures
        out.0 == affine(a@, 0, x, y, z),
        out.1 == affine(a@, 1, x, y, z),
        out.2 == affine(a@, 2, x, y, z),
{
    (affine_row(a, 0, x, y, z), affine_row(a, 1, x, y, z), affine_row(a, 2, x, y, z))
}

/// A camera: world to camera, and the inverses of its matrices where they have
/// one.
pub struct Camera<S> {
    pub ext: [S; 16],
    pub intrinsics_inverse: Option<[S; 9]>,
    pub ext_inverse: Option<[S; 16]>,
}

/// World to the first camera, y up and z back; nothing without cameras.
pub open spec fn first_view<S: Scalar, D: Widens<S>>(cameras: Seq<Camera<S>>) -> Seq<D> {
    Seq::new(
        16,
        |p: int|
            if cameras.len() == 0 {
                if p % 5 == 0 {
                    one::<D>()
                } else {
                    zero::<D>()
                }
            } else if 4 <= p < 12 {
                D::widened_spec(cameras[0].ext[p]).negated_spec()
            } else {
                D::widened_spec(cameras[0].ext[p])
            },
    )
}

fn first_view_of<S: Scalar, D: Widens<S>>(cameras: &[Camera<S>]) -> (a: [D; 16])
    ensures
        a@ == first_view::<S, D>(cameras@),
{
    let o: D = D::ratio(0, 1);
    let u: D = D::ratio(1, 1);
    let a: [D; 16] = if cameras.len() == 0 {
        [u, o, o, o, o, u, o, o, o, o, u, o, o, o, o, u]
    } else {
        let e: &[S; 16] = &cameras[0].ext;
        [
            D::widened(e[0]),
            D::widened(e[1]),
            D::widened(e[2]),
            D::widened(e[3]),
            D::widened(e[4]).negated(),
            D::widened(e[5]).negated(),
            D::widened(e[6]).negated(),
            D::widened(e[7]).negated(),
            D::widened(e[8]).negated(),
            D::widened(e[9]).negated(),
            D::widened(e[10]).negated(),
            D::widened(e[11]).negated(),
            D::widened(e[12]),
            D::widened(e[13]),
            D::widened(e[14]),
            D::widened(e[15]),
        ]
    };
    assert(a@ =~= first_view::<S, D>(cameras@));
    a
}

/// Coordinate `r` of every point, moved by `a`.
pub open spec fn moved<S: Scalar, D: Widens<S>>(a: Seq<D>, xyz: Seq<S>, r: int) -> Seq<S> {
    Seq::new(
        xyz.len() / 3,
        |p: int|
            affine(
                a,
                r,
                D::widened_spec(xyz[3 * p]),
                D::widened_spec(xyz[3 * p + 1]),
                D::widened_spec(xyz[3 * p + 2]),
            ).narrowed_spec(),
    )
}

fn move_points<S: Scalar, D: Widens<S>>(a: &[D; 16], xyz: &[S], r: usize) -> (out: Vec<S>)
    requires
        r < 3,
    ensures
        out@ == moved::<S, D>(a@, xyz@, r as int),
{
    let n: usize = xyz.len() / 3;
    let mut out: Vec<S> = Vec::new();
    let mut p: usize = 0;
    while p < n
        invariant
            p <= n,
            n == xyz.len() / 3,
            r < 3,
            out.len() == p,
            forall|j: int| 0 <= j < p ==> #[trigger] out[j] == moved::<S, D>(a@, xyz@, r as int)[j],
        decreases n - p,
    {
        let v: D = affine_row(
            a,
            r,
            D::widened(xyz[3 * p]),
            D::widened(xyz[3 * p + 1]),
            D::widened(xyz[3 * p + 2]),
        );
        out.push(v.narrowed());
        p = p + 1;
    }
    assert(out@ =~= moved::<S, D>(a@, xyz@, r as int));
    out
}

/// The median of a coordinate, zero without points.
pub open spec fn middle<S: Scalar, D: Widens<S> + Analytic>(v: Seq<S>) -> D {
    if v.len() == 0 {
        zero()
    } else {
        percentile_of::<S, D>(v, D::ratio_spec(50, 1))
    }
}

fn middle_of<S: Scalar, D: Widens<S> + Analytic>(v: &[S]) -> (r: D)
    ensures
        r == middle::<S, D>(v@),
{
    if v.len() == 0 {
        D::ratio(0, 1)
    } else {
        percentile_linear(v, D::ratio(50, 1))
    }
}

/// Points in the first camera's view, around the median of each coordinate.
pub open spec fn centred<S: Scalar, D: Widens<S> + Analytic>(a: Seq<D>, xyz: Seq<S>) -> Seq<S> {
    Seq::new(
        xyz.len() / 3 * 3,
        |q: int|
            {
                let column = moved::<S, D>(a, xyz, q % 3);
                D::widened_spec(column[q / 3]).minus_spec(middle::<S, D>(column)).narrowed_spec()
            },
    )
}

/// The view moved to the points' middle.
pub open spec fn centred_view<S: Scalar, D: Widens<S> + Analytic>(a: Seq<D>, xyz: Seq<S>) -> Seq<
    D,
> {
    Seq::new(
        16,
        |p: int|
            if p == 3 || p == 7 || p == 11 {
                a[p].minus_spec(middle::<S, D>(moved::<S, D>(a, xyz, p / 4)))
            } else {
                a[p]
            },
    )
}

/// Every third number from `c` on.
pub open spec fn column<S>(pos: Seq<S>, c: int) -> Seq<S> {
    Seq::new(pos.len() / 3, |p: int| pos[3 * p + c])
}

fn column_of<S: Scalar>(pos: &[S], c: usize) -> (out: Vec<S>)
    requires
        c < 3,
    ensures
        out@ == column(pos@, c as int),
{
    let n: usize = pos.len() / 3;
    let mut out: Vec<S> = Vec::new();
    let mut p: usize = 0;
    while p < n
        invariant
            p <= n,
            n == pos.len() / 3,
            c < 3,
            out.len() == p,
            forall|j: int| 0 <= j < p ==> #[trigger] out[j] == pos[3 * j + c],
        decreases n - p,
    {
        out.push(pos[3 * p + c]);
        p = p + 1;
    }
    assert(out@ =~= column(pos@, c as int));
    out
}

/// How far a coordinate reaches, from its 5th to its 95th percentile.
pub open spec fn reach<S: Scalar, D: Widens<S> + Analytic>(v: Seq<S>) -> D {
    percentile_of::<S, D>(v, D::ratio_spec(95, 1)).minus_spec(
        percentile_of::<S, D>(v, D::ratio_spec(5, 1)),
    )
}

fn reach_of<S: Scalar, D: Widens<S> + Analytic>(v: &[S]) -> (r: D)
    ensures
        r == reach::<S, D>(v@),
{
    let lo: D = percentile_linear(v, D::ratio(5, 1));
    let hi: D = percentile_linear(v, D::ratio(95, 1));
    hi.minus(lo)
}

/// The diagonal of the scene; one where there is none.
pub open spec fn scene_scale<S: Scalar, D: Widens<S> + Analytic>(pos: Seq<S>) -> D {
    let (dx, dy, dz) = (
        reach::<S, D>(column(pos, 0)),
        reach::<S, D>(column(pos, 1)),
        reach::<S, D>(column(pos, 2)),
    );
    let diag = dx.times_spec(dx).plus_spec(dy.times_spec(dy)).plus_spec(
        dz.times_spec(dz),
    ).root_spec();
    if pos.len() / 3 >= 2 && finite_spec(diag) && zero::<D>().less_spec(diag) {
        diag
    } else {
        one()
    }
}

fn scene_scale_of<S: Scalar, D: Widens<S> + Analytic>(pos: &[S]) -> (r: D)
    ensures
        r == scene_scale::<S, D>(pos@),
{
    if pos.len() / 3 >= 2 {
        let dx: D = reach_of(column_of(pos, 0).as_slice());
        let dy: D = reach_of(column_of(pos, 1).as_slice());
        let dz: D = reach_of(column_of(pos, 2).as_slice());
        let diag: D = dx.times(dx).plus(dy.times(dy)).plus(dz.times(dz)).root();
        if finite(diag) && D::ratio(0, 1).less(diag) {
            return diag;
        }
    }
    D::ratio(1, 1)
}

/// Corner `c` of a camera's image plane in camera space, at distance `scale`.
pub open spec fn plane_corner<D: Scalar>(k: Seq<D>, w: i32, h: i32, c: int, scale: D) -> (D, D, D) {
    let cx = if c == 1 || c == 2 {
        D::ratio_spec((w - 1) as i32, 1)
    } else {
        zero::<D>()
    };
    let cy = if c >= 2 {
        D::ratio_spec((h - 1) as i32, 1)
    } else {
        zero::<D>()
    };
    let cz = one::<D>();
    let ray = |r: int|
        k[3 * r].times_spec(cx).plus_spec(k[3 * r + 1].times_spec(cy)).plus_spec(
            k[3 * r + 2].times_spec(cz),
        );
    let z = if ray(2).same_spec(zero()) {
        one::<D>()
    } else {
        ray(2)
    };
    (
        ray(0).over_spec(z).times_spec(scale),
        ray(1).over_spec(z).times_spec(scale),
        ray(2).over_spec(z).times_spec(scale),
    )
}

/// Where a line of a camera's outline starts or ends: zero for the camera,
/// then one to four for a corner. Four lines lead to the corners, four around.
pub open spec fn outline_vertex(i: int) -> int {
    if i < 8 {
        if i % 2 == 0 {
            0
        } else {
            i / 2 + 1
        }
    } else if i % 2 == 0 {
        i / 2 - 3
    } else if i == 15 {
        1
    } else {
        i / 2 - 2
    }
}

/// A vertex of a camera's outline in the world.
pub open spec fn outline_point<D: Scalar>(
    k: Seq<D>,
    cw: Seq<D>,
    w: i32,
    h: i32,
    scale: D,
    vertex: int,
) -> Seq<D> {
    if vertex == 0 {
        seq![cw[3], cw[7], cw[11]]
    } else {
        let (x, y, z) = plane_corner(k, w, h, vertex - 1, scale);
        seq![affine(cw, 0, x, y, z), affine(cw, 1, x, y, z), affine(cw, 2, x, y, z)]
    }
}

/// A matrix in higher precision.
pub open spec fn widened_all<S: Scalar, D: Widens<S>>(m: Seq<S>) -> Seq<D> {
    Seq::new(m.len(), |i: int| D::widened_spec(m[i]))
}

/// The outline of a camera: sixteen points, two for each line; nothing where one
/// of its matrices has no inverse.
pub open spec fn outline<S: Scalar, D: Widens<S>>(
    cam: Camera<S>,
    w: i32,
    h: i32,
    scale: D,
) -> Seq<D> {
    match (cam.intrinsics_inverse, cam.ext_inverse) {
        (Some(k), Some(e)) => Seq::new(
            48,
            |p: int|
                outline_point(
                    widened_all::<S, D>(k@),
                    widened_all::<S, D>(e@),
                    w,
                    h,
                    scale,
                    outline_vertex(p / 3),
                )[p % 3],
        ),
        _ => Seq::empty(),
    }
}

fn corner<D: Scalar>(k: &[D; 9], cw: &[D; 16], w: i32, h: i32, c: usize, scale: D) -> (r: [D; 3])
    requires
        c < 4,
        0 <= w,
        0 <= h,
    ensures
        r@ == outline_point(k@, cw@, w, h, scale, c + 1),
{
    let cx: D = if c == 1 || c == 2 {
        D::ratio(w - 1, 1)
    } else {
        D::ratio(0, 1)
    };
    let cy: D = if c >= 2 {
        D::ratio(h - 1, 1)
    } else {
        D::ratio(0, 1)
    };
    let cz: D = D::ratio(1, 1);
    let rx: D = k[0].times(cx).plus(k[1].times(cy)).plus(k[2].times(cz));
    let ry: D = k[3].times(cx).plus(k[4].times(cy)).plus(k[5].times(cz));
    let rz: D = k[6].times(cx).plus(k[7].times(cy)).plus(k[8].times(cz));
    let z: D = if rz.same(D::ratio(0, 1)) {
        cz
    } else {
        rz
    };
    let px: D = rx.over(z).times(scale);
    let py: D = ry.over(z).times(scale);
    let pz: D = rz.over(z).times(scale);
    let r: [D; 3] = [
        affine_row(cw, 0, px, py, pz),
        affine_row(cw, 1, px, py, pz),
        affine_row(cw, 2, px, py, pz),
    ];
    assert(r@ =~= outline_point(k@, cw@, w, h, scale, c + 1));
    r
}

fn widen9<S: Scalar, D: Widens<S>>(k: &[S; 9]) -> (r: [D; 9])
    ensures
        r@ == widened_all::<S, D>(k@),
{
    let r: [D; 9] = [
        D::widened(k[0]),
        D::widened(k[1]),
        D::widened(k[2]),
        D::widened(k[3]),
        D::widened(k[4]),
        D::widened(k[5]),
        D::widened(k[6]),
        D::widened(k[7]),
        D::widened(k[8]),
    ];
    assert(r@ =~= widened_all::<S, D>(k@));
    r
}

fn widen16<S: Scalar, D: Widens<S>>(k: &[S; 16]) -> (r: [D; 16])
    ensures
        r@ == widened_all::<S, D>(k@),
{
    let r: [D; 16] = [
        D::widened(k[0]),
        D::widened(k[1]),
        D::widened(k[2]),
        D::widened(k[3]),
        D::widened(k[4]),
        D::widened(k[5]),
        D::widened(k[6]),
        D::widened(k[7]),
        D::widened(k[8]),
        D::widened(k[9]),
        D::widened(k[10]),
        D::widened(k[11]),
        D::widened(k[12]),
        D::widened(k[13]),
        D::widened(k[14]),
        D::widened(k[15]),
    ];
    assert(r@ =~= widened_all::<S, D>(k@));
    r
}

/// The outline of a camera as pairs of points in the world: from the camera to
/// the corners of its image, and around the image.
pub fn camera_frustum_lines<S: Scalar, D: Widens<S>>(
    cam: &Camera<S>,
    w: i32,
    h: i32,
    scale: D,
) -> (out: Vec<D>)
    requires
        0 <= w,
        0 <= h,
    ensures
        out@ == outline::<S, D>(*cam, w, h, scale),
{
    let mut out: Vec<D> = Vec::new();
    let ki: [D; 9] = match &cam.intrinsics_inverse {
        Some(k) => widen9(k),
        None => {
            assert(out@ =~= outline::<S, D>(*cam, w, h, scale));
            return out;
        },
    };
    let cw: [D; 16] = match &cam.ext_inverse {
        Some(e) => widen16(e),
        None => {
            assert(out@ =~= outline::<S, D>(*cam, w, h, scale));
            return out;
        },
    };
    let centre: [D; 3] = [cw[3], cw[7], cw[11]];
    assert(centre@ =~= outline_point(ki@, cw@, w, h, scale, 0));
    let c1: [D; 3] = corner(&ki, &cw, w, h, 0, scale);
    let c2: [D; 3] = corner(&ki, &cw, w, h, 1, scale);
    let c3: [D; 3] = corner(&ki, &cw, w, h, 2, scale);
    let c4: [D; 3] = corner(&ki, &cw, w, h, 3, scale);
    let ghost want = outline::<S, D>(*cam, w, h, scale);
    let mut i: usize = 0;
    while i < 16
        invariant
            i <= 16,
            out.len() == 3 * i,
            want == outline::<S, D>(*cam, w, h, scale),
            cam.intrinsics_inverse matches Some(k) && ki@ == widened_all::<S, D>(k@),
            cam.ext_inverse matches Some(e) && cw@ == widened_all::<S, D>(e@),
            centre@ == outline_point(ki@, cw@, w, h, scale, 0),
            c1@ == outline_point(ki@, cw@, w, h, scale, 1),
            c2@ == outline_point(ki@, cw@, w, h, scale, 2),
            c3@ == outline_point(ki@, cw@, w, h, scale, 3),
            c4@ == outline_point(ki@, cw@, w, h, scale, 4),
            forall|p: int| 0 <= p < 3 * i ==> #[trigger] out[p] == want[p],
        decreases 16 - i,
    {
        let vertex: usize = if i < 8 {
            if i % 2 == 0 {
                0
            } else {
                i / 2 + 1
            }
        } else if i % 2 == 0 {
            i / 2 - 3
        } else if i == 15 {
            1
        } else {
            i / 2 - 2
        };
        let pt: [D; 3] = match vertex {
            0 => centre,
            1 => c1,
            2 => c2,
            3 => c3,
            _ => c4,
        };
        assert(pt@ == outline_point(ki@, cw@, w, h, scale, outline_vertex(i as int)));
        out.push(pt[0]);
        out.push(pt[1]);
        out.push(pt[2]);
        assert(out[3 * i] == want[3 * i]);
        assert(out[3 * i + 1] == want[3 * i + 1]);
        assert(out[3 * i + 2] == want[3 * i + 2]);
        i = i + 1;
    }
    assert(out@ =~= want);
    out
}

/// Points of the world, moved by `a` and rounded.
pub open spec fn placed<S: Scalar, D: Widens<S>>(a: Seq<D>, pts: Seq<D>) -> Seq<S> {
    Seq::new(
        pts.len() / 3 * 3,
        |q: int|
            affine(
                a,
                q % 3,
                pts[q / 3 * 3],
                pts[q / 3 * 3 + 1],
                pts[q / 3 * 3 + 2],
            ).narrowed_spec(),
    )
}

/// One opaque colour, `n` times.
pub open spec fn painted(colour: Seq<u8>, n: nat) -> Seq<u8> {
    Seq::new(
        n * 4,
        |q: int|
            if q % 4 == 3 {
                255
            } else {
                colour[q % 4]
            },
    )
}

/// The outlines of the first `n` cameras, moved by `a`.
pub open spec fn outlines<S: Scalar, D: Widens<S>>(
    cameras: Seq<Camera<S>>,
    a: Seq<D>,
    w: i32,
    h: i32,
    scale: D,
    n: nat,
) -> Seq<S>
    decreases n,
{
    if n == 0 {
        Seq::empty()
    } else {
        outlines::<S, D>(cameras, a, w, h, scale, (n - 1) as nat) + placed::<S, D>(
            a,
            outline::<S, D>(cameras[n - 1], w, h, scale),
        )
    }
}

/// The colours of the outlines of the first `n` cameras.
pub open spec fn outline_colours<S: Scalar, D: Widens<S>>(
    cameras: Seq<Camera<S>>,
    w: i32,
    h: i32,
    scale: D,
    n: nat,
) -> Seq<u8>
    decreases n,
{
    if n == 0 {
        Seq::empty()
    } else {
        outline_colours::<S, D>(cameras, w, h, scale, (n - 1) as nat) + painted(
            frame_colour::<D>((n - 1) as i32, cameras.len() as i32),
            outline::<S, D>(cameras[n - 1], w, h, scale).len() / 3,
        )
    }
}

/// Points and lines, ready to be written.
pub struct Scene<S> {
    /// Three coordinates per point.
    pub pos: Vec<S>,
    /// Three bytes per point.
    pub rgb: Vec<u8>,
    /// Three coordinates per line end.
    pub line_pos: Vec<S>,
    /// Four bytes per line end.
    pub line_col: Vec<u8>,
}

impl<S> Scene<S> {
    /// The lengths agree.
    pub open spec fn wf(&self) -> bool {
        &&& self.pos.len() % 3 == 0
        &&& self.rgb.len() == self.pos.len()
        &&& self.line_pos.len() % 3 == 0
        &&& self.line_col.len() == self.line_pos.len() / 3 * 4
    }
}

/// Whether a scene is the one that points and cameras make.
pub open spec fn is_scene<S: Scalar, D: Widens<S> + Analytic>(
    s: Scene<S>,
    wp: WorldPoints<S>,
    cameras: Seq<Camera<S>>,
    w: i32,
    h: i32,
    opt: GlbOptions<S>,
) -> bool {
    let a = first_view::<S, D>(cameras);
    let pos = centred::<S, D>(a, wp.xyz@);
    let view = centred_view::<S, D>(a, wp.xyz@);
    let scale = scene_scale::<S, D>(pos).times_spec(D::widened_spec(opt.camera_size));
    let shown = if opt.show_cameras {
        cameras.len()
    } else {
        0
    };
    &&& s.pos@ == pos
    &&& s.rgb@ == wp.rgb@.take(pos.len() as int)
    &&& s.line_pos@ == outlines::<S, D>(cameras, view, w, h, scale, shown)
    &&& s.line_col@ == outline_colours::<S, D>(cameras, w, h, scale, shown)
}

fn append_placed<S: Scalar, D: Widens<S>>(out: &mut Vec<S>, a: &[D; 16], pts: &[D])
    ensures
        final(out)@ == old(out)@ + placed::<S, D>(a@, pts@),
{
    let ghost start = out@;
    let ghost want = placed::<S, D>(a@, pts@);
    let n: usize = pts.len() / 3;
    let mut k: usize = 0;
    while k < n
        invariant
            k <= n,
            n == pts.len() / 3,
            start == old(out)@,
            want == placed::<S, D>(a@, pts@),
            out.len() == start.len() + 3 * k,
            forall|j: int| 0 <= j < start.len() ==> #[trigger] out[j] == start[j],
            forall|j: int|
                start.len() <= j < start.len() + 3 * k ==> #[trigger] out[j] == want[j
                    - start.len()],
        decreases n - k,
    {
        let (x, y, z): (D, D, D) = apply44(a, pts[3 * k], pts[3 * k + 1], pts[3 * k + 2]);
        out.push(x.narrowed());
        out.push(y.narrowed());
        out.push(z.narrowed());
        proof {
            assert(want[3 * k] == x.narrowed_spec());
            assert(want[3 * k + 1] == y.narrowed_spec());
            assert(want[3 * k + 2] == z.narrowed_spec());
        }
        k = k + 1;
    }
    assert(out@ =~= start + want);
}

fn append_painted(out: &mut Vec<u8>, colour: &[u8; 3], n: usize)
    ensures
        final(out)@ == old(out)@ + painted(colour@, n as nat),
{
    let ghost start = out@;
    let mut k: usize = 0;
    while k < n
        invariant
            k <= n,
            start == old(out)@,
            out@ == start + painted(colour@, k as nat),
        decreases n - k,
    {
        let ghost before = out@;
        out.push(colour[0]);
        out.push(colour[1]);
        out.push(colour[2]);
        out.push(255);
        assert(out@ =~= start + painted(colour@, (k + 1) as nat)) by {
            assert forall|q: int| 4 * k <= q < 4 * k + 4 implies #[trigger] painted(
                colour@,
                (k + 1) as nat,
            )[q] == out@[start.len() + q] by {}
        }
        k = k + 1;
    }
}

proof fn lemma_outline_len<S: Scalar, D: Widens<S>>(cam: Camera<S>, w: i32, h: i32, scale: D)
    ensures
        outline::<S, D>(cam, w, h, scale).len() == 0 || outline::<S, D>(cam, w, h, scale).len()
            == 48,
{
}

/// A scene of points around their middle, seen from the first camera, and the
/// outlines of the cameras where they are shown.
pub fn build_scene<S: Scalar, D: Widens<S> + Analytic>(
    wp: &WorldPoints<S>,
    cameras: &[Camera<S>],
    w: i32,
    h: i32,
    opt: &GlbOptions<S>,
) -> (s: Scene<S>)
    requires
        0 <= w,
        0 <= h,
        cameras.len() <= i32::MAX,
        wp.rgb.len() >= wp.xyz.len() / 3 * 3,
    ensures
        s.wf(),
        is_scene::<S, D>(s, *wp, cameras@, w, h, *opt),
{
    let xyz: &[S] = wp.xyz.as_slice();
    let n: usize = xyz.len() / 3;
    let a: [D; 16] = first_view_of(cameras);
    let tx: Vec<S> = move_points(&a, xyz, 0);
    let ty: Vec<S> = move_points(&a, xyz, 1);
    let tz: Vec<S> = move_points(&a, xyz, 2);
    let cx: D = middle_of(tx.as_slice());
    let cy: D = middle_of(ty.as_slice());
    let cz: D = middle_of(tz.as_slice());
    let mut view: [D; 16] = a;
    view[3] = a[3].minus(cx);
    view[7] = a[7].minus(cy);
    view[11] = a[11].minus(cz);
    assert(view@ =~= centred_view::<S, D>(a@, xyz@));
    let ghost want = centred::<S, D>(a@, xyz@);
    let mut pos: Vec<S> = Vec::new();
    let mut rgb: Vec<u8> = Vec::new();
    let mut p: usize = 0;
    while p < n
        invariant
            p <= n,
            n == xyz.len() / 3,
            xyz@ == wp.xyz@,
            wp.rgb.len() >= n * 3,
            tx@ == moved::<S, D>(a@, xyz@, 0),
            ty@ == moved::<S, D>(a@, xyz@, 1),
            tz@ == moved::<S, D>(a@, xyz@, 2),
            cx == middle::<S, D>(tx@),
            cy == middle::<S, D>(ty@),
            cz == middle::<S, D>(tz@),
            want == centred::<S, D>(a@, xyz@),
            pos.len() == 3 * p,
            rgb@ == wp.rgb@.take(3 * p),
            forall|j: int| 0 <= j < 3 * p ==> #[trigger] pos[j] == want[j],
        decreases n - p,
    {
        pos.push(D::widened(tx[p]).minus(cx).narrowed());
        pos.push(D::widened(ty[p]).minus(cy).narrowed());
        pos.push(D::widened(tz[p]).minus(cz).narrowed());
        rgb.push(wp.rgb[3 * p]);
        rgb.push(wp.rgb[3 * p + 1]);
        rgb.push(wp.rgb[3 * p + 2]);
        proof {
            assert(pos[3 * p] == want[3 * p]);
            assert(pos[3 * p + 1] == want[3 * p + 1]);
            assert(pos[3 * p + 2] == want[3 * p + 2]);
            assert(rgb@ =~= wp.rgb@.take(3 * (p + 1)));
        }
        p = p + 1;
    }
    assert(pos@ =~= want);
    let scale: D = scene_scale_of::<S, D>(pos.as_slice()).times(D::widened(opt.camera_size));
    let shown: usize = if opt.show_cameras {
        cameras.len()
    } else {
        0
    };
    let mut line_pos: Vec<S> = Vec::new();
    let mut line_col: Vec<u8> = Vec::new();
    let mut i: usize = 0;
    while i < shown
        invariant
            i <= shown <= cameras.len(),
            cameras.len() <= i32::MAX,
            0 <= w,
            0 <= h,
            line_pos.len() % 3 == 0,
            line_col.len() == line_pos.len() / 3 * 4,
            line_pos@ == outlines::<S, D>(cameras@, view@, w, h, scale, i as nat),
            line_col@ == outline_colours::<S, D>(cameras@, w, h, scale, i as nat),
        decreases shown - i,
    {
        proof {
            lemma_outline_len::<S, D>(cameras@[i as int], w, h, scale);
        }
        let pts: Vec<D> = camera_frustum_lines(&cameras[i], w, h, scale);
        let colour: [u8; 3] = index_color_rgb::<D>(i as i32, cameras.len() as i32);
        append_placed(&mut line_pos, &view, pts.as_slice());
        append_painted(&mut line_col, &colour, pts.len() / 3);
        i = i + 1;
    }
    Scene { pos, rgb, line_pos, line_col }
}

// ---- buffers ----------------------------------------------------------------

/// Numbers as bytes, single precision.
pub open spec fn number_bytes<S: Stored>(v: Seq<S>) -> Seq<u8>
    decreases v.len(),
{
    if v.len() == 0 {
        Seq::empty()
    } else {
        number_bytes(v.drop_last()) + le_bytes(v.last().bits_spec() as nat, 4)
    }
}

/// Appends a number's four bytes.
pub fn put_f32<S: Stored>(b: &mut Vec<u8>, f: S)
    ensures
        final(b)@ == old(b)@ + le_bytes(f.bits_spec() as nat, 4),
{
    put_le(b, f.bits() as u128, 4);
}

/// Appends numbers as bytes.
pub fn put_numbers<S: Stored>(b: &mut Vec<u8>, v: &[S])
    ensures
        final(b)@ == old(b)@ + number_bytes(v@),
        final(b).len() == old(b).len() + 4 * v.len(),
{
    let ghost start = b@;
    let mut k: usize = 0;
    assert(v@.take(0) =~= Seq::empty());
    assert(b@ =~= start + number_bytes(v@.take(0)));
    while k < v.len()
        invariant
            k <= v.len(),
            start == old(b)@,
            b.len() == start.len() + 4 * k,
            b@ == start + number_bytes(v@.take(k as int)),
        decreases v.len() - k,
    {
        let ghost before = b@;
        put_f32(b, v[k]);
        proof {
            let t = v@.take(k + 1);
            assert(t.drop_last() =~= v@.take(k as int));
            lemma_le_bytes_len(v@[k as int].bits_spec() as nat, 4);
            assert(b@ =~= start + number_bytes(t));
        }
        k = k + 1;
    }
    assert(v@.take(k as int) =~= v@);
}

/// Colours with full opacity.
pub open spec fn opaque(rgb: Seq<u8>) -> Seq<u8> {
    Seq::new(
        rgb.len() / 3 * 4,
        |q: int|
            if q % 4 == 3 {
                255
            } else {
                rgb[q / 4 * 3 + q % 4]
            },
    )
}

fn put_opaque(b: &mut Vec<u8>, rgb: &[u8])
    ensures
        final(b)@ == old(b)@ + opaque(rgb@),
        final(b).len() == old(b).len() + rgb.len() / 3 * 4,
{
    let ghost start = b@;
    let ghost want = opaque(rgb@);
    let n: usize = rgb.len() / 3;
    let mut k: usize = 0;
    while k < n
        invariant
            k <= n,
            n == rgb.len() / 3,
            start == old(b)@,
            want == opaque(rgb@),
            b.len() == start.len() + 4 * k,
            forall|j: int| 0 <= j < start.len() ==> #[trigger] b[j] == start[j],
            forall|j: int|
                start.len() <= j < start.len() + 4 * k ==> #[trigger] b[j] == want[j
                    - start.len()],
        decreases n - k,
    {
        b.push(rgb[3 * k]);
        b.push(rgb[3 * k + 1]);
        b.push(rgb[3 * k + 2]);
        b.push(255);
        proof {
            assert(want[4 * k] == rgb[3 * k]);
            assert(want[4 * k + 1] == rgb[3 * k + 1]);
            assert(want[4 * k + 2] == rgb[3 * k + 2]);
            assert(want[4 * k + 3] == 255);
        }
        k = k + 1;
    }
    assert(b@ =~= start + want);
}

/// All of a scene's numbers and colours: points, their colours, line ends, their
/// colours.
pub open spec fn buffer_of<S: Stored>(s: Scene<S>) -> Seq<u8> {
    number_bytes(s.pos@) + opaque(s.rgb@) + number_bytes(s.line_pos@) + s.line_col@
}

/// A part of the buffer: where it starts, and how long it is.
pub open spec fn view_bounds(np: nat, nl: nat, points: bool, colours: bool) -> (nat, nat) {
    if points {
        if colours {
            (12 * np, 4 * np)
        } else {
            (0, 12 * np)
        }
    } else {
        if colours {
            (16 * np + 12 * nl, 4 * nl)
        } else {
            (16 * np, 12 * nl)
        }
    }
}

proof fn lemma_number_bytes_len<S: Stored>(v: Seq<S>)
    ensures
        number_bytes(v).len() == 4 * v.len(),
    decreases v.len(),
{
    if v.len() > 0 {
        lemma_number_bytes_len(v.drop_last());
        lemma_le_bytes_len(v.last().bits_spec() as nat, 4);
    }
}

/// Each part that the file lists holds what it is listed for, and starts at a
/// multiple of four.
pub proof fn law_buffer_parts<S: Stored>(s: Scene<S>)
    requires
        s.wf(),
    ensures
        ({
            let b = buffer_of(s);
            let np = s.pos@.len() / 3;
            let nl = s.line_pos@.len() / 3;
            let part = |points: bool, colours: bool|
                {
                    let (at, len) = view_bounds(np, nl, points, colours);
                    b.subrange(at as int, (at + len) as int)
                };
            &&& b.len() == 16 * np + 16 * nl
            &&& part(true, false) == number_bytes(s.pos@)
            &&& part(true, true) == opaque(s.rgb@)
            &&& part(false, false) == number_bytes(s.line_pos@)
            &&& part(false, true) == s.line_col@
            &&& forall|points: bool, colours: bool|
                (#[trigger] view_bounds(np, nl, points, colours)).0 % 4 == 0
        }),
{
    let b = buffer_of(s);
    let np = s.pos@.len() / 3;
    let nl = s.line_pos@.len() / 3;
    lemma_number_bytes_len(s.pos@);
    lemma_number_bytes_len(s.line_pos@);
    assert(b.subrange(0, (12 * np) as int) =~= number_bytes(s.pos@));
    assert(b.subrange((12 * np) as int, (16 * np) as int) =~= opaque(s.rgb@));
    assert(b.subrange((16 * np) as int, (16 * np + 12 * nl) as int) =~= number_bytes(
        s.line_pos@,
    ));
    assert(b.subrange((16 * np + 12 * nl) as int, (16 * np + 16 * nl) as int) =~= s.line_col@);
}

// ---- the description --------------------------------------------------------

/// The smallest coordinate `c` among the first point and the first `n` points.
pub open spec fn lowest_of<S: Scalar>(pos: Seq<S>, c: int, n: nat) -> S
    decreases n,
{
    if n == 0 {
        pos[c]
    } else {
        lowest_of(pos, c, (n - 1) as nat).smaller_spec(pos[3 * (n - 1) + c])
    }
}

/// The largest coordinate `c` among the first point and the first `n` points.
pub open spec fn highest_of<S: Scalar>(pos: Seq<S>, c: int, n: nat) -> S
    decreases n,
{
    if n == 0 {
        pos[c]
    } else {
        highest_of(pos, c, (n - 1) as nat).larger_spec(pos[3 * (n - 1) + c])
    }
}

fn extreme<S: Scalar>(pos: &[S], c: usize, low: bool) -> (r: S)
    requires
        c < 3,
        3 <= pos.len(),
    ensures
        low ==> r == lowest_of(pos@, c as int, pos@.len() / 3),
        !low ==> r == highest_of(pos@, c as int, pos@.len() / 3),
{
    let n: usize = pos.len() / 3;
    let mut r: S = pos[c];
    let mut k: usize = 0;
    while k < n
        invariant
            k <= n,
            c < 3,
            n == pos.len() / 3,
            low ==> r == lowest_of(pos@, c as int, k as nat),
            !low ==> r == highest_of(pos@, c as int, k as nat),
        decreases n - k,
    {
        r = if low {
            r.smaller(pos[3 * k + c])
        } else {
            r.larger(pos[3 * k + c])
        };
        k = k + 1;
    }
    r
}

/// A number as JSON text: never without a point or an exponent.
pub open spec fn json_number<S: Stored>(v: S) -> Seq<char> {
    let s = v.shown_spec(Style::Shortest);
    if s.contains('.') || s.contains('e') {
        s
    } else {
        s + ".0"@
    }
}

fn has_char(s: &str, c: char) -> (r: bool)
    ensures
        r == s@.contains(c),
{
    let n: usize = s.unicode_len();
    let mut i: usize = 0;
    while i < n
        invariant
            i <= n,
            n == s@.len(),
            forall|j: int| 0 <= j < i ==> s@[j] != c,
        decreases n - i,
    {
        if s.get_char(i) == c {
            assert(s@[i as int] == c);
            return true;
        }
        i = i + 1;
    }
    false
}

/// A number as JSON text.
pub fn fmt_f<S: Stored>(v: S) -> (r: String)
    ensures
        r@ == json_number(v),
{
    let mut s: String = v.shown(Style::Shortest);
    if has_char(s.as_str(), '.') || has_char(s.as_str(), 'e') {
        s
    } else {
        s.append(".0");
        s
    }
}

/// Three numbers in brackets.
pub open spec fn triple<S: Stored>(a: S, b: S, c: S) -> Seq<char> {
    "["@ + json_number(a) + ","@ + json_number(b) + ","@ + json_number(c) + "]"@
}

fn triple_text<S: Stored>(a: S, b: S, c: S) -> (r: String)
    ensures
        r@ == triple(a, b, c),
{
    let mut s: String = "[".to_owned();
    s.append(fmt_f(a).as_str());
    s.append(",");
    s.append(fmt_f(b).as_str());
    s.append(",");
    s.append(fmt_f(c).as_str());
    s.append("]");
    s
}

/// The accessors of positions and of their colours, at buffer views `at` and
/// `at + 1`.
pub open spec fn accessors<S: Stored>(pos: Seq<S>, at: nat) -> Seq<char> {
    let n = pos.len() / 3;
    "{\"bufferView\":"@ + digits(at) + ",\"componentType\":5126,\"count\":"@ + digits(n)
        + ",\"type\":\"VEC3\",\"min\":"@ + triple(
        lowest_of(pos, 0, n),
        lowest_of(pos, 1, n),
        lowest_of(pos, 2, n),
    ) + ",\"max\":"@ + triple(highest_of(pos, 0, n), highest_of(pos, 1, n), highest_of(pos, 2, n))
        + "},{\"bufferView\":"@ + digits(at + 1)
        + ",\"componentType\":5121,\"normalized\":true,\"count\":"@ + digits(n)
        + ",\"type\":\"VEC4\"}"@
}

fn accessors_text<S: Stored>(pos: &[S], at: u64) -> (s: String)
    requires
        3 <= pos.len(),
        at < 4,
    ensures
        s@ == accessors(pos@, at as nat),
{
    let n: u64 = (pos.len() / 3) as u64;
    let mut s: String = "{\"bufferView\":".to_owned();
    s.append(decimal(at).as_str());
    s.append(",\"componentType\":5126,\"count\":");
    s.append(decimal(n).as_str());
    s.append(",\"type\":\"VEC3\",\"min\":");
    s.append(
        triple_text(
            extreme(pos, 0, true),
            extreme(pos, 1, true),
            extreme(pos, 2, true),
        ).as_str(),
    );
    s.append(",\"max\":");
    s.append(
        triple_text(
            extreme(pos, 0, false),
            extreme(pos, 1, false),
            extreme(pos, 2, false),
        ).as_str(),
    );
    s.append("},{\"bufferView\":");
    s.append(decimal(at + 1).as_str());
    s.append(",\"componentType\":5121,\"normalized\":true,\"count\":");
    s.append(decimal(n).as_str());
    s.append(",\"type\":\"VEC4\"}");
    s
}

/// A primitive of points (mode 0) or lines (mode 1) over two accessors.
pub open spec fn primitive(at: nat, mode: nat) -> Seq<char> {
    "{\"attributes\":{\"POSITION\":"@ + digits(at) + ",\"COLOR_0\":"@ + digits(at + 1)
        + "},\"mode\":"@ + digits(mode) + "}"@
}

fn primitive_text(at: u64, mode: u64) -> (s: String)
    requires
        at < 4,
    ensures
        s@ == primitive(at as nat, mode as nat),
{
    let mut s: String = "{\"attributes\":{\"POSITION\":".to_owned();
    s.append(decimal(at).as_str());
    s.append(",\"COLOR_0\":");
    s.append(decimal(at + 1).as_str());
    s.append("},\"mode\":");
    s.append(decimal(mode).as_str());
    s.append("}");
    s
}

/// A buffer view.
pub open spec fn buffer_view(at: nat, len: nat) -> Seq<char> {
    "{\"buffer\":0,\"byteOffset\":"@ + digits(at) + ",\"byteLength\":"@ + digits(len)
        + ",\"target\":34962}"@
}

fn buffer_view_text(at: u64, len: u64) -> (s: String)
    ensures
        s@ == buffer_view(at as nat, len as nat),
{
    let mut s: String = "{\"buffer\":0,\"byteOffset\":".to_owned();
    s.append(decimal(at).as_str());
    s.append(",\"byteLength\":");
    s.append(decimal(len).as_str());
    s.append(",\"target\":34962}");
    s
}

/// What stands for the points, for the lines, or for both with a comma between.
pub open spec fn both(np: nat, nl: nat, points: Seq<char>, lines: Seq<char>) -> Seq<char> {
    if np > 0 && nl > 0 {
        points + ","@ + lines
    } else if np > 0 {
        points
    } else {
        lines
    }
}

fn join(np: usize, nl: usize, points: String, lines: String) -> (s: String)
    ensures
        s@ == both(np as nat, nl as nat, points@, lines@),
{
    if np > 0 && nl > 0 {
        let mut s: String = points;
        s.append(",");
        s.append(lines.as_str());
        s
    } else if np > 0 {
        points
    } else {
        lines
    }
}

/// The two buffer views of points or of lines.
pub open spec fn view_pair(np: nat, nl: nat, points: bool) -> Seq<char> {
    let a = view_bounds(np, nl, points, false);
    let b = view_bounds(np, nl, points, true);
    buffer_view(a.0, a.1) + ","@ + buffer_view(b.0, b.1)
}

fn view_pair_text(np: usize, nl: usize, points: bool) -> (s: String)
    requires
        16 * np + 16 * nl <= u32::MAX,
    ensures
        s@ == view_pair(np as nat, nl as nat, points),
{
    let (p, l): (u64, u64) = (np as u64, nl as u64);
    let (a, b): ((u64, u64), (u64, u64)) = if points {
        ((0, 12 * p), (12 * p, 4 * p))
    } else {
        ((16 * p, 12 * l), (16 * p + 12 * l, 4 * l))
    };
    let mut s: String = buffer_view_text(a.0, a.1);
    s.append(",");
    s.append(buffer_view_text(b.0, b.1).as_str());
    s
}

/// The description of a scene with something to draw.
pub open spec fn drawn<S: Stored>(s: Scene<S>) -> Seq<char> {
    let np = s.pos@.len() / 3;
    let nl = s.line_pos@.len() / 3;
    let at: nat = if np > 0 {
        2
    } else {
        0
    };
    ",\"scene\":0,\"scenes\":[{\"nodes\":[0]}],\"nodes\":[{\"mesh\":0}],\"bufferViews\":["@ + both(
        np,
        nl,
        view_pair(np, nl, true),
        view_pair(np, nl, false),
    ) + "],\"accessors\":["@ + both(np, nl, accessors(s.pos@, 0), accessors(s.line_pos@, at))
        + "],\"meshes\":[{\"primitives\":["@ + both(np, nl, primitive(0, 0), primitive(at, 1))
        + "]}],\"buffers\":[{\"byteLength\":"@ + digits(16 * np + 16 * nl) + "}]}"@
}

/// The description of a scene.
pub open spec fn glb_json<S: Stored>(s: Scene<S>) -> Seq<char> {
    "{\"asset\":{\"version\":\"2.0\",\"generator\":\"depth-anything.rs\"}"@ + (if s.pos@.len() > 0
        || s.line_pos@.len() > 0 {
        drawn(s)
    } else {
        ",\"scene\":0,\"scenes\":[{\"nodes\":[]}]}"@
    })
}

fn drawn_text<S: Stored>(s: &Scene<S>) -> (out: String)
    requires
        s.wf(),
        s.pos.len() > 0 || s.line_pos.len() > 0,
        16 * (s.pos.len() / 3) + 16 * (s.line_pos.len() / 3) <= u32::MAX,
    ensures
        out@ == drawn(*s),
{
    let np: usize = s.pos.len() / 3;
    let nl: usize = s.line_pos.len() / 3;
    let at: u64 = if np > 0 {
        2
    } else {
        0
    };
    let point_acc: String = if np > 0 {
        accessors_text(s.pos.as_slice(), 0)
    } else {
        String::new()
    };
    let line_acc: String = if nl > 0 {
        accessors_text(s.line_pos.as_slice(), at)
    } else {
        String::new()
    };
    let mut out: String =
        ",\"scene\":0,\"scenes\":[{\"nodes\":[0]}],\"nodes\":[{\"mesh\":0}],\"bufferViews\":[".to_owned();
    out.append(
        join(np, nl, view_pair_text(np, nl, true), view_pair_text(np, nl, false)).as_str(),
    );
    out.append("],\"accessors\":[");
    out.append(join(np, nl, point_acc, line_acc).as_str());
    out.append("],\"meshes\":[{\"primitives\":[");
    out.append(join(np, nl, primitive_text(0, 0), primitive_text(at, 1)).as_str());
    out.append("]}],\"buffers\":[{\"byteLength\":");
    out.append(decimal(16 * (np as u64) + 16 * (nl as u64)).as_str());
    out.append("}]}");
    out
}

/// The description of a scene.
pub fn describe<S: Stored>(s: &Scene<S>) -> (out: String)
    requires
        s.wf(),
        16 * (s.pos.len() / 3) + 16 * (s.line_pos.len() / 3) <= u32::MAX,
    ensures
        out@ == glb_json(*s),
{
    let mut out: String =
        "{\"asset\":{\"version\":\"2.0\",\"generator\":\"depth-anything.rs\"}".to_owned();
    if s.pos.len() > 0 || s.line_pos.len() > 0 {
        out.append(drawn_text(s).as_str());
    } else {
        out.append(",\"scene\":0,\"scenes\":[{\"nodes\":[]}]}");
    }
    out
}

// ---- the file ---------------------------------------------------------------

/// The file: a header, the description padded with spaces, and the buffer where
/// there is one.
pub open spec fn glb_file(json: Seq<u8>, bin: Seq<u8>) -> Seq<u8> {
    let text = padded(json, 0x20);
    let total = 20 + text.len() + (if bin.len() > 0 {
        8 + bin.len()
    } else {
        0
    });
    let head = le_bytes(0x4654_6c67, 4) + le_bytes(2, 4) + le_bytes(total, 4) + le_bytes(
        text.len(),
        4,
    ) + le_bytes(0x4e4f_534a, 4) + text;
    if bin.len() > 0 {
        head + le_bytes(bin.len(), 4) + le_bytes(0x004e_4942, 4) + bin
    } else {
        head
    }
}

/// Puts the description and the buffer together.
pub fn frame_glb(json: &[u8], bin: &[u8]) -> (out: Vec<u8>)
    ensures
        out@ == glb_file(json@, bin@),
{
    let mut text: Vec<u8> = Vec::new();
    put_bytes(&mut text, json);
    pad(&mut text, 0x20);
    assert(Seq::<u8>::empty() + json@ =~= json@);
    let total: u128 = 20 + text.len() as u128 + (if bin.len() > 0 {
        8 + bin.len() as u128
    } else {
        0
    });
    let mut out: Vec<u8> = Vec::new();
    put_le(&mut out, 0x4654_6c67, 4);
    put_le(&mut out, 2, 4);
    put_le(&mut out, total, 4);
    put_le(&mut out, text.len() as u128, 4);
    put_le(&mut out, 0x4e4f_534a, 4);
    put_bytes(&mut out, text.as_slice());
    if bin.len() > 0 {
        put_le(&mut out, bin.len() as u128, 4);
        put_le(&mut out, 0x004e_4942, 4);
        put_bytes(&mut out, bin);
    }
    assert(out@ =~= glb_file(json@, bin@));
    out
}

/// The length that a file states is its own, and its parts start at multiples of
/// four.
#[verifier::spinoff_prover]
#[verifier::rlimit(50)]
pub proof fn law_glb_lengths(json: Seq<u8>, bin: Seq<u8>)
    requires
        glb_file(json, bin).len() < 0x1_0000_0000,
        bin.len() % 4 == 0,
    ensures
        ({
            let f = glb_file(json, bin);
            let text = le_number(f.subrange(12, 16));
            &&& le_number(f.subrange(8, 12)) == f.len()
            &&& text % 4 == 0
            &&& f.len() % 4 == 0
            &&& text >= json.len()
            &&& f.subrange(20, 20 + json.len() as int) == json
            &&& bin.len() > 0 ==> le_number(f.subrange(20 + text as int, 24 + text as int))
                == bin.len() && f.skip(28 + text as int) == bin
        }),
{
    lemma_glb_parts(json, bin);
    let text = padded(json, 0x20);
    let total = glb_file(json, bin).len();
    lemma_word_round_trip(total);
    lemma_word_round_trip(text.len());
    lemma_word_round_trip(bin.len());
}

proof fn lemma_word_round_trip(n: nat)
    requires
        n < 0x1_0000_0000,
    ensures
        le_number(le_bytes(n, 4)) == n,
{
    assert(0x1_0000_0000 == crate::text::byte_limit(4)) by {
        reveal_with_fuel(crate::text::byte_limit, 5);
    }
    law_le_round_trip(n, 4);
}

proof fn lemma_glb_parts(json: Seq<u8>, bin: Seq<u8>)
    ensures
        ({
            let f = glb_file(json, bin);
            let text = padded(json, 0x20);
            let at = 20 + text.len() as int;
            &&& text.len() % 4 == 0
            &&& text.len() >= json.len()
            &&& f.len() == at + (if bin.len() > 0 {
                8 + bin.len()
            } else {
                0
            })
            &&& f.subrange(8, 12) == le_bytes(f.len(), 4)
            &&& f.subrange(12, 16) == le_bytes(text.len(), 4)
            &&& f.subrange(20, 20 + json.len() as int) == json
            &&& bin.len() > 0 ==> f.subrange(at, at + 4) == le_bytes(bin.len(), 4) && f.skip(at + 8)
                == bin
        }),
{
    let text = padded(json, 0x20);
    let total = 20 + text.len() + (if bin.len() > 0 {
        8 + bin.len()
    } else {
        0
    });
    let (a, b, c, d, e) = (
        le_bytes(0x4654_6c67, 4),
        le_bytes(2, 4),
        le_bytes(total, 4),
        le_bytes(text.len(), 4),
        le_bytes(0x4e4f_534a, 4),
    );
    let tail = if bin.len() > 0 {
        le_bytes(bin.len(), 4) + le_bytes(0x004e_4942, 4) + bin
    } else {
        Seq::empty()
    };
    lemma_le_bytes_len(0x4654_6c67, 4);
    lemma_le_bytes_len(2, 4);
    lemma_le_bytes_len(total, 4);
    lemma_le_bytes_len(text.len(), 4);
    lemma_le_bytes_len(0x4e4f_534a, 4);
    lemma_le_bytes_len(bin.len(), 4);
    lemma_le_bytes_len(0x004e_4942, 4);
    lemma_frame(a, b, c, d, e, text, tail);
    let f = glb_file(json, bin);
    assert(f =~= a + b + c + d + e + text + tail);
    assert(f.subrange(20, 20 + json.len() as int) =~= f.subrange(
        20,
        20 + text.len() as int,
    ).take(json.len() as int));
    assert(text.take(json.len() as int) =~= json);
    if bin.len() > 0 {
        let at = 20 + text.len() as int;
        assert(f.subrange(at, at + 4) =~= f.skip(at).take(4));
        assert(tail.take(4) =~= le_bytes(bin.len(), 4));
        assert(f.skip(at + 8) =~= f.skip(at).skip(8));
        assert(tail.skip(8) =~= bin);
    }
}

/// Where the parts of a frame stand.
proof fn lemma_frame(
    a: Seq<u8>,
    b: Seq<u8>,
    c: Seq<u8>,
    d: Seq<u8>,
    e: Seq<u8>,
    text: Seq<u8>,
    tail: Seq<u8>,
)
    requires
        a.len() == 4,
        b.len() == 4,
        c.len() == 4,
        d.len() == 4,
        e.len() == 4,
    ensures
        ({
            let f = a + b + c + d + e + text + tail;
            &&& f.len() == 20 + text.len() + tail.len()
            &&& f.subrange(8, 12) == c
            &&& f.subrange(12, 16) == d
            &&& f.subrange(20, 20 + text.len() as int) == text
            &&& f.skip(20 + text.len() as int) == tail
        }),
{
    let f = a + b + c + d + e + text + tail;
    assert(f.subrange(8, 12) =~= c);
    assert(f.subrange(12, 16) =~= d);
    assert(f.subrange(20, 20 + text.len() as int) =~= text);
    assert(f.skip(20 + text.len() as int) =~= tail);
}

/// A scene as the bytes of a file.
pub fn glb_bytes<S: Stored>(s: &Scene<S>) -> (out: Vec<u8>)
    requires
        s.wf(),
        16 * (s.pos.len() / 3) + 16 * (s.line_pos.len() / 3) <= u32::MAX,
    ensures
        out@ == glb_file(vstd::utf8::encode_utf8(glb_json(*s)), buffer_of(*s)),
{
    let mut bin: Vec<u8> = Vec::new();
    put_numbers(&mut bin, s.pos.as_slice());
    put_opaque(&mut bin, s.rgb.as_slice());
    put_numbers(&mut bin, s.line_pos.as_slice());
    put_bytes(&mut bin, s.line_col.as_slice());
    assert(bin@ =~= buffer_of(*s));
    let json: String = describe(s);
    let mut text: Vec<u8> = Vec::new();
    put_text(&mut text, json.as_str());
    assert(text@ =~= vstd::utf8::encode_utf8(glb_json(*s)));
    frame_glb(text.as_slice(), bin.as_slice())
}

/// The bytes of a scene of the points and the cameras.
pub open spec fn is_glb<S: Stored, D: Widens<S> + Analytic>(
    out: Seq<u8>,
    wp: WorldPoints<S>,
    cameras: Seq<Camera<S>>,
    w: i32,
    h: i32,
    opt: GlbOptions<S>,
) -> bool {
    exists|s: Scene<S>|
        {
            &&& s.wf()
            &&& #[trigger] is_scene::<S, D>(s, wp, cameras, w, h, opt)
            &&& out == glb_file(vstd::utf8::encode_utf8(glb_json(s)), buffer_of(s))
        }
}

/// Points and cameras as the bytes of a file.
pub fn write_glb<S: Stored, D: Widens<S> + Analytic>(
    wp: &WorldPoints<S>,
    cameras: &[Camera<S>],
    w: i32,
    h: i32,
    opt: &GlbOptions<S>,
) -> (out: Vec<u8>)
    requires
        0 <= w,
        0 <= h,
        wp.rgb.len() >= wp.xyz.len() / 3 * 3,
        16 * (wp.xyz.len() / 3) + 256 * cameras.len() <= u32::MAX,
    ensures
        is_glb::<S, D>(out@, *wp, cameras@, w, h, *opt),
{
    let s: Scene<S> = build_scene::<S, D>(wp, cameras, w, h, opt);
    proof {
        let a = first_view::<S, D>(cameras@);
        let pos = centred::<S, D>(a, wp.xyz@);
        let view = centred_view::<S, D>(a, wp.xyz@);
        let scale = scene_scale::<S, D>(pos).times_spec(D::widened_spec(opt.camera_size));
        let shown = if opt.show_cameras {
            cameras@.len()
        } else {
            0
        };
        lemma_outlines_len::<S, D>(cameras@, view, w, h, scale, shown);
    }
    glb_bytes(&s)
}

proof fn lemma_outlines_len<S: Scalar, D: Widens<S>>(
    cameras: Seq<Camera<S>>,
    a: Seq<D>,
    w: i32,
    h: i32,
    scale: D,
    n: nat,
)
    requires
        n <= cameras.len(),
    ensures
        outlines::<S, D>(cameras, a, w, h, scale, n).len() <= 48 * n,
    decreases n,
{
    if n > 0 {
        lemma_outlines_len::<S, D>(cameras, a, w, h, scale, (n - 1) as nat);
        lemma_outline_len::<S, D>(cameras[n - 1], w, h, scale);
    }
}

/// Where arithmetic is exact, the points of a scene stand around their middle: the
/// median of each coordinate is zero.
pub proof fn law_median_is_zero<S: Scalar, D: Widens<S> + Analytic>(
    v: spec_fn(S) -> real,
    u: spec_fn(D) -> real,
    s: Scene<S>,
    wp: WorldPoints<S>,
    cameras: Seq<Camera<S>>,
    w: i32,
    h: i32,
    opt: GlbOptions<S>,
    c: int,
)
    requires
        faithful(v),
        faithful(u),
        faithful_widening::<S, D>(v, u),
        is_scene::<S, D>(s, wp, cameras, w, h, opt),
        wp.xyz.len() >= 3,
        0 <= c < 3,
    ensures
        u(middle::<S, D>(column(s.pos@, c))) == 0 as real,
{
    let a = first_view::<S, D>(cameras);
    let before = moved::<S, D>(a, wp.xyz@, c);
    let after = column(s.pos@, c);
    let m = middle::<S, D>(before);
    assert(s.pos@.len() / 3 == wp.xyz@.len() / 3);
    assert forall|p: int| 0 <= p < before.len() implies v(#[trigger] after[p]) == v(before[p]) - u(
        m,
    ) by {
        let q = 3 * p + c;
        assert(q / 3 == p && q % 3 == c);
        let x = D::widened_spec(before[p]).minus_spec(m);
        assert(v(x.narrowed_spec()) == u(x));
    }
    law_quantile_moves(
        v,
        u,
        before,
        after,
        u(m),
        D::ratio_spec(50, 1).over_spec(D::ratio_spec(100, 1)),
    );
}

/// No point is dropped: a scene has as many points as were given, whatever the most
/// that is wanted.
pub proof fn law_all_points_stay<S: Stored, D: Widens<S> + Analytic + Stored>(
    bytes: Seq<u8>,
    wp: WorldPoints<S>,
    cameras: Seq<Camera<S>>,
    w: i32,
    h: i32,
    opt: GlbOptions<S>,
    limit: i32,
)
    ensures
        is_glb::<S, D>(bytes, wp, cameras, w, h, opt) == is_glb::<S, D>(
            bytes,
            wp,
            cameras,
            w,
            h,
            (GlbOptions { num_max_points: limit, ..opt }),
        ),
        centred::<S, D>(first_view::<S, D>(cameras), wp.xyz@).len() == wp.xyz@.len() / 3 * 3,
{
    let other = GlbOptions { num_max_points: limit, ..opt };
    let file = |s: Scene<S>| glb_file(vstd::utf8::encode_utf8(glb_json(s)), buffer_of(s));
    if is_glb::<S, D>(bytes, wp, cameras, w, h, opt) {
        let s = choose|s: Scene<S>|
            s.wf() && #[trigger] is_scene::<S, D>(s, wp, cameras, w, h, opt) && bytes == file(s);
        assert(is_scene::<S, D>(s, wp, cameras, w, h, other));
    }
    if is_glb::<S, D>(bytes, wp, cameras, w, h, other) {
        let s = choose|s: Scene<S>|
            s.wf() && #[trigger] is_scene::<S, D>(s, wp, cameras, w, h, other) && bytes == file(s);
        assert(is_scene::<S, D>(s, wp, cameras, w, h, opt));
    }
}

} // verus!
