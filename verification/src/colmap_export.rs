//! Sparse COLMAP models, binary and as text.

use crate::reconstruct::{percentile_linear, percentile_of, WorldPoints};
use crate::scalar::{from_int, number, zero, Analytic, Scalar, Stored, Style, Widens};
use crate::text::{decimal, decimal_signed, digits, le_bytes, put_bytes, put_le, put_text, signed_digits};
use vstd::prelude::*;
use vstd::string::*;

verus! {

/// One frame: intrinsics, world to camera, its rotation as a quaternion
/// `w x y z`, and the image it comes from.
pub struct Frame<S> {
    pub k: [S; 9],
    pub ext: [S; 16],
    pub qvec: [S; 4],
    pub name: String,
    pub orig_w: i64,
    pub orig_h: i64,
}

/// A frame's camera at the size of the image it comes from.
pub struct FrameData<S, D> {
    pub orig_w: i64,
    pub orig_h: i64,
    pub fx: D,
    pub fy: D,
    pub cx: D,
    pub cy: D,
    pub qvec: [S; 4],
    pub tx: D,
    pub ty: D,
    pub tz: D,
}

/// A frame's camera at the size of its image; frames are `w` by `h`.
pub open spec fn frame_data<S: Scalar, D: Widens<S>>(f: Frame<S>, w: int, h: int) -> FrameData<
    S,
    D,
> {
    let sw = from_int::<D>(f.orig_w as int).over_spec(D::from_count_spec(w as usize));
    let sh = from_int::<D>(f.orig_h as int).over_spec(D::from_count_spec(h as usize));
    FrameData {
        orig_w: f.orig_w,
        orig_h: f.orig_h,
        fx: D::widened_spec(f.k[0]).times_spec(sw),
        fy: D::widened_spec(f.k[4]).times_spec(sh),
        cx: D::widened_spec(f.k[2]).times_spec(sw),
        cy: D::widened_spec(f.k[5]).times_spec(sh),
        qvec: f.qvec,
        tx: D::widened_spec(f.ext[3]),
        ty: D::widened_spec(f.ext[7]),
        tz: D::widened_spec(f.ext[11]),
    }
}

/// Sizes that can be counted.
pub open spec fn countable_size<S>(f: Frame<S>) -> bool {
    &&& -usize::MAX <= f.orig_w <= usize::MAX
    &&& -usize::MAX <= f.orig_h <= usize::MAX
}

fn frame_data_of<S: Scalar, D: Widens<S>>(f: &Frame<S>, w: usize, h: usize) -> (r: FrameData<S, D>)
    requires
        countable_size(*f),
    ensures
        r == frame_data::<S, D>(*f, w as int, h as int),
{
    let sw: D = number::<D>(f.orig_w).over(D::from_count(w));
    let sh: D = number::<D>(f.orig_h).over(D::from_count(h));
    FrameData {
        orig_w: f.orig_w,
        orig_h: f.orig_h,
        fx: D::widened(f.k[0]).times(sw),
        fy: D::widened(f.k[4]).times(sh),
        cx: D::widened(f.k[2]).times(sw),
        cy: D::widened(f.k[5]).times(sh),
        qvec: f.qvec,
        tx: D::widened(f.ext[3]),
        ty: D::widened(f.ext[7]),
        tz: D::widened(f.ext[11]),
    }
}

/// The least confidence of a point: the 40th percentile, zero without any.
pub open spec fn confidence_floor<S: Scalar, D: Widens<S> + Analytic>(conf: Seq<S>) -> S {
    if conf.len() == 0 {
        zero()
    } else {
        percentile_of::<S, D>(conf, D::ratio_spec(40, 1)).narrowed_spec()
    }
}

/// The least confidence of a point.
pub fn conf_threshold<S: Scalar, D: Widens<S> + Analytic>(conf: &[S]) -> (r: S)
    ensures
        r == confidence_floor::<S, D>(conf@),
{
    if conf.len() == 0 {
        S::ratio(0, 1)
    } else {
        percentile_linear::<S, D>(conf, D::ratio(40, 1)).narrowed()
    }
}

/// A number without its fraction.
pub open spec fn cut<D: Analytic>(x: D) -> D {
    if x.less_spec(zero()) {
        x.rounded_up_spec()
    } else {
        x.rounded_down_spec()
    }
}

/// A pixel position at the size of the original image, without fraction.
pub open spec fn pixel_place<D: Analytic>(at: usize, orig: i64, size: int) -> D {
    cut(
        D::from_count_spec(at).times_spec(
            from_int::<D>(orig as int).over_spec(D::from_count_spec(size as usize)),
        ),
    )
}

fn pixel_place_of<D: Analytic>(at: usize, orig: i64, size: usize) -> (r: D)
    requires
        -usize::MAX <= orig <= usize::MAX,
    ensures
        r == pixel_place::<D>(at, orig, size as int),
{
    let x: D = D::from_count(at).times(number::<D>(orig).over(D::from_count(size)));
    if x.less(D::ratio(0, 1)) {
        x.rounded_up()
    } else {
        x.rounded_down()
    }
}

/// The points among the first `n` that frame `i` saw, in order.
pub open spec fn seen_by(frame: Seq<usize>, i: int, n: nat) -> Seq<usize>
    decreases n,
{
    if n == 0 {
        Seq::empty()
    } else {
        let before = seen_by(frame, i, (n - 1) as nat);
        if frame[n - 1] == i {
            before.push((n - 1) as usize)
        } else {
            before
        }
    }
}

/// Which place point `p` has among those of its frame.
pub open spec fn place_in_frame(frame: Seq<usize>, p: int) -> nat {
    seen_by(frame, frame[p] as int, p as nat).len()
}

proof fn lemma_seen_by_grows(frame: Seq<usize>, i: int, a: nat, b: nat)
    requires
        a <= b <= frame.len(),
    ensures
        seen_by(frame, i, a).len() <= seen_by(frame, i, b).len() <= b,
        forall|k: int|
            0 <= k < seen_by(frame, i, a).len() ==> #[trigger] seen_by(frame, i, b)[k]
                == seen_by(frame, i, a)[k],
    decreases b,
{
    if b > 0 && a < b {
        lemma_seen_by_grows(frame, i, a, (b - 1) as nat);
    } else if b > 0 {
        lemma_seen_by_grows(frame, i, (b - 1) as nat, (b - 1) as nat);
    }
}

/// A point's track leads back to it: where its frame lists what it saw, the
/// point stands in the place that its track names.
pub proof fn law_tracks(frame: Seq<usize>, p: int)
    requires
        0 <= p < frame.len(),
        frame.len() <= usize::MAX,
    ensures
        ({
            let seen = seen_by(frame, frame[p] as int, frame.len());
            let k = place_in_frame(frame, p) as int;
            k < seen.len() && seen[k] == p
        }),
{
    lemma_seen_by_grows(frame, frame[p] as int, (p + 1) as nat, frame.len());
    assert(seen_by(frame, frame[p] as int, (p + 1) as nat).len() == place_in_frame(frame, p) + 1);
}

// ---- binary -----------------------------------------------------------------

/// A number as eight bytes, double precision.
pub open spec fn wide_bytes<D: Stored>(x: D) -> Seq<u8> {
    le_bytes(x.double_bits_spec() as nat, 8)
}

fn put_wide<D: Stored>(out: &mut Vec<u8>, x: D)
    ensures
        final(out)@ == old(out)@ + wide_bytes(x),
{
    put_le(out, x.double_bits() as u128, 8);
}

/// A camera record.
pub open spec fn camera_record<S, D: Stored>(f: FrameData<S, D>, i: int) -> Seq<u8> {
    le_bytes((i + 1) as nat, 4) + le_bytes(1, 4) + le_bytes((f.orig_w as u64) as nat, 8)
        + le_bytes((f.orig_h as u64) as nat, 8) + wide_bytes(f.fx) + wide_bytes(f.fy) + wide_bytes(
        f.cx,
    ) + wide_bytes(f.cy)
}

/// The camera file of the first `n` frames.
pub open spec fn cameras_bin<S: Scalar, D: Widens<S> + Stored>(
    frames: Seq<Frame<S>>,
    w: int,
    h: int,
    n: nat,
) -> Seq<u8>
    decreases n,
{
    if n == 0 {
        le_bytes(frames.len(), 8)
    } else {
        cameras_bin::<S, D>(frames, w, h, (n - 1) as nat) + camera_record(
            frame_data::<S, D>(frames[n - 1], w, h),
            n - 1,
        )
    }
}

fn write_cameras_bin<S: Scalar, D: Widens<S> + Stored>(
    frames: &[Frame<S>],
    w: usize,
    h: usize,
) -> (out: Vec<u8>)
    requires
        frames.len() < i32::MAX,
        forall|i: int| 0 <= i < frames.len() ==> countable_size(#[trigger] frames[i]),
    ensures
        out@ == cameras_bin::<S, D>(frames@, w as int, h as int, frames@.len()),
{
    let mut out: Vec<u8> = Vec::new();
    put_le(&mut out, frames.len() as u128, 8);
    assert(out@ =~= cameras_bin::<S, D>(frames@, w as int, h as int, 0));
    let mut i: usize = 0;
    while i < frames.len()
        invariant
            i <= frames.len(),
            frames.len() < i32::MAX,
            forall|j: int| 0 <= j < frames.len() ==> countable_size(#[trigger] frames[j]),
            out@ == cameras_bin::<S, D>(frames@, w as int, h as int, i as nat),
        decreases frames.len() - i,
    {
        let f: FrameData<S, D> = frame_data_of(&frames[i], w, h);
        let ghost before = out@;
        put_le(&mut out, i as u128 + 1, 4);
        put_le(&mut out, 1, 4);
        put_le(&mut out, (f.orig_w as u64) as u128, 8);
        put_le(&mut out, (f.orig_h as u64) as u128, 8);
        put_wide(&mut out, f.fx);
        put_wide(&mut out, f.fy);
        put_wide(&mut out, f.cx);
        put_wide(&mut out, f.cy);
        assert(out@ =~= before + camera_record(f, i as int));
        i = i + 1;
    }
    out
}

/// The observations `seen[..n]` of a frame.
pub open spec fn observations_bin<S, D: Analytic + Stored>(
    wp: WorldPoints<S>,
    orig_w: i64,
    orig_h: i64,
    w: int,
    h: int,
    seen: Seq<usize>,
    n: nat,
) -> Seq<u8>
    decreases n,
{
    if n == 0 {
        Seq::empty()
    } else {
        let p = seen[n - 1] as int;
        observations_bin::<S, D>(wp, orig_w, orig_h, w, h, seen, (n - 1) as nat) + wide_bytes(
            pixel_place::<D>(wp.u[p], orig_w, w),
        ) + wide_bytes(pixel_place::<D>(wp.v[p], orig_h, h)) + le_bytes((p + 1) as nat, 8)
    }
}

/// An image record.
pub open spec fn image_record<S: Scalar, D: Widens<S> + Analytic + Stored>(
    f: Frame<S>,
    wp: WorldPoints<S>,
    i: int,
    w: int,
    h: int,
) -> Seq<u8> {
    let d = frame_data::<S, D>(f, w, h);
    let seen = seen_by(wp.frame@, i, wp.frame@.len());
    le_bytes((i + 1) as nat, 4) + wide_bytes(D::widened_spec(f.qvec[0])) + wide_bytes(
        D::widened_spec(f.qvec[1]),
    ) + wide_bytes(D::widened_spec(f.qvec[2])) + wide_bytes(D::widened_spec(f.qvec[3]))
        + wide_bytes(d.tx) + wide_bytes(d.ty) + wide_bytes(d.tz) + le_bytes((i + 1) as nat, 4)
        + vstd::utf8::encode_utf8(f.name@) + le_bytes(0, 1) + le_bytes(seen.len(), 8)
        + observations_bin::<S, D>(wp, f.orig_w, f.orig_h, w, h, seen, seen.len())
}

/// The image file of the first `n` frames.
pub open spec fn images_bin<S: Scalar, D: Widens<S> + Analytic + Stored>(
    frames: Seq<Frame<S>>,
    wp: WorldPoints<S>,
    w: int,
    h: int,
    n: nat,
) -> Seq<u8>
    decreases n,
{
    if n == 0 {
        le_bytes(frames.len(), 8)
    } else {
        images_bin::<S, D>(frames, wp, w, h, (n - 1) as nat) + image_record::<S, D>(
            frames[n - 1],
            wp,
            n - 1,
            w,
            h,
        )
    }
}

impl<S> WorldPoints<S> {
    /// As many colours, frames and pixels as points, and no frame but the first
    /// `n`.
    pub open spec fn wf(&self, n: int) -> bool {
        let np = self.frame@.len();
        &&& np < i32::MAX
        &&& self.xyz.len() >= 3 * np
        &&& self.rgb.len() >= 3 * np
        &&& self.u.len() >= np
        &&& self.v.len() >= np
        &&& forall|p: int| 0 <= p < np ==> #[trigger] self.frame[p] < n
    }
}

/// What each frame saw.
fn group<S>(wp: &WorldPoints<S>, n: usize) -> (r: (Vec<Vec<usize>>, Vec<usize>))
    requires
        wp.wf(n as int),
    ensures
        r.0.len() == n,
        forall|i: int|
            0 <= i < n ==> (#[trigger] r.0[i])@ == seen_by(wp.frame@, i, wp.frame@.len()),
        r.1.len() == wp.frame.len(),
        forall|p: int|
            0 <= p < wp.frame.len() ==> #[trigger] r.1[p] == place_in_frame(wp.frame@, p),
{
    let mut groups: Vec<Vec<usize>> = Vec::new();
    let mut i: usize = 0;
    while i < n
        invariant
            i <= n,
            groups.len() == i,
            forall|j: int| 0 <= j < i ==> (#[trigger] groups[j])@ == seen_by(wp.frame@, j, 0),
        decreases n - i,
    {
        let empty: Vec<usize> = Vec::new();
        assert(empty@ =~= seen_by(wp.frame@, i as int, 0));
        groups.push(empty);
        i = i + 1;
    }
    let mut places: Vec<usize> = Vec::new();
    let mut p: usize = 0;
    while p < wp.frame.len()
        invariant
            p <= wp.frame.len(),
            wp.wf(n as int),
            groups.len() == n,
            places.len() == p,
            forall|j: int|
                0 <= j < n ==> (#[trigger] groups[j])@ == seen_by(wp.frame@, j, p as nat),
            forall|q: int| 0 <= q < p ==> #[trigger] places[q] == place_in_frame(wp.frame@, q),
        decreases wp.frame.len() - p,
    {
        let f: usize = wp.frame[p];
        places.push(groups[f].len());
        groups[f].push(p);
        p = p + 1;
    }
    (groups, places)
}

fn put_observations<S, D: Analytic + Stored>(
    out: &mut Vec<u8>,
    wp: &WorldPoints<S>,
    orig_w: i64,
    orig_h: i64,
    w: usize,
    h: usize,
    seen: &Vec<usize>,
)
    requires
        wp.u.len() >= wp.frame.len(),
        wp.v.len() >= wp.frame.len(),
        wp.frame.len() < i32::MAX,
        forall|k: int| 0 <= k < seen.len() ==> #[trigger] seen[k] < wp.frame.len(),
        -usize::MAX <= orig_w <= usize::MAX,
        -usize::MAX <= orig_h <= usize::MAX,
    ensures
        final(out)@ == old(out)@ + observations_bin::<S, D>(
            *wp,
            orig_w,
            orig_h,
            w as int,
            h as int,
            seen@,
            seen@.len(),
        ),
{
    let ghost start = out@;
    let mut k: usize = 0;
    assert(out@ =~= start + observations_bin::<S, D>(
        *wp,
        orig_w,
        orig_h,
        w as int,
        h as int,
        seen@,
        0,
    ));
    while k < seen.len()
        invariant
            k <= seen.len(),
            start == old(out)@,
            wp.u.len() >= wp.frame.len(),
            wp.v.len() >= wp.frame.len(),
            wp.frame.len() < i32::MAX,
            forall|k: int| 0 <= k < seen.len() ==> #[trigger] seen[k] < wp.frame.len(),
            -usize::MAX <= orig_w <= usize::MAX,
            -usize::MAX <= orig_h <= usize::MAX,
            out@ == start + observations_bin::<S, D>(
                *wp,
                orig_w,
                orig_h,
                w as int,
                h as int,
                seen@,
                k as nat,
            ),
        decreases seen.len() - k,
    {
        let p: usize = seen[k];
        let x: D = pixel_place_of(wp.u[p], orig_w, w);
        let y: D = pixel_place_of(wp.v[p], orig_h, h);
        put_wide(out, x);
        put_wide(out, y);
        put_le(out, p as u128 + 1, 8);
        assert(out@ =~= start + observations_bin::<S, D>(
            *wp,
            orig_w,
            orig_h,
            w as int,
            h as int,
            seen@,
            (k + 1) as nat,
        ));
        k = k + 1;
    }
}

proof fn lemma_seen_by_bounded(frame: Seq<usize>, i: int, n: nat)
    requires
        n <= frame.len(),
        frame.len() <= usize::MAX,
    ensures
        forall|k: int|
            0 <= k < seen_by(frame, i, n).len() ==> #[trigger] seen_by(frame, i, n)[k] < n,
    decreases n,
{
    if n > 0 {
        let before = seen_by(frame, i, (n - 1) as nat);
        lemma_seen_by_bounded(frame, i, (n - 1) as nat);
        assert forall|k: int| 0 <= k < seen_by(frame, i, n).len() implies #[trigger] seen_by(
            frame,
            i,
            n,
        )[k] < n by {
            if k < before.len() {
                assert(seen_by(frame, i, n)[k] == before[k]);
            }
        }
    }
}

fn write_images_bin<S: Scalar, D: Widens<S> + Analytic + Stored>(
    frames: &[Frame<S>],
    wp: &WorldPoints<S>,
    groups: &Vec<Vec<usize>>,
    w: usize,
    h: usize,
) -> (out: Vec<u8>)
    requires
        frames.len() < i32::MAX,
        wp.wf(frames.len() as int),
        groups.len() == frames.len(),
        forall|i: int|
            0 <= i < frames.len() ==> (#[trigger] groups[i])@ == seen_by(
                wp.frame@,
                i,
                wp.frame@.len(),
            ),
        forall|i: int| 0 <= i < frames.len() ==> countable_size(#[trigger] frames[i]),
    ensures
        out@ == images_bin::<S, D>(frames@, *wp, w as int, h as int, frames@.len()),
{
    let mut out: Vec<u8> = Vec::new();
    put_le(&mut out, frames.len() as u128, 8);
    assert(out@ =~= images_bin::<S, D>(frames@, *wp, w as int, h as int, 0));
    let mut i: usize = 0;
    while i < frames.len()
        invariant
            i <= frames.len(),
            frames.len() < i32::MAX,
            wp.wf(frames.len() as int),
            groups.len() == frames.len(),
            forall|i: int|
                0 <= i < frames.len() ==> (#[trigger] groups[i])@ == seen_by(
                    wp.frame@,
                    i,
                    wp.frame@.len(),
                ),
            forall|i: int| 0 <= i < frames.len() ==> countable_size(#[trigger] frames[i]),
            out@ == images_bin::<S, D>(frames@, *wp, w as int, h as int, i as nat),
        decreases frames.len() - i,
    {
        let f: &Frame<S> = &frames[i];
        let d: FrameData<S, D> = frame_data_of(f, w, h);
        let seen: &Vec<usize> = &groups[i];
        proof {
            lemma_seen_by_bounded(wp.frame@, i as int, wp.frame@.len());
        }
        let ghost before = out@;
        put_le(&mut out, i as u128 + 1, 4);
        put_wide(&mut out, D::widened(f.qvec[0]));
        put_wide(&mut out, D::widened(f.qvec[1]));
        put_wide(&mut out, D::widened(f.qvec[2]));
        put_wide(&mut out, D::widened(f.qvec[3]));
        put_wide(&mut out, d.tx);
        put_wide(&mut out, d.ty);
        put_wide(&mut out, d.tz);
        put_le(&mut out, i as u128 + 1, 4);
        put_text(&mut out, f.name.as_str());
        put_le(&mut out, 0, 1);
        put_le(&mut out, seen.len() as u128, 8);
        put_observations::<S, D>(&mut out, wp, f.orig_w, f.orig_h, w, h, seen);
        assert(out@ =~= before + image_record::<S, D>(*f, *wp, i as int, w as int, h as int));
        i = i + 1;
    }
    out
}

/// A point record.
pub open spec fn point_record<S: Scalar, D: Widens<S> + Stored>(wp: WorldPoints<S>, p: int) -> Seq<
    u8,
> {
    le_bytes((p + 1) as nat, 8) + wide_bytes(D::widened_spec(wp.xyz[3 * p])) + wide_bytes(
        D::widened_spec(wp.xyz[3 * p + 1]),
    ) + wide_bytes(D::widened_spec(wp.xyz[3 * p + 2])) + seq![
        wp.rgb[3 * p],
        wp.rgb[3 * p + 1],
        wp.rgb[3 * p + 2],
    ] + wide_bytes(zero::<D>()) + le_bytes(1, 8) + le_bytes((wp.frame[p] + 1) as nat, 4)
        + le_bytes(place_in_frame(wp.frame@, p), 4)
}

/// The point file of the first `n` points.
pub open spec fn points_bin<S: Scalar, D: Widens<S> + Stored>(wp: WorldPoints<S>, n: nat) -> Seq<u8>
    decreases n,
{
    if n == 0 {
        le_bytes(wp.frame@.len(), 8)
    } else {
        points_bin::<S, D>(wp, (n - 1) as nat) + point_record::<S, D>(wp, n - 1)
    }
}

fn write_points3d_bin<S: Scalar, D: Widens<S> + Stored>(
    wp: &WorldPoints<S>,
    places: &Vec<usize>,
    n: usize,
) -> (out: Vec<u8>)
    requires
        wp.wf(n as int),
        n < i32::MAX,
        places.len() == wp.frame.len(),
        forall|p: int|
            0 <= p < wp.frame.len() ==> #[trigger] places[p] == place_in_frame(wp.frame@, p),
    ensures
        out@ == points_bin::<S, D>(*wp, wp.frame@.len()),
{
    let mut out: Vec<u8> = Vec::new();
    put_le(&mut out, wp.frame.len() as u128, 8);
    assert(out@ =~= points_bin::<S, D>(*wp, 0));
    let mut p: usize = 0;
    while p < wp.frame.len()
        invariant
            p <= wp.frame.len(),
            wp.wf(n as int),
            n < i32::MAX,
            places.len() == wp.frame.len(),
            forall|p: int|
                0 <= p < wp.frame.len() ==> #[trigger] places[p] == place_in_frame(wp.frame@, p),
            out@ == points_bin::<S, D>(*wp, p as nat),
        decreases wp.frame.len() - p,
    {
        let ghost before = out@;
        let colour: [u8; 3] = [wp.rgb[3 * p], wp.rgb[3 * p + 1], wp.rgb[3 * p + 2]];
        put_le(&mut out, p as u128 + 1, 8);
        put_wide(&mut out, D::widened(wp.xyz[3 * p]));
        put_wide(&mut out, D::widened(wp.xyz[3 * p + 1]));
        put_wide(&mut out, D::widened(wp.xyz[3 * p + 2]));
        put_bytes(&mut out, colour.as_slice());
        put_wide(&mut out, D::ratio(0, 1));
        put_le(&mut out, 1, 8);
        put_le(&mut out, wp.frame[p] as u128 + 1, 4);
        put_le(&mut out, places[p] as u128, 4);
        assert(colour@ =~= seq![
            wp.rgb@[3 * p as int],
            wp.rgb@[3 * p as int + 1],
            wp.rgb@[3 * p as int + 2],
        ]);
        assert(out@ =~= before + point_record::<S, D>(*wp, p as int));
        p = p + 1;
    }
    out
}

// ---- text -------------------------------------------------------------------

/// A number with seventeen digits behind the point, after a space.
pub open spec fn spaced<D: Stored>(x: D) -> Seq<char> {
    " "@ + x.shown_spec(Style::Scientific)
}

fn add_spaced<D: Stored>(out: &mut String, x: D)
    ensures
        final(out)@ == old(out)@ + spaced(x),
{
    let ghost before = out@;
    out.append(" ");
    out.append(x.shown(Style::Scientific).as_str());
    assert(out@ =~= before + spaced(x));
}

/// The camera file of the first `n` frames, as text.
pub open spec fn cameras_txt<S: Scalar, D: Widens<S> + Stored>(
    frames: Seq<Frame<S>>,
    w: int,
    h: int,
    n: nat,
) -> Seq<char>
    decreases n,
{
    if n == 0 {
        "# Camera list with one line of data per camera:\n#   CAMERA_ID, MODEL, WIDTH, HEIGHT, PARAMS[]\n# Number of cameras: "@
            + digits(frames.len()) + "\n"@
    } else {
        let f = frame_data::<S, D>(frames[n - 1], w, h);
        cameras_txt::<S, D>(frames, w, h, (n - 1) as nat) + (digits(n) + " PINHOLE "@
            + signed_digits(f.orig_w as int) + " "@ + signed_digits(f.orig_h as int) + spaced(f.fx)
            + spaced(f.fy) + spaced(f.cx) + spaced(f.cy) + "\n"@)
    }
}

fn write_cameras_txt<S: Scalar, D: Widens<S> + Stored>(
    frames: &[Frame<S>],
    w: usize,
    h: usize,
) -> (out: String)
    requires
        frames.len() < i32::MAX,
        forall|i: int| 0 <= i < frames.len() ==> countable_size(#[trigger] frames[i]),
    ensures
        out@ == cameras_txt::<S, D>(frames@, w as int, h as int, frames@.len()),
{
    let mut out: String =
        "# Camera list with one line of data per camera:\n#   CAMERA_ID, MODEL, WIDTH, HEIGHT, PARAMS[]\n# Number of cameras: ".to_owned();
    out.append(decimal(frames.len() as u64).as_str());
    out.append("\n");
    let mut i: usize = 0;
    while i < frames.len()
        invariant
            i <= frames.len(),
            frames.len() < i32::MAX,
            forall|j: int| 0 <= j < frames.len() ==> countable_size(#[trigger] frames[j]),
            out@ == cameras_txt::<S, D>(frames@, w as int, h as int, i as nat),
        decreases frames.len() - i,
    {
        let f: FrameData<S, D> = frame_data_of(&frames[i], w, h);
        let mut line: String = decimal(i as u64 + 1);
        line.append(" PINHOLE ");
        line.append(decimal_signed(f.orig_w).as_str());
        line.append(" ");
        line.append(decimal_signed(f.orig_h).as_str());
        add_spaced(&mut line, f.fx);
        add_spaced(&mut line, f.fy);
        add_spaced(&mut line, f.cx);
        add_spaced(&mut line, f.cy);
        line.append("\n");
        out.append(line.as_str());
        i = i + 1;
    }
    out
}

/// The observations `seen[..n]` of a frame, as text.
pub open spec fn observations_txt<S, D: Analytic + Stored>(
    wp: WorldPoints<S>,
    orig_w: i64,
    orig_h: i64,
    w: int,
    h: int,
    seen: Seq<usize>,
    n: nat,
) -> Seq<char>
    decreases n,
{
    if n == 0 {
        Seq::empty()
    } else {
        let p = seen[n - 1] as int;
        observations_txt::<S, D>(wp, orig_w, orig_h, w, h, seen, (n - 1) as nat) + (if n > 1 {
            " "@
        } else {
            Seq::empty()
        }) + pixel_place::<D>(wp.u[p], orig_w, w).shown_spec(Style::Scientific) + spaced(
            pixel_place::<D>(wp.v[p], orig_h, h),
        ) + " "@ + digits((p + 1) as nat)
    }
}

fn observations_text<S, D: Analytic + Stored>(
    wp: &WorldPoints<S>,
    orig_w: i64,
    orig_h: i64,
    w: usize,
    h: usize,
    seen: &Vec<usize>,
) -> (out: String)
    requires
        wp.u.len() >= wp.frame.len(),
        wp.v.len() >= wp.frame.len(),
        wp.frame.len() < i32::MAX,
        forall|k: int| 0 <= k < seen.len() ==> #[trigger] seen[k] < wp.frame.len(),
        -usize::MAX <= orig_w <= usize::MAX,
        -usize::MAX <= orig_h <= usize::MAX,
    ensures
        out@ == observations_txt::<S, D>(
            *wp,
            orig_w,
            orig_h,
            w as int,
            h as int,
            seen@,
            seen@.len(),
        ),
{
    let mut out: String = String::new();
    let mut k: usize = 0;
    while k < seen.len()
        invariant
            k <= seen.len(),
            wp.u.len() >= wp.frame.len(),
            wp.v.len() >= wp.frame.len(),
            wp.frame.len() < i32::MAX,
            forall|k: int| 0 <= k < seen.len() ==> #[trigger] seen[k] < wp.frame.len(),
            -usize::MAX <= orig_w <= usize::MAX,
            -usize::MAX <= orig_h <= usize::MAX,
            out@ == observations_txt::<S, D>(
                *wp,
                orig_w,
                orig_h,
                w as int,
                h as int,
                seen@,
                k as nat,
            ),
        decreases seen.len() - k,
    {
        let p: usize = seen[k];
        let x: D = pixel_place_of(wp.u[p], orig_w, w);
        let y: D = pixel_place_of(wp.v[p], orig_h, h);
        if k > 0 {
            out.append(" ");
        }
        out.append(x.shown(Style::Scientific).as_str());
        add_spaced(&mut out, y);
        out.append(" ");
        out.append(decimal(p as u64 + 1).as_str());
        assert(out@ =~= observations_txt::<S, D>(
            *wp,
            orig_w,
            orig_h,
            w as int,
            h as int,
            seen@,
            (k + 1) as nat,
        ));
        k = k + 1;
    }
    out
}

/// The two lines of an image.
pub open spec fn image_lines<S: Scalar, D: Widens<S> + Analytic + Stored>(
    f: Frame<S>,
    wp: WorldPoints<S>,
    i: int,
    w: int,
    h: int,
) -> Seq<char> {
    let d = frame_data::<S, D>(f, w, h);
    let seen = seen_by(wp.frame@, i, wp.frame@.len());
    digits((i + 1) as nat) + spaced(D::widened_spec(f.qvec[0])) + spaced(
        D::widened_spec(f.qvec[1]),
    ) + spaced(D::widened_spec(f.qvec[2])) + spaced(D::widened_spec(f.qvec[3])) + spaced(d.tx)
        + spaced(d.ty) + spaced(d.tz) + " "@ + digits((i + 1) as nat) + " "@ + f.name@ + "\n"@
        + observations_txt::<S, D>(wp, f.orig_w, f.orig_h, w, h, seen, seen.len()) + "\n"@
}

/// How many points each of `n` frames saw on average; zero without frames.
pub open spec fn mean_seen<D: Scalar>(np: int, n: int) -> D {
    if n > 0 {
        D::from_count_spec(np as usize).over_spec(D::from_count_spec(n as usize))
    } else {
        zero()
    }
}

/// The image file of the first `n` frames, as text.
pub open spec fn images_txt<S: Scalar, D: Widens<S> + Analytic + Stored>(
    frames: Seq<Frame<S>>,
    wp: WorldPoints<S>,
    w: int,
    h: int,
    n: nat,
) -> Seq<char>
    decreases n,
{
    if n == 0 {
        "# Image list with two lines of data per image:\n#   IMAGE_ID, QW, QX, QY, QZ, TX, TY, TZ, CAMERA_ID, NAME\n#   POINTS2D[] as (X, Y, POINT3D_ID)\n# Number of images: "@
            + digits(frames.len()) + ", mean observations per image: "@ + mean_seen::<D>(
            wp.frame@.len() as int,
            frames.len() as int,
        ).shown_spec(Style::Plain) + "\n"@
    } else {
        images_txt::<S, D>(frames, wp, w, h, (n - 1) as nat) + image_lines::<S, D>(
            frames[n - 1],
            wp,
            n - 1,
            w,
            h,
        )
    }
}

fn write_images_txt<S: Scalar, D: Widens<S> + Analytic + Stored>(
    frames: &[Frame<S>],
    wp: &WorldPoints<S>,
    groups: &Vec<Vec<usize>>,
    w: usize,
    h: usize,
) -> (out: String)
    requires
        frames.len() < i32::MAX,
        wp.wf(frames.len() as int),
        groups.len() == frames.len(),
        forall|i: int|
            0 <= i < frames.len() ==> (#[trigger] groups[i])@ == seen_by(
                wp.frame@,
                i,
                wp.frame@.len(),
            ),
        forall|i: int| 0 <= i < frames.len() ==> countable_size(#[trigger] frames[i]),
    ensures
        out@ == images_txt::<S, D>(frames@, *wp, w as int, h as int, frames@.len()),
{
    let mean: D = if frames.len() > 0 {
        D::from_count(wp.frame.len()).over(D::from_count(frames.len()))
    } else {
        D::ratio(0, 1)
    };
    let mut out: String =
        "# Image list with two lines of data per image:\n#   IMAGE_ID, QW, QX, QY, QZ, TX, TY, TZ, CAMERA_ID, NAME\n#   POINTS2D[] as (X, Y, POINT3D_ID)\n# Number of images: ".to_owned();
    out.append(decimal(frames.len() as u64).as_str());
    out.append(", mean observations per image: ");
    out.append(mean.shown(Style::Plain).as_str());
    out.append("\n");
    let mut i: usize = 0;
    while i < frames.len()
        invariant
            i <= frames.len(),
            frames.len() < i32::MAX,
            wp.wf(frames.len() as int),
            groups.len() == frames.len(),
            forall|i: int|
                0 <= i < frames.len() ==> (#[trigger] groups[i])@ == seen_by(
                    wp.frame@,
                    i,
                    wp.frame@.len(),
                ),
            forall|i: int| 0 <= i < frames.len() ==> countable_size(#[trigger] frames[i]),
            out@ == images_txt::<S, D>(frames@, *wp, w as int, h as int, i as nat),
        decreases frames.len() - i,
    {
        let f: &Frame<S> = &frames[i];
        let d: FrameData<S, D> = frame_data_of(f, w, h);
        let seen: &Vec<usize> = &groups[i];
        proof {
            lemma_seen_by_bounded(wp.frame@, i as int, wp.frame@.len());
        }
        let mut line: String = decimal(i as u64 + 1);
        add_spaced(&mut line, D::widened(f.qvec[0]));
        add_spaced(&mut line, D::widened(f.qvec[1]));
        add_spaced(&mut line, D::widened(f.qvec[2]));
        add_spaced(&mut line, D::widened(f.qvec[3]));
        add_spaced(&mut line, d.tx);
        add_spaced(&mut line, d.ty);
        add_spaced(&mut line, d.tz);
        line.append(" ");
        line.append(decimal(i as u64 + 1).as_str());
        line.append(" ");
        line.append(f.name.as_str());
        line.append("\n");
        line.append(
            observations_text::<S, D>(wp, f.orig_w, f.orig_h, w, h, seen).as_str(),
        );
        line.append("\n");
        out.append(line.as_str());
        i = i + 1;
    }
    out
}

/// The line of a point.
pub open spec fn point_line<S: Scalar, D: Widens<S> + Stored>(wp: WorldPoints<S>, p: int) -> Seq<
    char,
> {
    digits((p + 1) as nat) + spaced(D::widened_spec(wp.xyz[3 * p])) + spaced(
        D::widened_spec(wp.xyz[3 * p + 1]),
    ) + spaced(D::widened_spec(wp.xyz[3 * p + 2])) + " "@ + digits(wp.rgb[3 * p] as nat) + " "@
        + digits(wp.rgb[3 * p + 1] as nat) + " "@ + digits(wp.rgb[3 * p + 2] as nat) + spaced(
        zero::<D>(),
    ) + " "@ + digits((wp.frame[p] + 1) as nat) + " "@ + digits(place_in_frame(wp.frame@, p))
        + "\n"@
}

/// The point file of the first `n` points, as text.
pub open spec fn points_txt<S: Scalar, D: Widens<S> + Stored>(wp: WorldPoints<S>, n: nat) -> Seq<
    char,
>
    decreases n,
{
    if n == 0 {
        "# 3D point list with one line of data per point:\n#   POINT3D_ID, X, Y, Z, R, G, B, ERROR, TRACK[] as (IMAGE_ID, POINT2D_IDX)\n# Number of points: "@
            + digits(wp.frame@.len()) + ", mean track length: "@ + (if wp.frame@.len() > 0 {
            D::ratio_spec(1, 1)
        } else {
            D::ratio_spec(0, 1)
        }).shown_spec(Style::Plain) + "\n"@
    } else {
        points_txt::<S, D>(wp, (n - 1) as nat) + point_line::<S, D>(wp, n - 1)
    }
}

fn write_points3d_txt<S: Scalar, D: Widens<S> + Stored>(
    wp: &WorldPoints<S>,
    places: &Vec<usize>,
    n: usize,
) -> (out: String)
    requires
        wp.wf(n as int),
        n < i32::MAX,
        places.len() == wp.frame.len(),
        forall|p: int|
            0 <= p < wp.frame.len() ==> #[trigger] places[p] == place_in_frame(wp.frame@, p),
    ensures
        out@ == points_txt::<S, D>(*wp, wp.frame@.len()),
{
    let mean: D = if wp.frame.len() > 0 {
        D::ratio(1, 1)
    } else {
        D::ratio(0, 1)
    };
    let mut out: String =
        "# 3D point list with one line of data per point:\n#   POINT3D_ID, X, Y, Z, R, G, B, ERROR, TRACK[] as (IMAGE_ID, POINT2D_IDX)\n# Number of points: ".to_owned();
    out.append(decimal(wp.frame.len() as u64).as_str());
    out.append(", mean track length: ");
    out.append(mean.shown(Style::Plain).as_str());
    out.append("\n");
    let mut p: usize = 0;
    while p < wp.frame.len()
        invariant
            p <= wp.frame.len(),
            wp.wf(n as int),
            n < i32::MAX,
            places.len() == wp.frame.len(),
            forall|p: int|
                0 <= p < wp.frame.len() ==> #[trigger] places[p] == place_in_frame(wp.frame@, p),
            out@ == points_txt::<S, D>(*wp, p as nat),
        decreases wp.frame.len() - p,
    {
        let mut line: String = decimal(p as u64 + 1);
        add_spaced(&mut line, D::widened(wp.xyz[3 * p]));
        add_spaced(&mut line, D::widened(wp.xyz[3 * p + 1]));
        add_spaced(&mut line, D::widened(wp.xyz[3 * p + 2]));
        line.append(" ");
        line.append(decimal(wp.rgb[3 * p] as u64).as_str());
        line.append(" ");
        line.append(decimal(wp.rgb[3 * p + 1] as u64).as_str());
        line.append(" ");
        line.append(decimal(wp.rgb[3 * p + 2] as u64).as_str());
        add_spaced(&mut line, D::ratio(0, 1));
        line.append(" ");
        line.append(decimal(wp.frame[p] as u64 + 1).as_str());
        line.append(" ");
        line.append(decimal(places[p] as u64).as_str());
        line.append("\n");
        out.append(line.as_str());
        p = p + 1;
    }
    out
}

// ---- the model --------------------------------------------------------------

/// The three files of a model.
pub struct Model {
    pub cameras: Vec<u8>,
    pub images: Vec<u8>,
    pub points: Vec<u8>,
    /// Whether the files are binary; else they are text.
    pub binary: bool,
}

fn text_bytes(s: &String) -> (b: Vec<u8>)
    ensures
        b@ == vstd::utf8::encode_utf8(s@),
{
    let mut b: Vec<u8> = Vec::new();
    put_text(&mut b, s.as_str());
    assert(b@ =~= vstd::utf8::encode_utf8(s@));
    b
}

/// The three files of the points and the frames.
pub open spec fn is_model<S: Scalar, D: Widens<S> + Analytic + Stored>(
    m: Model,
    wp: WorldPoints<S>,
    frames: Seq<Frame<S>>,
    h: int,
    w: int,
) -> bool {
    if m.binary {
        &&& m.cameras@ == cameras_bin::<S, D>(frames, w, h, frames.len())
        &&& m.images@ == images_bin::<S, D>(frames, wp, w, h, frames.len())
        &&& m.points@ == points_bin::<S, D>(wp, wp.frame@.len())
    } else {
        &&& m.cameras@ == vstd::utf8::encode_utf8(
            cameras_txt::<S, D>(frames, w, h, frames.len()),
        )
        &&& m.images@ == vstd::utf8::encode_utf8(
            images_txt::<S, D>(frames, wp, w, h, frames.len()),
        )
        &&& m.points@ == vstd::utf8::encode_utf8(points_txt::<S, D>(wp, wp.frame@.len()))
    }
}

/// A sparse model of points and the frames that saw them; frames are `w` by `h`.
pub fn write_colmap<S: Scalar, D: Widens<S> + Analytic + Stored>(
    wp: &WorldPoints<S>,
    frames: &[Frame<S>],
    h: usize,
    w: usize,
    binary: bool,
) -> (m: Model)
    requires
        frames.len() < i32::MAX,
        wp.wf(frames.len() as int),
        forall|i: int| 0 <= i < frames.len() ==> countable_size(#[trigger] frames[i]),
    ensures
        m.binary == binary,
        is_model::<S, D>(m, *wp, frames@, h as int, w as int),
{
    let n: usize = frames.len();
    let (groups, places): (Vec<Vec<usize>>, Vec<usize>) = group(wp, n);
    if binary {
        Model {
            cameras: write_cameras_bin::<S, D>(frames, w, h),
            images: write_images_bin::<S, D>(frames, wp, &groups, w, h),
            points: write_points3d_bin::<S, D>(wp, &places, n),
            binary,
        }
    } else {
        Model {
            cameras: text_bytes(&write_cameras_txt::<S, D>(frames, w, h)),
            images: text_bytes(&write_images_txt::<S, D>(frames, wp, &groups, w, h)),
            points: text_bytes(&write_points3d_txt::<S, D>(wp, &places, n)),
            binary,
        }
    }
}

} // verus!
