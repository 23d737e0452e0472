//! What is read back from the binary files of a model, and that the text says the same.

use crate::colmap_export::{
    camera_record, cameras_bin, cameras_txt, frame_data, image_lines, image_record, images_bin,
    images_txt, law_tracks, observations_bin, observations_txt, pixel_place, place_in_frame,
    point_line, point_record, points_bin, points_txt, seen_by, spaced, wide_bytes, Frame, FrameData,
};
use crate::reconstruct::WorldPoints;
use crate::scalar::{Analytic, Scalar, Stored, Style, Widens};
use crate::text::{
    byte_limit, digits, law_le_round_trip, le_bytes, le_number, lemma_le_bytes_len, signed_digits,
};
use vstd::prelude::*;

verus! {

/// The number in the `width` bytes from `at` on, the least significant first.
pub open spec fn number_at(b: Seq<u8>, at: int, width: int) -> nat {
    le_number(b.subrange(at, at + width))
}

/// Bytes `at` to `at + 8` hold `x` in double precision.
pub open spec fn holds_wide<D: Stored>(b: Seq<u8>, at: int, x: D) -> bool {
    number_at(b, at, 8) == x.double_bits_spec()
}

proof fn lemma_limits()
    ensures
        byte_limit(4) == 0x1_0000_0000,
        byte_limit(8) == 0x1_0000_0000_0000_0000,
{
    reveal_with_fuel(byte_limit, 9);
}

/// A field of a record.
proof fn lemma_field(r: Seq<u8>, at: int, n: nat, width: nat)
    requires
        n < byte_limit(width),
        r.subrange(at, at + width) == le_bytes(n, width),
    ensures
        number_at(r, at, width as int) == n,
{
    law_le_round_trip(n, width);
}

/// A field of a record in a file.
proof fn lemma_inside(b: Seq<u8>, at: int, r: Seq<u8>, off: int, width: int)
    requires
        0 <= at,
        at + r.len() <= b.len(),
        b.subrange(at, at + r.len()) == r,
        0 <= off,
        0 <= width,
        off + width <= r.len(),
    ensures
        number_at(b, at + off, width) == number_at(r, off, width),
{
    assert(b.subrange(at + off, at + off + width) =~= r.subrange(off, off + width));
}

// ---- cameras ------------------------------------------------------------------

/// What a camera's record says.
pub open spec fn says_camera<S, D: Stored>(b: Seq<u8>, at: int, f: FrameData<S, D>, i: int) -> bool {
    &&& number_at(b, at, 4) == i + 1
    &&& number_at(b, at + 4, 4) == 1
    &&& number_at(b, at + 8, 8) == f.orig_w as u64
    &&& number_at(b, at + 16, 8) == f.orig_h as u64
    &&& holds_wide(b, at + 24, f.fx)
    &&& holds_wide(b, at + 32, f.fy)
    &&& holds_wide(b, at + 40, f.cx)
    &&& holds_wide(b, at + 48, f.cy)
}

proof fn lemma_camera<S, D: Stored>(f: FrameData<S, D>, i: int)
    requires
        0 <= i < 0xffff_ffff,
    ensures
        camera_record(f, i).len() == 56,
        says_camera(camera_record(f, i), 0, f, i),
{
    lemma_limits();
    let r = camera_record(f, i);
    let a = le_bytes((i + 1) as nat, 4);
    let m = le_bytes(1, 4);
    let (w, h) = ((f.orig_w as u64) as nat, (f.orig_h as u64) as nat);
    lemma_le_bytes_len((i + 1) as nat, 4);
    lemma_le_bytes_len(1, 4);
    lemma_le_bytes_len(w, 8);
    lemma_le_bytes_len(h, 8);
    lemma_le_bytes_len(f.fx.double_bits_spec() as nat, 8);
    lemma_le_bytes_len(f.fy.double_bits_spec() as nat, 8);
    lemma_le_bytes_len(f.cx.double_bits_spec() as nat, 8);
    lemma_le_bytes_len(f.cy.double_bits_spec() as nat, 8);
    assert(r.subrange(0, 4) =~= a);
    assert(r.subrange(4, 8) =~= m);
    assert(r.subrange(8, 16) =~= le_bytes(w, 8));
    assert(r.subrange(16, 24) =~= le_bytes(h, 8));
    assert(r.subrange(24, 32) =~= wide_bytes(f.fx));
    assert(r.subrange(32, 40) =~= wide_bytes(f.fy));
    assert(r.subrange(40, 48) =~= wide_bytes(f.cx));
    assert(r.subrange(48, 56) =~= wide_bytes(f.cy));
    lemma_field(r, 0, (i + 1) as nat, 4);
    lemma_field(r, 4, 1, 4);
    lemma_field(r, 8, w, 8);
    lemma_field(r, 16, h, 8);
    lemma_field(r, 24, f.fx.double_bits_spec() as nat, 8);
    lemma_field(r, 32, f.fy.double_bits_spec() as nat, 8);
    lemma_field(r, 40, f.cx.double_bits_spec() as nat, 8);
    lemma_field(r, 48, f.cy.double_bits_spec() as nat, 8);
}

proof fn lemma_cameras<S: Scalar, D: Widens<S> + Stored>(
    frames: Seq<Frame<S>>,
    w: int,
    h: int,
    n: nat,
    i: int,
)
    requires
        0 <= i,
        n <= frames.len() <= 0xffff_ffff,
    ensures
        cameras_bin::<S, D>(frames, w, h, n).len() == 8 + 56 * n,
        cameras_bin::<S, D>(frames, w, h, n).subrange(0, 8) == le_bytes(frames.len(), 8),
        i < n ==> cameras_bin::<S, D>(frames, w, h, n).subrange(8 + 56 * i, 64 + 56 * i)
            == camera_record(frame_data::<S, D>(frames[i], w, h), i),
    decreases n,
{
    lemma_le_bytes_len(frames.len(), 8);
    let b = cameras_bin::<S, D>(frames, w, h, n);
    if n > 0 {
        lemma_cameras::<S, D>(frames, w, h, (n - 1) as nat, i);
        let a = cameras_bin::<S, D>(frames, w, h, (n - 1) as nat);
        let d = frame_data::<S, D>(frames[n - 1], w, h);
        lemma_camera(d, n - 1);
        assert(b.subrange(0, 8) =~= a.subrange(0, 8));
        if i < n - 1 {
            assert(b.subrange(8 + 56 * i, 64 + 56 * i) =~= a.subrange(8 + 56 * i, 64 + 56 * i));
        } else if i == n - 1 {
            assert(b.subrange(8 + 56 * i, 64 + 56 * i) =~= camera_record(d, i));
        }
    } else {
        assert(b.subrange(0, 8) =~= le_bytes(frames.len(), 8));
    }
}

/// From the camera file: how many cameras there are, and of each its number, the pinhole
/// model, the size of its image, its two focal lengths and its centre, in this order.
pub proof fn law_cameras_read_back<S: Scalar, D: Widens<S> + Stored>(
    frames: Seq<Frame<S>>,
    w: int,
    h: int,
    i: int,
)
    requires
        0 <= i < frames.len() <= 0xffff_ffff,
    ensures
        ({
            let b = cameras_bin::<S, D>(frames, w, h, frames.len());
            &&& b.len() == 8 + 56 * frames.len()
            &&& number_at(b, 0, 8) == frames.len()
            &&& says_camera(b, 8 + 56 * i, frame_data::<S, D>(frames[i], w, h), i)
        }),
{
    lemma_limits();
    let n = frames.len();
    let b = cameras_bin::<S, D>(frames, w, h, n);
    let d = frame_data::<S, D>(frames[i], w, h);
    let r = camera_record(d, i);
    lemma_cameras::<S, D>(frames, w, h, n, i);
    lemma_field(b, 0, n, 8);
    lemma_camera(d, i);
    let at = 8 + 56 * i;
    lemma_inside(b, at, r, 0, 4);
    lemma_inside(b, at, r, 4, 4);
    lemma_inside(b, at, r, 8, 8);
    lemma_inside(b, at, r, 16, 8);
    lemma_inside(b, at, r, 24, 8);
    lemma_inside(b, at, r, 32, 8);
    lemma_inside(b, at, r, 40, 8);
    lemma_inside(b, at, r, 48, 8);
}

// ---- points -------------------------------------------------------------------

/// What a point's record says.
pub open spec fn says_point<S: Scalar, D: Widens<S> + Stored>(
    b: Seq<u8>,
    at: int,
    wp: WorldPoints<S>,
    p: int,
) -> bool {
    &&& number_at(b, at, 8) == p + 1
    &&& holds_wide(b, at + 8, D::widened_spec(wp.xyz[3 * p]))
    &&& holds_wide(b, at + 16, D::widened_spec(wp.xyz[3 * p + 1]))
    &&& holds_wide(b, at + 24, D::widened_spec(wp.xyz[3 * p + 2]))
    &&& b[at + 32] == wp.rgb[3 * p]
    &&& b[at + 33] == wp.rgb[3 * p + 1]
    &&& b[at + 34] == wp.rgb[3 * p + 2]
    &&& holds_wide(b, at + 35, D::ratio_spec(0, 1))
    &&& number_at(b, at + 43, 8) == 1
    &&& number_at(b, at + 51, 4) == wp.frame[p] + 1
    &&& number_at(b, at + 55, 4) == place_in_frame(wp.frame@, p)
}

proof fn lemma_point<S: Scalar, D: Widens<S> + Stored>(wp: WorldPoints<S>, p: int)
    requires
        0 <= p < 0xffff_ffff,
        wp.frame[p] < 0xffff_ffff,
        place_in_frame(wp.frame@, p) <= p,
    ensures
        point_record::<S, D>(wp, p).len() == 59,
        says_point::<S, D>(point_record::<S, D>(wp, p), 0, wp, p),
{
    lemma_limits();
    let r = point_record::<S, D>(wp, p);
    let x = D::widened_spec(wp.xyz[3 * p]);
    let y = D::widened_spec(wp.xyz[3 * p + 1]);
    let z = D::widened_spec(wp.xyz[3 * p + 2]);
    let e = D::ratio_spec(0, 1);
    let k = place_in_frame(wp.frame@, p);
    lemma_le_bytes_len((p + 1) as nat, 8);
    lemma_le_bytes_len(x.double_bits_spec() as nat, 8);
    lemma_le_bytes_len(y.double_bits_spec() as nat, 8);
    lemma_le_bytes_len(z.double_bits_spec() as nat, 8);
    lemma_le_bytes_len(e.double_bits_spec() as nat, 8);
    lemma_le_bytes_len(1, 8);
    lemma_le_bytes_len((wp.frame[p] + 1) as nat, 4);
    lemma_le_bytes_len(k, 4);
    assert(r.subrange(0, 8) =~= le_bytes((p + 1) as nat, 8));
    assert(r.subrange(8, 16) =~= wide_bytes(x));
    assert(r.subrange(16, 24) =~= wide_bytes(y));
    assert(r.subrange(24, 32) =~= wide_bytes(z));
    assert(r.subrange(35, 43) =~= wide_bytes(e));
    assert(r.subrange(43, 51) =~= le_bytes(1, 8));
    assert(r.subrange(51, 55) =~= le_bytes((wp.frame[p] + 1) as nat, 4));
    assert(r.subrange(55, 59) =~= le_bytes(k, 4));
    lemma_field(r, 0, (p + 1) as nat, 8);
    lemma_field(r, 8, x.double_bits_spec() as nat, 8);
    lemma_field(r, 16, y.double_bits_spec() as nat, 8);
    lemma_field(r, 24, z.double_bits_spec() as nat, 8);
    lemma_field(r, 35, e.double_bits_spec() as nat, 8);
    lemma_field(r, 43, 1, 8);
    lemma_field(r, 51, (wp.frame[p] + 1) as nat, 4);
    lemma_field(r, 55, k, 4);
}

/// Every frame of the points has a number of four bytes, and every point.
pub open spec fn numbered<S>(wp: WorldPoints<S>) -> bool {
    &&& wp.frame@.len() <= 0xffff_ffff
    &&& forall|p: int| 0 <= p < wp.frame@.len() ==> #[trigger] wp.frame@[p] < 0xffff_ffff
}

/// What a frame saw: its own points, in increasing order.
proof fn lemma_seen(frame: Seq<usize>, i: int, n: nat)
    requires
        n <= frame.len() <= usize::MAX,
    ensures
        seen_by(frame, i, n).len() <= n,
        forall|k: int|
            0 <= k < seen_by(frame, i, n).len() ==> (#[trigger] seen_by(frame, i, n)[k]) < n
                && frame[seen_by(frame, i, n)[k] as int] == i,
        forall|j: int, k: int|
            0 <= j < k < seen_by(frame, i, n).len() ==> (#[trigger] seen_by(frame, i, n)[j])
                < #[trigger] seen_by(frame, i, n)[k],
    decreases n,
{
    if n > 0 {
        lemma_seen(frame, i, (n - 1) as nat);
    }
}

proof fn lemma_points<S: Scalar, D: Widens<S> + Stored>(wp: WorldPoints<S>, n: nat, p: int)
    requires
        0 <= p,
        n <= wp.frame@.len() <= usize::MAX,
        numbered(wp),
    ensures
        points_bin::<S, D>(wp, n).len() == 8 + 59 * n,
        points_bin::<S, D>(wp, n).subrange(0, 8) == le_bytes(wp.frame@.len(), 8),
        p < n ==> points_bin::<S, D>(wp, n).subrange(8 + 59 * p, 67 + 59 * p) == point_record::<
            S,
            D,
        >(wp, p),
    decreases n,
{
    lemma_le_bytes_len(wp.frame@.len(), 8);
    let b = points_bin::<S, D>(wp, n);
    if n > 0 {
        lemma_points::<S, D>(wp, (n - 1) as nat, p);
        let a = points_bin::<S, D>(wp, (n - 1) as nat);
        assert(wp.frame@[n - 1] < 0xffff_ffff);
        lemma_seen(wp.frame@, wp.frame@[n - 1] as int, (n - 1) as nat);
        lemma_point::<S, D>(wp, n - 1);
        assert(b.subrange(0, 8) =~= a.subrange(0, 8));
        if p < n - 1 {
            assert(b.subrange(8 + 59 * p, 67 + 59 * p) =~= a.subrange(8 + 59 * p, 67 + 59 * p));
        } else if p == n - 1 {
            assert(b.subrange(8 + 59 * p, 67 + 59 * p) =~= point_record::<S, D>(wp, p));
        }
    } else {
        assert(b.subrange(0, 8) =~= le_bytes(wp.frame@.len(), 8));
    }
}

/// From the point file: how many points there are, and of each its number, its place in
/// the world, its colour, no error, and a track of one: the frame that saw it, and the
/// point's place among those that the frame saw.
pub proof fn law_points_read_back<S: Scalar, D: Widens<S> + Stored>(wp: WorldPoints<S>, p: int)
    requires
        0 <= p < wp.frame@.len() <= usize::MAX,
        numbered(wp),
    ensures
        ({
            let b = points_bin::<S, D>(wp, wp.frame@.len());
            &&& b.len() == 8 + 59 * wp.frame@.len()
            &&& number_at(b, 0, 8) == wp.frame@.len()
            &&& says_point::<S, D>(b, 8 + 59 * p, wp, p)
        }),
{
    lemma_limits();
    let n = wp.frame@.len();
    let b = points_bin::<S, D>(wp, n);
    let r = point_record::<S, D>(wp, p);
    lemma_points::<S, D>(wp, n, p);
    lemma_field(b, 0, n, 8);
    assert(wp.frame@[p] < 0xffff_ffff);
    lemma_seen(wp.frame@, wp.frame@[p] as int, p as nat);
    lemma_point::<S, D>(wp, p);
    let at = 8 + 59 * p;
    lemma_inside(b, at, r, 0, 8);
    lemma_inside(b, at, r, 8, 8);
    lemma_inside(b, at, r, 16, 8);
    lemma_inside(b, at, r, 24, 8);
    assert(b.subrange(at, at + 59)[32] == r[32]);
    assert(b.subrange(at, at + 59)[33] == r[33]);
    assert(b.subrange(at, at + 59)[34] == r[34]);
    lemma_inside(b, at, r, 35, 8);
    lemma_inside(b, at, r, 43, 8);
    lemma_inside(b, at, r, 51, 4);
    lemma_inside(b, at, r, 55, 4);
}

// ---- images -------------------------------------------------------------------

/// What an observation of point `p` says: where the point stands in the image, and its
/// number.
pub open spec fn says_observation<S, D: Analytic + Stored>(
    b: Seq<u8>,
    at: int,
    wp: WorldPoints<S>,
    orig_w: i64,
    orig_h: i64,
    w: int,
    h: int,
    p: int,
) -> bool {
    &&& holds_wide(b, at, pixel_place::<D>(wp.u[p], orig_w, w))
    &&& holds_wide(b, at + 8, pixel_place::<D>(wp.v[p], orig_h, h))
    &&& number_at(b, at + 16, 8) == p + 1
}

proof fn lemma_observations<S, D: Analytic + Stored>(
    wp: WorldPoints<S>,
    orig_w: i64,
    orig_h: i64,
    w: int,
    h: int,
    seen: Seq<usize>,
    n: nat,
    k: int,
)
    requires
        0 <= k,
        n <= seen.len(),
        forall|j: int| 0 <= j < seen.len() ==> #[trigger] seen[j] < 0xffff_ffff,
    ensures
        observations_bin::<S, D>(wp, orig_w, orig_h, w, h, seen, n).len() == 24 * n,
        k < n ==> says_observation::<S, D>(
            observations_bin::<S, D>(wp, orig_w, orig_h, w, h, seen, n),
            24 * k,
            wp,
            orig_w,
            orig_h,
            w,
            h,
            seen[k] as int,
        ),
    decreases n,
{
    if n > 0 {
        lemma_limits();
        lemma_observations::<S, D>(wp, orig_w, orig_h, w, h, seen, (n - 1) as nat, k);
        let b = observations_bin::<S, D>(wp, orig_w, orig_h, w, h, seen, n);
        let a = observations_bin::<S, D>(wp, orig_w, orig_h, w, h, seen, (n - 1) as nat);
        let p = seen[n - 1] as int;
        let x = pixel_place::<D>(wp.u[p], orig_w, w);
        let y = pixel_place::<D>(wp.v[p], orig_h, h);
        lemma_le_bytes_len(x.double_bits_spec() as nat, 8);
        lemma_le_bytes_len(y.double_bits_spec() as nat, 8);
        lemma_le_bytes_len((p + 1) as nat, 8);
        assert(b.subrange(0, a.len() as int) =~= a);
        if k < n - 1 {
            lemma_inside(b, 0, a, 24 * k, 8);
            lemma_inside(b, 0, a, 24 * k + 8, 8);
            lemma_inside(b, 0, a, 24 * k + 16, 8);
        } else if k == n - 1 {
            assert(b.subrange(24 * k, 24 * k + 8) =~= wide_bytes(x));
            assert(b.subrange(24 * k + 8, 24 * k + 16) =~= wide_bytes(y));
            assert(b.subrange(24 * k + 16, 24 * k + 24) =~= le_bytes((p + 1) as nat, 8));
            lemma_field(b, 24 * k, x.double_bits_spec() as nat, 8);
            lemma_field(b, 24 * k + 8, y.double_bits_spec() as nat, 8);
            lemma_field(b, 24 * k + 16, (p + 1) as nat, 8);
        }
    }
}

/// How many bytes a name takes.
pub open spec fn name_size<S>(f: Frame<S>) -> int {
    vstd::utf8::encode_utf8(f.name@).len() as int
}

/// What an image's record says before its name: its number, the quaternion with the real
/// part first, the translation, and the number of its camera, which is its own.
pub open spec fn says_pose<S: Scalar, D: Widens<S> + Stored>(
    b: Seq<u8>,
    at: int,
    f: Frame<S>,
    i: int,
) -> bool {
    &&& number_at(b, at, 4) == i + 1
    &&& holds_wide(b, at + 4, D::widened_spec(f.qvec[0]))
    &&& holds_wide(b, at + 12, D::widened_spec(f.qvec[1]))
    &&& holds_wide(b, at + 20, D::widened_spec(f.qvec[2]))
    &&& holds_wide(b, at + 28, D::widened_spec(f.qvec[3]))
    &&& holds_wide(b, at + 36, D::widened_spec(f.ext[3]))
    &&& holds_wide(b, at + 44, D::widened_spec(f.ext[7]))
    &&& holds_wide(b, at + 52, D::widened_spec(f.ext[11]))
    &&& number_at(b, at + 60, 4) == i + 1
}

/// An image's record in its parts.
#[verifier::rlimit(40)]
proof fn lemma_image<S: Scalar, D: Widens<S> + Analytic + Stored>(
    f: Frame<S>,
    wp: WorldPoints<S>,
    i: int,
    w: int,
    h: int,
)
    requires
        0 <= i < 0xffff_ffff,
        numbered(wp),
        wp.frame@.len() <= usize::MAX,
    ensures
        ({
            let r = image_record::<S, D>(f, wp, i, w, h);
            let seen = seen_by(wp.frame@, i, wp.frame@.len());
            let l = name_size(f);
            &&& r.len() == 73 + l + 24 * seen.len()
            &&& says_pose::<S, D>(r, 0, f, i)
            &&& r.subrange(64, 64 + l) == vstd::utf8::encode_utf8(f.name@)
            &&& r[64 + l] == 0
            &&& number_at(r, 65 + l, 8) == seen.len()
            &&& r.subrange(73 + l, r.len() as int) == observations_bin::<S, D>(
                wp,
                f.orig_w,
                f.orig_h,
                w,
                h,
                seen,
                seen.len(),
            )
        }),
{
    lemma_limits();
    let r = image_record::<S, D>(f, wp, i, w, h);
    let seen = seen_by(wp.frame@, i, wp.frame@.len());
    lemma_seen(wp.frame@, i, wp.frame@.len());
    let l = name_size(f);
    lemma_observations::<S, D>(wp, f.orig_w, f.orig_h, w, h, seen, seen.len(), 0);
    let q0 = D::widened_spec(f.qvec[0]);
    let q1 = D::widened_spec(f.qvec[1]);
    let q2 = D::widened_spec(f.qvec[2]);
    let q3 = D::widened_spec(f.qvec[3]);
    let tx = D::widened_spec(f.ext[3]);
    let ty = D::widened_spec(f.ext[7]);
    let tz = D::widened_spec(f.ext[11]);
    lemma_le_bytes_len((i + 1) as nat, 4);
    lemma_le_bytes_len(0, 1);
    lemma_le_bytes_len(seen.len(), 8);
    lemma_le_bytes_len(q0.double_bits_spec() as nat, 8);
    lemma_le_bytes_len(q1.double_bits_spec() as nat, 8);
    lemma_le_bytes_len(q2.double_bits_spec() as nat, 8);
    lemma_le_bytes_len(q3.double_bits_spec() as nat, 8);
    lemma_le_bytes_len(tx.double_bits_spec() as nat, 8);
    lemma_le_bytes_len(ty.double_bits_spec() as nat, 8);
    lemma_le_bytes_len(tz.double_bits_spec() as nat, 8);
    let head = le_bytes((i + 1) as nat, 4) + wide_bytes(q0) + wide_bytes(q1) + wide_bytes(q2)
        + wide_bytes(q3) + wide_bytes(tx) + wide_bytes(ty) + wide_bytes(tz) + le_bytes(
        (i + 1) as nat,
        4,
    );
    let name = vstd::utf8::encode_utf8(f.name@);
    let rest = observations_bin::<S, D>(wp, f.orig_w, f.orig_h, w, h, seen, seen.len());
    assert(r == head + name + le_bytes(0, 1) + le_bytes(seen.len(), 8) + rest);
    assert(head.len() == 64);
    assert(r.subrange(0, 64) =~= head);
    assert(r.subrange(64, 64 + l) =~= name);
    assert(r[64 + l] == le_bytes(0, 1)[0]);
    assert(le_bytes(0, 1)[0] == 0) by {
        reveal_with_fuel(le_bytes, 2);
    }
    assert(r.subrange(65 + l, 73 + l) =~= le_bytes(seen.len(), 8));
    lemma_field(r, 65 + l, seen.len(), 8);
    assert(r.subrange(73 + l, r.len() as int) =~= rest);
    assert(head.subrange(0, 4) =~= le_bytes((i + 1) as nat, 4));
    assert(head.subrange(4, 12) =~= wide_bytes(q0));
    assert(head.subrange(12, 20) =~= wide_bytes(q1));
    assert(head.subrange(20, 28) =~= wide_bytes(q2));
    assert(head.subrange(28, 36) =~= wide_bytes(q3));
    assert(head.subrange(36, 44) =~= wide_bytes(tx));
    assert(head.subrange(44, 52) =~= wide_bytes(ty));
    assert(head.subrange(52, 60) =~= wide_bytes(tz));
    assert(head.subrange(60, 64) =~= le_bytes((i + 1) as nat, 4));
    lemma_field(head, 0, (i + 1) as nat, 4);
    lemma_field(head, 4, q0.double_bits_spec() as nat, 8);
    lemma_field(head, 12, q1.double_bits_spec() as nat, 8);
    lemma_field(head, 20, q2.double_bits_spec() as nat, 8);
    lemma_field(head, 28, q3.double_bits_spec() as nat, 8);
    lemma_field(head, 36, tx.double_bits_spec() as nat, 8);
    lemma_field(head, 44, ty.double_bits_spec() as nat, 8);
    lemma_field(head, 52, tz.double_bits_spec() as nat, 8);
    lemma_field(head, 60, (i + 1) as nat, 4);
    assert(says_pose::<S, D>(head, 0, f, i));
    lemma_pose_inside::<S, D>(r, 0, head, f, i);
}

proof fn lemma_pose_inside<S: Scalar, D: Widens<S> + Stored>(
    b: Seq<u8>,
    at: int,
    r: Seq<u8>,
    f: Frame<S>,
    i: int,
)
    requires
        0 <= at,
        64 <= r.len(),
        at + r.len() <= b.len(),
        b.subrange(at, at + r.len()) == r,
        says_pose::<S, D>(r, 0, f, i),
    ensures
        says_pose::<S, D>(b, at, f, i),
{
    lemma_inside(b, at, r, 0, 4);
    lemma_inside(b, at, r, 4, 8);
    lemma_inside(b, at, r, 12, 8);
    lemma_inside(b, at, r, 20, 8);
    lemma_inside(b, at, r, 28, 8);
    lemma_inside(b, at, r, 36, 8);
    lemma_inside(b, at, r, 44, 8);
    lemma_inside(b, at, r, 52, 8);
    lemma_inside(b, at, r, 60, 4);
}

/// Where image `i` starts in the image file: the count takes eight bytes, and an image 73
/// bytes, those of its name, and 24 for each point that it saw.
pub open spec fn image_start<S>(frames: Seq<Frame<S>>, wp: WorldPoints<S>, i: nat) -> int
    decreases i,
{
    if i == 0 {
        8
    } else {
        image_start(frames, wp, (i - 1) as nat) + 73 + name_size(frames[i - 1]) + 24 * seen_by(
            wp.frame@,
            i - 1,
            wp.frame@.len(),
        ).len()
    }
}

#[verifier::rlimit(40)]
proof fn lemma_images<S: Scalar, D: Widens<S> + Analytic + Stored>(
    frames: Seq<Frame<S>>,
    wp: WorldPoints<S>,
    w: int,
    h: int,
    n: nat,
    i: int,
)
    requires
        0 <= i,
        n <= frames.len() <= 0xffff_ffff,
        numbered(wp),
        wp.frame@.len() <= usize::MAX,
    ensures
        ({
            let b = images_bin::<S, D>(frames, wp, w, h, n);
            &&& b.len() == image_start(frames, wp, n)
            &&& 8 <= b.len()
            &&& b.subrange(0, 8) == le_bytes(frames.len(), 8)
            &&& i < n ==> {
                let at = image_start(frames, wp, i as nat);
                let r = image_record::<S, D>(frames[i], wp, i, w, h);
                &&& 8 <= at
                &&& at + r.len() <= b.len()
                &&& b.subrange(at, at + r.len()) == r
            }
        }),
    decreases n,
{
    lemma_le_bytes_len(frames.len(), 8);
    let b = images_bin::<S, D>(frames, wp, w, h, n);
    if n > 0 {
        lemma_images::<S, D>(frames, wp, w, h, (n - 1) as nat, i);
        let a = images_bin::<S, D>(frames, wp, w, h, (n - 1) as nat);
        let last = image_record::<S, D>(frames[n - 1], wp, n - 1, w, h);
        lemma_image::<S, D>(frames[n - 1], wp, n - 1, w, h);
        assert(b.subrange(0, 8) =~= a.subrange(0, 8));
        let at = image_start(frames, wp, i as nat);
        let r = image_record::<S, D>(frames[i], wp, i, w, h);
        if i < n - 1 {
            assert(b.subrange(at, at + r.len()) =~= a.subrange(at, at + r.len()));
        } else if i == n - 1 {
            assert(b.subrange(at, at + r.len()) =~= last);
        }
    } else {
        assert(b.subrange(0, 8) =~= le_bytes(frames.len(), 8));
    }
}

/// The parts of image `i` in the image file.
proof fn lemma_image_parts<S: Scalar, D: Widens<S> + Analytic + Stored>(
    frames: Seq<Frame<S>>,
    wp: WorldPoints<S>,
    w: int,
    h: int,
    i: int,
)
    requires
        0 <= i < frames.len() <= 0xffff_ffff,
        numbered(wp),
        wp.frame@.len() <= usize::MAX,
    ensures
        ({
            let b = images_bin::<S, D>(frames, wp, w, h, frames.len());
            let f = frames[i];
            let at = image_start(frames, wp, i as nat);
            let l = name_size(f);
            let seen = seen_by(wp.frame@, i, wp.frame@.len());
            let o = observations_bin::<S, D>(wp, f.orig_w, f.orig_h, w, h, seen, seen.len());
            let from = at + 73 + l;
            &&& 8 <= at
            &&& says_pose::<S, D>(b, at, f, i)
            &&& b.subrange(at + 64, at + 64 + l) == vstd::utf8::encode_utf8(f.name@)
            &&& b[at + 64 + l] == 0
            &&& number_at(b, at + 65 + l, 8) == seen.len()
            &&& o.len() == 24 * seen.len()
            &&& from + o.len() <= b.len()
            &&& b.subrange(from, from + o.len()) == o
        }),
{
    let n = frames.len();
    let b = images_bin::<S, D>(frames, wp, w, h, n);
    let f = frames[i];
    let at = image_start(frames, wp, i as nat);
    let l = name_size(f);
    let r = image_record::<S, D>(f, wp, i, w, h);
    let seen = seen_by(wp.frame@, i, wp.frame@.len());
    let o = observations_bin::<S, D>(wp, f.orig_w, f.orig_h, w, h, seen, seen.len());
    lemma_images::<S, D>(frames, wp, w, h, n, i);
    lemma_image::<S, D>(f, wp, i, w, h);
    lemma_pose_inside::<S, D>(b, at, r, f, i);
    assert(b.subrange(at + 64, at + 64 + l) =~= r.subrange(64, 64 + l));
    assert(b[at + 64 + l] == b.subrange(at, at + r.len())[64 + l]);
    lemma_inside(b, at, r, 65 + l, 8);
    let from = at + 73 + l;
    assert(o.len() == r.len() - 73 - l);
    assert(b.subrange(from, from + o.len()) =~= r.subrange(73 + l, r.len() as int));
}

/// Observation `k` of image `i` in the image file.
proof fn lemma_observed<S: Scalar, D: Widens<S> + Analytic + Stored>(
    frames: Seq<Frame<S>>,
    wp: WorldPoints<S>,
    w: int,
    h: int,
    i: int,
    k: int,
)
    requires
        0 <= i < frames.len() <= 0xffff_ffff,
        numbered(wp),
        wp.frame@.len() <= usize::MAX,
        0 <= k < seen_by(wp.frame@, i, wp.frame@.len()).len(),
    ensures
        says_observation::<S, D>(
            images_bin::<S, D>(frames, wp, w, h, frames.len()),
            image_start(frames, wp, i as nat) + 73 + name_size(frames[i]) + 24 * k,
            wp,
            frames[i].orig_w,
            frames[i].orig_h,
            w,
            h,
            seen_by(wp.frame@, i, wp.frame@.len())[k] as int,
        ),
{
    let b = images_bin::<S, D>(frames, wp, w, h, frames.len());
    let f = frames[i];
    let seen = seen_by(wp.frame@, i, wp.frame@.len());
    let o = observations_bin::<S, D>(wp, f.orig_w, f.orig_h, w, h, seen, seen.len());
    let from = image_start(frames, wp, i as nat) + 73 + name_size(f);
    lemma_image_parts::<S, D>(frames, wp, w, h, i);
    lemma_seen(wp.frame@, i, wp.frame@.len());
    lemma_observations::<S, D>(wp, f.orig_w, f.orig_h, w, h, seen, seen.len(), k);
    lemma_inside(b, from, o, 24 * k, 8);
    lemma_inside(b, from, o, 24 * k + 8, 8);
    lemma_inside(b, from, o, 24 * k + 16, 8);
}

/// From the image file: how many images there are, and of each its number, its pose, its
/// camera, its name with a zero behind it, and how many points it saw; then, for each of
/// those in increasing order, where it stands in the image and its number. They are points
/// of this frame.
#[verifier::rlimit(40)]
pub proof fn law_images_read_back<S: Scalar, D: Widens<S> + Analytic + Stored>(
    frames: Seq<Frame<S>>,
    wp: WorldPoints<S>,
    w: int,
    h: int,
    i: int,
    k: int,
)
    requires
        0 <= i < frames.len() <= 0xffff_ffff,
        numbered(wp),
        wp.frame@.len() <= usize::MAX,
        0 <= k,
    ensures
        ({
            let b = images_bin::<S, D>(frames, wp, w, h, frames.len());
            let f = frames[i];
            let at = image_start(frames, wp, i as nat);
            let l = name_size(f);
            let here = at + 73 + l + 24 * k;
            let p = number_at(b, here + 16, 8) - 1;
            &&& b.len() == image_start(frames, wp, frames.len())
            &&& number_at(b, 0, 8) == frames.len()
            &&& says_pose::<S, D>(b, at, f, i)
            &&& b.subrange(at + 64, at + 64 + l) == vstd::utf8::encode_utf8(f.name@)
            &&& b[at + 64 + l] == 0
            &&& k < number_at(b, at + 65 + l, 8) ==> {
                &&& 0 <= p < wp.frame@.len()
                &&& wp.frame@[p] == i
                &&& says_observation::<S, D>(b, here, wp, f.orig_w, f.orig_h, w, h, p)
                &&& k > 0 ==> number_at(b, here - 8, 8) < number_at(b, here + 16, 8)
            }
        }),
{
    lemma_limits();
    let n = frames.len();
    let b = images_bin::<S, D>(frames, wp, w, h, n);
    let seen = seen_by(wp.frame@, i, wp.frame@.len());
    lemma_images::<S, D>(frames, wp, w, h, n, i);
    lemma_field(b, 0, n, 8);
    lemma_image_parts::<S, D>(frames, wp, w, h, i);
    lemma_seen(wp.frame@, i, wp.frame@.len());
    if k < seen.len() {
        lemma_observed::<S, D>(frames, wp, w, h, i, k);
        if k > 0 {
            lemma_observed::<S, D>(frames, wp, w, h, i, k - 1);
            let here = image_start(frames, wp, i as nat) + 73 + name_size(frames[i]) + 24 * k;
            assert(here - 8 == image_start(frames, wp, i as nat) + 73 + name_size(frames[i]) + 24
                * (k - 1) + 16);
            assert(seen[k - 1] < seen[k]);
        }
    }
}

/// The point file and the image file agree: the track of a point names an image and a
/// place, and in that place the image has an observation with the number of the point.
pub proof fn law_tracks_read_back<S: Scalar, D: Widens<S> + Analytic + Stored>(
    frames: Seq<Frame<S>>,
    wp: WorldPoints<S>,
    w: int,
    h: int,
    p: int,
)
    requires
        frames.len() <= 0xffff_ffff,
        numbered(wp),
        0 <= p < wp.frame@.len() <= usize::MAX,
        wp.frame@[p] < frames.len(),
    ensures
        ({
            let points = points_bin::<S, D>(wp, wp.frame@.len());
            let images = images_bin::<S, D>(frames, wp, w, h, frames.len());
            let i = number_at(points, 8 + 59 * p + 51, 4) - 1;
            let k = number_at(points, 8 + 59 * p + 55, 4) as int;
            let at = image_start(frames, wp, i as nat) + 65 + name_size(frames[i]);
            &&& i == wp.frame@[p]
            &&& k < number_at(images, at, 8)
            &&& number_at(images, at + 8 + 24 * k + 16, 8) == number_at(points, 8 + 59 * p, 8)
        }),
{
    law_points_read_back::<S, D>(wp, p);
    law_tracks(wp.frame@, p);
    let i = wp.frame@[p] as int;
    lemma_image_parts::<S, D>(frames, wp, w, h, i);
    lemma_observed::<S, D>(frames, wp, w, h, i, place_in_frame(wp.frame@, p) as int);
}

// ---- text ---------------------------------------------------------------------

/// The first `n` words with a space between any two.
pub open spec fn joined(words: Seq<Seq<char>>, n: nat) -> Seq<char>
    decreases n,
{
    if n == 0 {
        Seq::empty()
    } else if n == 1 {
        words[0]
    } else {
        joined(words, (n - 1) as nat) + " "@ + words[n - 1]
    }
}

/// A word shows the number that bytes `at` to `at + 8` hold.
pub open spec fn shows_wide<D: Stored>(word: Seq<char>, b: Seq<u8>, at: int) -> bool {
    exists|x: D|
        word == #[trigger] x.shown_spec(Style::Scientific) && number_at(b, at, 8)
            == x.double_bits_spec()
}

proof fn lemma_shows<D: Stored>(b: Seq<u8>, at: int, x: D)
    requires
        holds_wide(b, at, x),
    ensures
        shows_wide::<D>(x.shown_spec(Style::Scientific), b, at),
{
}

/// One word more, after a space.
proof fn lemma_joined(words: Seq<Seq<char>>, n: nat, line: Seq<char>, word: Seq<char>)
    requires
        n > 0,
        joined(words, n) == line,
        words[n as int] == word,
    ensures
        joined(words, n + 1) == line + (" "@ + word),
        joined(words, n + 1) == line + " "@ + word,
{
    assert(line + (" "@ + word) =~= line + " "@ + word);
}

/// The text file of the cameras says what the binary one says: the line of a camera has its
/// number, the model's name, the size of its image, its focal lengths and its centre.
#[verifier::rlimit(40)]
pub proof fn law_camera_line<S: Scalar, D: Widens<S> + Stored>(
    frames: Seq<Frame<S>>,
    w: int,
    h: int,
    i: int,
)
    requires
        0 <= i < frames.len() <= 0xffff_ffff,
    ensures
        ({
            let b = cameras_bin::<S, D>(frames, w, h, frames.len());
            let at = 8 + 56 * i;
            exists|words: Seq<Seq<char>>|
                {
                    &&& cameras_txt::<S, D>(frames, w, h, (i + 1) as nat) == cameras_txt::<S, D>(
                        frames,
                        w,
                        h,
                        i as nat,
                    ) + (#[trigger] joined(words, 8) + "\n"@)
                    &&& words[0] == digits(number_at(b, at, 4))
                    &&& words[1] == "PINHOLE"@
                    &&& words[2] == signed_digits(frames[i].orig_w as int)
                    &&& words[3] == signed_digits(frames[i].orig_h as int)
                    &&& shows_wide::<D>(words[4], b, at + 24)
                    &&& shows_wide::<D>(words[5], b, at + 32)
                    &&& shows_wide::<D>(words[6], b, at + 40)
                    &&& shows_wide::<D>(words[7], b, at + 48)
                }
        }),
{
    law_cameras_read_back::<S, D>(frames, w, h, i);
    let b = cameras_bin::<S, D>(frames, w, h, frames.len());
    let at = 8 + 56 * i;
    let f = frame_data::<S, D>(frames[i], w, h);
    lemma_shows(b, at + 24, f.fx);
    lemma_shows(b, at + 32, f.fy);
    lemma_shows(b, at + 40, f.cx);
    lemma_shows(b, at + 48, f.cy);
    let words = seq![
        digits((i + 1) as nat),
        "PINHOLE"@,
        signed_digits(f.orig_w as int),
        signed_digits(f.orig_h as int),
        f.fx.shown_spec(Style::Scientific),
        f.fy.shown_spec(Style::Scientific),
        f.cx.shown_spec(Style::Scientific),
        f.cy.shown_spec(Style::Scientific),
    ];
    reveal_strlit(" PINHOLE ");
    reveal_strlit("PINHOLE");
    reveal_strlit(" ");
    assert(" PINHOLE "@ =~= " "@ + "PINHOLE"@ + " "@);
    lemma_joined(words, 1, words[0], words[1]);
    lemma_joined(words, 2, joined(words, 2), words[2]);
    let l3 = words[0] + " PINHOLE "@ + words[2];
    assert(joined(words, 3) =~= l3);
    let l4 = l3 + " "@ + words[3];
    lemma_joined(words, 3, l3, words[3]);
    lemma_joined(words, 4, l4, words[4]);
    lemma_joined(words, 5, l4 + spaced(f.fx), words[5]);
    lemma_joined(words, 6, l4 + spaced(f.fx) + spaced(f.fy), words[6]);
    lemma_joined(words, 7, l4 + spaced(f.fx) + spaced(f.fy) + spaced(f.cx), words[7]);
}

/// The text file of the points says what the binary one says: the line of a point has its
/// number, its place, its colour, its error, and the image and the place of its track.
#[verifier::rlimit(40)]
pub proof fn law_point_line<S: Scalar, D: Widens<S> + Stored>(wp: WorldPoints<S>, p: int)
    requires
        0 <= p < wp.frame@.len() <= usize::MAX,
        numbered(wp),
    ensures
        ({
            let b = points_bin::<S, D>(wp, wp.frame@.len());
            let at = 8 + 59 * p;
            exists|words: Seq<Seq<char>>|
                {
                    &&& points_txt::<S, D>(wp, (p + 1) as nat) == points_txt::<S, D>(wp, p as nat)
                        + (#[trigger] joined(words, 10) + "\n"@)
                    &&& words[0] == digits(number_at(b, at, 8))
                    &&& shows_wide::<D>(words[1], b, at + 8)
                    &&& shows_wide::<D>(words[2], b, at + 16)
                    &&& shows_wide::<D>(words[3], b, at + 24)
                    &&& words[4] == digits(b[at + 32] as nat)
                    &&& words[5] == digits(b[at + 33] as nat)
                    &&& words[6] == digits(b[at + 34] as nat)
                    &&& shows_wide::<D>(words[7], b, at + 35)
                    &&& words[8] == digits(number_at(b, at + 51, 4))
                    &&& words[9] == digits(number_at(b, at + 55, 4))
                }
        }),
{
    law_points_read_back::<S, D>(wp, p);
    let b = points_bin::<S, D>(wp, wp.frame@.len());
    let at = 8 + 59 * p;
    let x = D::widened_spec(wp.xyz[3 * p]);
    let y = D::widened_spec(wp.xyz[3 * p + 1]);
    let z = D::widened_spec(wp.xyz[3 * p + 2]);
    let e = D::ratio_spec(0, 1);
    lemma_shows(b, at + 8, x);
    lemma_shows(b, at + 16, y);
    lemma_shows(b, at + 24, z);
    lemma_shows(b, at + 35, e);
    let words = seq![
        digits((p + 1) as nat),
        x.shown_spec(Style::Scientific),
        y.shown_spec(Style::Scientific),
        z.shown_spec(Style::Scientific),
        digits(wp.rgb[3 * p] as nat),
        digits(wp.rgb[3 * p + 1] as nat),
        digits(wp.rgb[3 * p + 2] as nat),
        e.shown_spec(Style::Scientific),
        digits((wp.frame[p] + 1) as nat),
        digits(place_in_frame(wp.frame@, p)),
    ];
    lemma_joined(words, 1, words[0], words[1]);
    lemma_joined(words, 2, joined(words, 2), words[2]);
    lemma_joined(words, 3, joined(words, 3), words[3]);
    lemma_joined(words, 4, joined(words, 4), words[4]);
    lemma_joined(words, 5, joined(words, 5), words[5]);
    lemma_joined(words, 6, joined(words, 6), words[6]);
    lemma_joined(words, 7, joined(words, 7), words[7]);
    lemma_joined(words, 8, joined(words, 8), words[8]);
    lemma_joined(words, 9, joined(words, 9), words[9]);
    assert(point_line::<S, D>(wp, p) == joined(words, 10) + "\n"@);
}

/// The words of the observations `seen[..n]`, as a line.
proof fn lemma_observed_line<S, D: Analytic + Stored>(
    wp: WorldPoints<S>,
    orig_w: i64,
    orig_h: i64,
    w: int,
    h: int,
    seen: Seq<usize>,
    n: nat,
    words: Seq<Seq<char>>,
)
    requires
        n <= seen.len(),
        forall|k: int|
            0 <= k < seen.len() ==> {
                let p = #[trigger] seen[k] as int;
                &&& words[3 * k] == pixel_place::<D>(wp.u[p], orig_w, w).shown_spec(
                    Style::Scientific,
                )
                &&& words[3 * k + 1] == pixel_place::<D>(wp.v[p], orig_h, h).shown_spec(
                    Style::Scientific,
                )
                &&& words[3 * k + 2] == digits((p + 1) as nat)
            },
    ensures
        observations_txt::<S, D>(wp, orig_w, orig_h, w, h, seen, n) == joined(words, 3 * n),
    decreases n,
{
    if n > 0 {
        let m = (n - 1) as nat;
        lemma_observed_line::<S, D>(wp, orig_w, orig_h, w, h, seen, m, words);
        let p = seen[n - 1] as int;
        let a = joined(words, 3 * m);
        let one = words[3 * m as int];
        if m == 0 {
            assert(joined(words, 1) == words[0]);
            assert(joined(words, 0) == Seq::<char>::empty());
            assert(a + Seq::<char>::empty() + one =~= joined(words, 1));
        } else {
            lemma_joined(words, 3 * m, a, one);
        }
        let line = joined(words, 3 * m + 1);
        lemma_joined(words, 3 * m + 1, line, words[3 * m as int + 1]);
        lemma_joined(words, 3 * m + 2, joined(words, 3 * m + 2), words[3 * m as int + 2]);
        assert(3 * m + 3 == 3 * n);
    } else {
        assert(joined(words, 0) == Seq::<char>::empty());
    }
}

/// The words of an image's first line.
spec fn pose_words<S: Scalar, D: Widens<S> + Stored>(f: Frame<S>, i: int) -> Seq<Seq<char>> {
    seq![
        digits((i + 1) as nat),
        D::widened_spec(f.qvec[0]).shown_spec(Style::Scientific),
        D::widened_spec(f.qvec[1]).shown_spec(Style::Scientific),
        D::widened_spec(f.qvec[2]).shown_spec(Style::Scientific),
        D::widened_spec(f.qvec[3]).shown_spec(Style::Scientific),
        D::widened_spec(f.ext[3]).shown_spec(Style::Scientific),
        D::widened_spec(f.ext[7]).shown_spec(Style::Scientific),
        D::widened_spec(f.ext[11]).shown_spec(Style::Scientific),
        digits((i + 1) as nat),
        f.name@,
    ]
}

/// Words say what the record of an image says before its name.
pub open spec fn says_pose_words<D: Stored>(words: Seq<Seq<char>>, b: Seq<u8>, at: int) -> bool {
    &&& words[0] == digits(number_at(b, at, 4))
    &&& shows_wide::<D>(words[1], b, at + 4)
    &&& shows_wide::<D>(words[2], b, at + 12)
    &&& shows_wide::<D>(words[3], b, at + 20)
    &&& shows_wide::<D>(words[4], b, at + 28)
    &&& shows_wide::<D>(words[5], b, at + 36)
    &&& shows_wide::<D>(words[6], b, at + 44)
    &&& shows_wide::<D>(words[7], b, at + 52)
    &&& words[8] == digits(number_at(b, at + 60, 4))
}

proof fn lemma_pose_words<S: Scalar, D: Widens<S> + Stored>(
    b: Seq<u8>,
    at: int,
    f: Frame<S>,
    i: int,
)
    requires
        0 <= i,
        says_pose::<S, D>(b, at, f, i),
    ensures
        says_pose_words::<D>(pose_words::<S, D>(f, i), b, at),
{
    lemma_shows(b, at + 4, D::widened_spec(f.qvec[0]));
    lemma_shows(b, at + 12, D::widened_spec(f.qvec[1]));
    lemma_shows(b, at + 20, D::widened_spec(f.qvec[2]));
    lemma_shows(b, at + 28, D::widened_spec(f.qvec[3]));
    lemma_shows(b, at + 36, D::widened_spec(f.ext[3]));
    lemma_shows(b, at + 44, D::widened_spec(f.ext[7]));
    lemma_shows(b, at + 52, D::widened_spec(f.ext[11]));
}

/// The two lines of an image, as words.
#[verifier::rlimit(40)]
proof fn lemma_image_line<S: Scalar, D: Widens<S> + Analytic + Stored>(
    f: Frame<S>,
    wp: WorldPoints<S>,
    i: int,
    w: int,
    h: int,
    second: Seq<char>,
)
    requires
        second == observations_txt::<S, D>(
            wp,
            f.orig_w,
            f.orig_h,
            w,
            h,
            seen_by(wp.frame@, i, wp.frame@.len()),
            seen_by(wp.frame@, i, wp.frame@.len()).len(),
        ),
    ensures
        image_lines::<S, D>(f, wp, i, w, h) == joined(pose_words::<S, D>(f, i), 10) + "\n"@ + second
            + "\n"@,
{
    let words = pose_words::<S, D>(f, i);
    lemma_joined(words, 1, words[0], words[1]);
    lemma_joined(words, 2, joined(words, 2), words[2]);
    lemma_joined(words, 3, joined(words, 3), words[3]);
    lemma_joined(words, 4, joined(words, 4), words[4]);
    lemma_joined(words, 5, joined(words, 5), words[5]);
    lemma_joined(words, 6, joined(words, 6), words[6]);
    lemma_joined(words, 7, joined(words, 7), words[7]);
    lemma_joined(words, 8, joined(words, 8), words[8]);
    lemma_joined(words, 9, joined(words, 9), words[9]);
}

/// The words of an image's second line.
proof fn lemma_second_line<S: Scalar, D: Widens<S> + Analytic + Stored>(
    frames: Seq<Frame<S>>,
    wp: WorldPoints<S>,
    w: int,
    h: int,
    i: int,
)
    requires
        0 <= i < frames.len() <= 0xffff_ffff,
        numbered(wp),
        wp.frame@.len() <= usize::MAX,
    ensures
        ({
            let f = frames[i];
            let seen = seen_by(wp.frame@, i, wp.frame@.len());
            let more = observed_words::<S, D>(wp, f, w, h, seen);
            let b = images_bin::<S, D>(frames, wp, w, h, frames.len());
            let from = image_start(frames, wp, i as nat) + 73 + name_size(f);
            &&& observations_txt::<S, D>(wp, f.orig_w, f.orig_h, w, h, seen, seen.len()) == joined(
                more,
                3 * seen.len(),
            )
            &&& forall|k: int|
                0 <= k < seen.len() ==> #[trigger] says_words::<D>(more, b, from, k)
        }),
{
    let b = images_bin::<S, D>(frames, wp, w, h, frames.len());
    let from = image_start(frames, wp, i as nat) + 73 + name_size(frames[i]);
    let f = frames[i];
    let seen = seen_by(wp.frame@, i, wp.frame@.len());
    let more = observed_words::<S, D>(wp, f, w, h, seen);
    assert forall|k: int| 0 <= k < seen.len() implies #[trigger] says_words::<D>(
        more,
        b,
        from,
        k,
    ) by {
        lemma_observed::<S, D>(frames, wp, w, h, i, k);
        let p = seen[k] as int;
        lemma_words::<S, D>(wp, f, w, h, seen, k);
        lemma_shows(b, from + 24 * k, pixel_place::<D>(wp.u[p], f.orig_w, w));
        lemma_shows(b, from + 24 * k + 8, pixel_place::<D>(wp.v[p], f.orig_h, h));
    }
    assert forall|k: int| 0 <= k < seen.len() implies {
        let p = #[trigger] seen[k] as int;
        &&& more[3 * k] == pixel_place::<D>(wp.u[p], f.orig_w, w).shown_spec(Style::Scientific)
        &&& more[3 * k + 1] == pixel_place::<D>(wp.v[p], f.orig_h, h).shown_spec(
            Style::Scientific,
        )
        &&& more[3 * k + 2] == digits((p + 1) as nat)
    } by {
        lemma_words::<S, D>(wp, f, w, h, seen, k);
    }
    lemma_observed_line::<S, D>(wp, f.orig_w, f.orig_h, w, h, seen, seen.len(), more);
}

/// The text file of the images says what the binary one says: the first line of an image
/// has its number, its pose, its camera and its name, the second where each point that it
/// saw stands in it, and the point's number.
#[verifier::rlimit(40)]
pub proof fn law_image_lines<S: Scalar, D: Widens<S> + Analytic + Stored>(
    frames: Seq<Frame<S>>,
    wp: WorldPoints<S>,
    w: int,
    h: int,
    i: int,
)
    requires
        0 <= i < frames.len() <= 0xffff_ffff,
        numbered(wp),
        wp.frame@.len() <= usize::MAX,
    ensures
        ({
            let b = images_bin::<S, D>(frames, wp, w, h, frames.len());
            let at = image_start(frames, wp, i as nat);
            let count = number_at(b, at + 65 + name_size(frames[i]), 8);
            let from = at + 73 + name_size(frames[i]);
            exists|words: Seq<Seq<char>>, more: Seq<Seq<char>>|
                {
                    &&& images_txt::<S, D>(frames, wp, w, h, (i + 1) as nat) == images_txt::<S, D>(
                        frames,
                        wp,
                        w,
                        h,
                        i as nat,
                    ) + (#[trigger] joined(words, 10) + "\n"@ + #[trigger] joined(more, 3 * count)
                        + "\n"@)
                    &&& says_pose_words::<D>(words, b, at)
                    &&& words[9] == frames[i].name@
                    &&& forall|k: int|
                        0 <= k < count ==> #[trigger] says_words::<D>(more, b, from, k)
                }
        }),
{
    lemma_image_parts::<S, D>(frames, wp, w, h, i);
    let b = images_bin::<S, D>(frames, wp, w, h, frames.len());
    let at = image_start(frames, wp, i as nat);
    let f = frames[i];
    let seen = seen_by(wp.frame@, i, wp.frame@.len());
    let words = pose_words::<S, D>(f, i);
    let more = observed_words::<S, D>(wp, f, w, h, seen);
    lemma_pose_words::<S, D>(b, at, f, i);
    lemma_second_line::<S, D>(frames, wp, w, h, i);
    lemma_image_line::<S, D>(f, wp, i, w, h, joined(more, 3 * seen.len()));
    assert(words[9] == f.name@);
}

/// Three words say what observation `k` of those from `from` on says.
pub open spec fn says_words<D: Stored>(
    words: Seq<Seq<char>>,
    b: Seq<u8>,
    from: int,
    k: int,
) -> bool {
    &&& shows_wide::<D>(words[3 * k], b, from + 24 * k)
    &&& shows_wide::<D>(words[3 * k + 1], b, from + 24 * k + 8)
    &&& words[3 * k + 2] == digits(number_at(b, from + 24 * k + 16, 8))
}

spec fn observed_words<S, D: Analytic + Stored>(
    wp: WorldPoints<S>,
    f: Frame<S>,
    w: int,
    h: int,
    seen: Seq<usize>,
) -> Seq<Seq<char>> {
    Seq::new(
        3 * seen.len(),
        |j: int|
            {
                let p = seen[j / 3] as int;
                if j % 3 == 0 {
                    pixel_place::<D>(wp.u[p], f.orig_w, w).shown_spec(Style::Scientific)
                } else if j % 3 == 1 {
                    pixel_place::<D>(wp.v[p], f.orig_h, h).shown_spec(Style::Scientific)
                } else {
                    digits((p + 1) as nat)
                }
            },
    )
}

proof fn lemma_words<S, D: Analytic + Stored>(
    wp: WorldPoints<S>,
    f: Frame<S>,
    w: int,
    h: int,
    seen: Seq<usize>,
    k: int,
)
    requires
        0 <= k < seen.len(),
    ensures
        ({
            let more = observed_words::<S, D>(wp, f, w, h, seen);
            let p = seen[k] as int;
            &&& more[3 * k] == pixel_place::<D>(wp.u[p], f.orig_w, w).shown_spec(Style::Scientific)
            &&& more[3 * k + 1] == pixel_place::<D>(wp.v[p], f.orig_h, h).shown_spec(
                Style::Scientific,
            )
            &&& more[3 * k + 2] == digits((p + 1) as nat)
        }),
{
}

} // verus!
