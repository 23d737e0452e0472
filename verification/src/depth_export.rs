//! From raw outputs to depth maps, and depth maps as files.

use crate::glb_export::{number_bytes, put_numbers};
use crate::scalar::{
    byte_of, one, relu, to_byte, zero, Analytic, Scalar, Stored, Style,
};
use crate::text::{decimal, digits, put_text};
use vstd::prelude::*;
use vstd::string::*;

verus! {

/// Depth, confidence and sky, row by row; what a model lacks is empty.
pub struct DepthMaps<T> {
    pub depth: Vec<T>,
    pub conf: Vec<T>,
    pub sky: Vec<T>,
}

/// The logistic function.
pub open spec fn sigmoid_of<T: Analytic>(x: T) -> T {
    one::<T>().over_spec(one::<T>().plus_spec(x.negated_spec().exponential_spec()))
}

/// The logistic function.
pub fn sigmoid<T: Analytic>(x: T) -> (r: T)
    ensures
        r == sigmoid_of(x),
{
    let u: T = T::ratio(1, 1);
    u.over(u.plus(x.negated().exponential()))
}

/// How raw depth is read.
#[derive(Clone, Copy, Debug, PartialEq, Eq, Structural)]
pub enum Activation {
    /// Two channels: depth and confidence, both exponential.
    Confident,
    /// One channel beside a sky map: exponential.
    Metric,
    /// One channel, up to a largest depth: logistic.
    Bounded,
    /// One channel: cut off at zero.
    Relative,
}

/// How raw depth is read: by the number of channels, the presence of a sky map,
/// and the largest depth.
pub open spec fn activation_of<T: Scalar>(output_dim: int, sky: bool, max_depth: T) -> Activation {
    if output_dim >= 2 {
        Activation::Confident
    } else if sky {
        Activation::Metric
    } else if zero::<T>().less_spec(max_depth) {
        Activation::Bounded
    } else {
        Activation::Relative
    }
}

/// The depth of a raw value.
pub open spec fn depth_value<T: Analytic>(a: Activation, x: T, max_depth: T) -> T {
    match a {
        Activation::Confident | Activation::Metric => x.exponential_spec(),
        Activation::Bounded => sigmoid_of(x).times_spec(max_depth),
        Activation::Relative => relu(x),
    }
}

/// What [`DepthMaps`] hold.
pub struct MapsData<T> {
    pub depth: Seq<T>,
    pub conf: Seq<T>,
    pub sky: Seq<T>,
}

impl<T> View for DepthMaps<T> {
    type V = MapsData<T>;

    open spec fn view(&self) -> MapsData<T> {
        MapsData { depth: self.depth@, conf: self.conf@, sky: self.sky@ }
    }
}

/// The maps that raw outputs stand for.
pub open spec fn maps_of<T: Analytic>(
    logits: Seq<T>,
    sky: Option<Seq<T>>,
    hw: int,
    output_dim: int,
    max_depth: T,
) -> MapsData<T> {
    let a = activation_of(output_dim, sky is Some, max_depth);
    MapsData {
        depth: Seq::new(hw as nat, |i: int| depth_value(a, logits[i], max_depth)),
        conf: if a == Activation::Confident {
            Seq::new(hw as nat, |i: int| logits[hw + i].exponential_spec().plus_spec(one()))
        } else {
            Seq::empty()
        },
        sky: if a == Activation::Metric {
            Seq::new(hw as nat, |i: int| relu(sky->0[i]))
        } else {
            Seq::empty()
        },
    }
}

/// Turns raw outputs, channel after channel, into maps of `hw` pixels.
pub fn activate<T: Analytic>(
    logits: &[T],
    sky_logits: Option<&[T]>,
    hw: usize,
    output_dim: usize,
    max_depth: T,
) -> (m: DepthMaps<T>)
    requires
        hw <= logits.len(),
        output_dim >= 2 ==> 2 * hw <= logits.len(),
        output_dim < 2 ==> (sky_logits matches Some(s) ==> hw <= s.len()),
    ensures
        m@ == maps_of(
            logits@,
            crate::fast_conv::contents(sky_logits),
            hw as int,
            output_dim as int,
            max_depth,
        ),
{
    let u: T = T::ratio(1, 1);
    let nil: T = T::ratio(0, 1);
    let a: Activation = if output_dim >= 2 {
        Activation::Confident
    } else if sky_logits.is_some() {
        Activation::Metric
    } else if nil.less(max_depth) {
        Activation::Bounded
    } else {
        Activation::Relative
    };
    let mut depth: Vec<T> = Vec::new();
    let mut conf: Vec<T> = Vec::new();
    let mut sky: Vec<T> = Vec::new();
    let mut i: usize = 0;
    while i < hw
        invariant
            i <= hw,
            hw <= logits.len(),
            a == Activation::Confident ==> 2 * hw <= logits.len(),
            a == Activation::Metric ==> (sky_logits matches Some(s) && hw <= s.len()),
            u == one::<T>(),
            nil == zero::<T>(),
            depth.len() == i,
            forall|j: int|
                0 <= j < i ==> #[trigger] depth[j] == depth_value(a, logits[j], max_depth),
            a == Activation::Confident ==> conf.len() == i && forall|j: int|
                0 <= j < i ==> #[trigger] conf[j] == logits[hw + j].exponential_spec().plus_spec(
                    one(),
                ),
            a != Activation::Confident ==> conf.len() == 0,
            a == Activation::Metric ==> sky.len() == i && forall|j: int|
                0 <= j < i ==> #[trigger] sky[j] == relu(sky_logits->0[j]),
            a != Activation::Metric ==> sky.len() == 0,
        decreases hw - i,
    {
        let x: T = logits[i];
        let d: T = match a {
            Activation::Confident | Activation::Metric => x.exponential(),
            Activation::Bounded => sigmoid(x).times(max_depth),
            Activation::Relative => x.larger(nil),
        };
        depth.push(d);
        if matches!(a, Activation::Confident) {
            conf.push(logits[hw + i].exponential().plus(u));
        }
        if matches!(a, Activation::Metric) {
            if let Some(s) = sky_logits {
                sky.push(s[i].larger(nil));
            }
        }
        i = i + 1;
    }
    let m: DepthMaps<T> = DepthMaps { depth, conf, sky };
    proof {
        let want = activation_of(output_dim as int, sky_logits is Some, max_depth);
        assert(a == want);
        assert(m.depth@ =~= Seq::new(
            hw as nat,
            |i: int| depth_value(want, logits@[i], max_depth),
        ));
        if a == Activation::Confident {
            assert(m.conf@ =~= Seq::new(
                hw as nat,
                |i: int| logits@[hw + i].exponential_spec().plus_spec(one()),
            ));
        } else {
            assert(m.conf@ =~= Seq::empty());
        }
        if a == Activation::Metric {
            assert(m.sky@ =~= Seq::new(hw as nat, |i: int| relu(sky_logits->0@[i])));
        } else {
            assert(m.sky@ =~= Seq::empty());
        }
    }
    m
}

// ---- float maps -------------------------------------------------------------

/// The header of a map of `w` by `h` numbers, least significant byte first.
pub open spec fn pfm_header(w: nat, h: nat) -> Seq<char> {
    "Pf\n"@ + digits(w) + " "@ + digits(h) + "\n-1.0\n"@
}

/// The last `k` of `h` rows, the last one first.
pub open spec fn rows_upwards<T: Stored>(depth: Seq<T>, w: int, h: int, k: nat) -> Seq<u8>
    decreases k,
{
    if k == 0 {
        Seq::empty()
    } else {
        rows_upwards(depth, w, h, (k - 1) as nat) + number_bytes(
            depth.subrange((h - k) * w, (h - k) * w + w),
        )
    }
}

/// The file of a map: rows from the bottom up.
pub open spec fn pfm_file<T: Stored>(depth: Seq<T>, w: nat, h: nat) -> Seq<u8> {
    vstd::utf8::encode_utf8(pfm_header(w, h)) + rows_upwards(depth, w as int, h as int, h)
}

/// A map of `w` by `h` numbers as the bytes of a file.
pub fn write_pfm<T: Stored>(depth: &[T], w: usize, h: usize) -> (out: Vec<u8>)
    requires
        h * w <= depth.len(),
    ensures
        out@ == pfm_file(depth@, w as nat, h as nat),
{
    let mut head: String = "Pf\n".to_owned();
    head.append(decimal(w as u64).as_str());
    head.append(" ");
    head.append(decimal(h as u64).as_str());
    head.append("\n-1.0\n");
    let mut out: Vec<u8> = Vec::new();
    put_text(&mut out, head.as_str());
    let ghost front = vstd::utf8::encode_utf8(pfm_header(w as nat, h as nat));
    assert(out@ =~= front);
    let mut k: usize = 0;
    assert(out@ =~= front + rows_upwards(depth@, w as int, h as int, 0));
    while k < h
        invariant
            k <= h,
            h * w <= depth.len(),
            out@ == front + rows_upwards(depth@, w as int, h as int, k as nat),
        decreases h - k,
    {
        let y: usize = h - 1 - k;
        proof {
            assert(y * w + w <= h * w && 0 <= y * w) by (nonlinear_arith)
                requires
                    y + 1 <= h,
                    0 <= w,
                    0 <= y,
            ;
        }
        let row: &[T] = &depth[y * w..y * w + w];
        put_numbers(&mut out, row);
        assert(out@ =~= front + rows_upwards(depth@, w as int, h as int, (k + 1) as nat));
        k = k + 1;
    }
    out
}

proof fn lemma_rows_len<T: Stored>(depth: Seq<T>, w: int, h: int, k: nat)
    requires
        0 <= w,
        k <= h,
        h * w <= depth.len(),
    ensures
        rows_upwards(depth, w, h, k).len() == 4 * (k * w),
    decreases k,
{
    if k > 0 {
        lemma_rows_len(depth, w, h, (k - 1) as nat);
        assert((h - k) * w + w <= h * w && 0 <= (h - k) * w && k * w == (k - 1) * w + w)
            by (nonlinear_arith)
            requires
                1 <= k <= h,
                0 <= w,
        ;
        lemma_bytes_len(depth.subrange((h - k) * w, (h - k) * w + w));
    } else {
        assert(k * w == 0) by (nonlinear_arith)
            requires
                k == 0,
        ;
    }
}

proof fn lemma_bytes_len<T: Stored>(v: Seq<T>)
    ensures
        number_bytes(v).len() == 4 * v.len(),
    decreases v.len(),
{
    if v.len() > 0 {
        lemma_bytes_len(v.drop_last());
        crate::text::lemma_le_bytes_len(v.last().bits_spec() as nat, 4);
    }
}

proof fn lemma_bytes_at<T: Stored>(v: Seq<T>, i: int)
    requires
        0 <= i < v.len(),
    ensures
        number_bytes(v).len() == 4 * v.len(),
        number_bytes(v).subrange(4 * i, 4 * i + 4) == crate::text::le_bytes(
            v[i].bits_spec() as nat,
            4,
        ),
    decreases v.len(),
{
    lemma_bytes_len(v);
    lemma_bytes_len(v.drop_last());
    crate::text::lemma_le_bytes_len(v.last().bits_spec() as nat, 4);
    let b = number_bytes(v);
    let front = number_bytes(v.drop_last());
    if i < v.len() - 1 {
        lemma_bytes_at(v.drop_last(), i);
        assert(b.subrange(4 * i, 4 * i + 4) =~= front.subrange(4 * i, 4 * i + 4));
    } else {
        assert(b.subrange(4 * i, 4 * i + 4) =~= crate::text::le_bytes(
            v[i].bits_spec() as nat,
            4,
        ));
    }
}

proof fn lemma_rows_at<T: Stored>(depth: Seq<T>, w: int, h: int, k: nat, y: int, x: int)
    requires
        0 <= x < w,
        h - k <= y < h,
        k <= h,
        h * w <= depth.len(),
    ensures
        ({
            let at = 4 * ((h - 1 - y) * w + x);
            &&& 0 <= at
            &&& at + 4 <= rows_upwards(depth, w, h, k).len()
            &&& rows_upwards(depth, w, h, k).subrange(at, at + 4) == crate::text::le_bytes(
                depth[y * w + x].bits_spec() as nat,
                4,
            )
        }),
    decreases k,
{
    let at = 4 * ((h - 1 - y) * w + x);
    let all = rows_upwards(depth, w, h, k);
    let before = rows_upwards(depth, w, h, (k - 1) as nat);
    lemma_rows_len(depth, w, h, k);
    lemma_rows_len(depth, w, h, (k - 1) as nat);
    assert((h - k) * w + w <= h * w && 0 <= (h - k) * w && k * w == (k - 1) * w + w && 0 <= (h - 1
        - y) * w && (h - 1 - y) * w + w <= k * w) by (nonlinear_arith)
        requires
            1 <= k <= h,
            0 <= w,
            0 <= h - 1 - y,
            h - y <= k,
    ;
    if y > h - k {
        lemma_rows_at(depth, w, h, (k - 1) as nat, y, x);
        assert(all.subrange(at, at + 4) =~= before.subrange(at, at + 4));
    } else {
        let row = depth.subrange((h - k) * w, (h - k) * w + w);
        assert(y == h - k);
        assert(h - 1 - y == k - 1);
        lemma_bytes_at(row, x);
        assert(all =~= before + number_bytes(row));
        assert(all.subrange(at, at + 4) =~= number_bytes(row).subrange(4 * x, 4 * x + 4));
        assert(row[x] == depth[y * w + x]);
    }
}

/// Where a map's file holds pixel `(x, y)`: the rows stand from the bottom up,
/// four bytes a pixel, behind the header.
pub proof fn law_pfm_pixel<T: Stored>(depth: Seq<T>, w: nat, h: nat, y: int, x: int)
    requires
        0 <= x < w,
        0 <= y < h,
        h * w <= depth.len(),
    ensures
        ({
            let front = vstd::utf8::encode_utf8(pfm_header(w, h)).len();
            let at = front + 4 * ((h - 1 - y) * w + x);
            pfm_file(depth, w, h).subrange(at, at + 4) == crate::text::le_bytes(
                depth[y * w + x].bits_spec() as nat,
                4,
            )
        }),
{
    lemma_rows_at(depth, w as int, h as int, h, y, x);
    let front = vstd::utf8::encode_utf8(pfm_header(w, h));
    let rows = rows_upwards(depth, w as int, h as int, h);
    let at = 4 * ((h - 1 - y) * w + x);
    assert((front + rows).subrange(front.len() + at, front.len() + at + 4) =~= rows.subrange(
        at,
        at + 4,
    ));
}

// ---- grey levels ------------------------------------------------------------

/// The smallest of some numbers; the largest number there is without any.
pub open spec fn least<T: Analytic>(v: Seq<T>) -> T
    decreases v.len(),
{
    if v.len() == 0 {
        T::greatest_spec()
    } else {
        least(v.drop_last()).smaller_spec(v.last())
    }
}

/// The largest of some numbers; the smallest number there is without any.
pub open spec fn greatest<T: Analytic>(v: Seq<T>) -> T
    decreases v.len(),
{
    if v.len() == 0 {
        T::lowest_spec()
    } else {
        greatest(v.drop_last()).larger_spec(v.last())
    }
}

/// The grey level of a depth: from the nearest to the farthest, from black to
/// white or the other way round.
pub open spec fn grey_level<T: Analytic>(v: T, low: T, high: T, invert: bool) -> u8 {
    let range = high.minus_spec(low);
    let t = if zero::<T>().less_spec(range) {
        v.minus_spec(low).over_spec(range)
    } else {
        zero::<T>()
    };
    let s = if invert {
        one::<T>().minus_spec(t)
    } else {
        t
    };
    byte_of(s.times_spec(T::ratio_spec(255, 1)).rounded_spec())
}

/// The grey levels of a map of `w` by `h` depths.
pub fn grey_levels<T: Analytic>(depth: &[T], w: usize, h: usize, invert: bool) -> (out: Vec<u8>)
    requires
        h * w <= depth.len(),
    ensures
        out@ == Seq::new(
            (h * w) as nat,
            |i: int| grey_level(depth@[i], least(depth@), greatest(depth@), invert),
        ),
{
    let mut low: T = T::greatest();
    let mut high: T = T::lowest();
    let mut i: usize = 0;
    assert(depth@.take(0) =~= Seq::empty());
    while i < depth.len()
        invariant
            i <= depth.len(),
            low == least(depth@.take(i as int)),
            high == greatest(depth@.take(i as int)),
        decreases depth.len() - i,
    {
        assert(depth@.take(i + 1).drop_last() =~= depth@.take(i as int));
        low = low.smaller(depth[i]);
        high = high.larger(depth[i]);
        i = i + 1;
    }
    assert(depth@.take(i as int) =~= depth@);
    let nil: T = T::ratio(0, 1);
    let u: T = T::ratio(1, 1);
    let full: T = T::ratio(255, 1);
    let range: T = high.minus(low);
    let total: usize = h * w;
    let mut out: Vec<u8> = Vec::new();
    let mut p: usize = 0;
    while p < total
        invariant
            p <= total,
            total <= depth.len(),
            nil == zero::<T>(),
            u == one::<T>(),
            full == T::ratio_spec(255, 1),
            range == high.minus_spec(low),
            out.len() == p,
            forall|j: int|
                0 <= j < p ==> #[trigger] out[j] == grey_level(depth@[j], low, high, invert),
        decreases total - p,
    {
        let t: T = if nil.less(range) {
            depth[p].minus(low).over(range)
        } else {
            nil
        };
        let s: T = if invert {
            u.minus(t)
        } else {
            t
        };
        out.push(to_byte(s.times(full).rounded()));
        p = p + 1;
    }
    assert(out@ =~= Seq::new(
        (h * w) as nat,
        |i: int| grey_level(depth@[i], least(depth@), greatest(depth@), invert),
    ));
    out
}

// ---- cameras ----------------------------------------------------------------

/// The numbers from `at` on, `n` of them, with a comma between.
pub open spec fn listed<T: Stored>(v: Seq<T>, at: int, n: nat) -> Seq<char>
    decreases n,
{
    if n == 0 {
        Seq::empty()
    } else if n == 1 {
        v[at].shown_spec(Style::EightPlaces)
    } else {
        listed(v, at, (n - 1) as nat) + ", "@ + v[at + n - 1].shown_spec(Style::EightPlaces)
    }
}

fn list<T: Stored>(v: &[T], at: usize, n: usize) -> (s: String)
    requires
        at + n <= v.len(),
    ensures
        s@ == listed(v@, at as int, n as nat),
{
    let mut s: String = String::new();
    let mut i: usize = 0;
    while i < n
        invariant
            i <= n,
            at + n <= v.len(),
            s@ == listed(v@, at as int, i as nat),
        decreases n - i,
    {
        if i > 0 {
            s.append(", ");
        }
        s.append(v[at + i].shown(Style::EightPlaces).as_str());
        assert(s@ =~= listed(v@, at as int, (i + 1) as nat));
        i = i + 1;
    }
    s
}

/// A camera as JSON: three rows of four and three rows of three numbers.
pub open spec fn pose_json<T: Stored>(ext: Seq<T>, intr: Seq<T>) -> Seq<char> {
    "{\n  \"extrinsics\": [\n    ["@ + listed(ext, 0, 4) + "],\n    ["@ + listed(ext, 4, 4)
        + "],\n    ["@ + listed(ext, 8, 4) + "]\n  ],\n  \"intrinsics\": [\n    ["@ + listed(
        intr,
        0,
        3,
    ) + "],\n    ["@ + listed(intr, 3, 3) + "],\n    ["@ + listed(intr, 6, 3) + "]\n  ]\n}\n"@
}

/// A camera as JSON.
pub fn write_pose_json<T: Stored>(ext: &[T; 12], intr: &[T; 9]) -> (s: String)
    ensures
        s@ == pose_json(ext@, intr@),
{
    let e: &[T] = ext.as_slice();
    let k: &[T] = intr.as_slice();
    let mut s: String = "{\n  \"extrinsics\": [\n    [".to_owned();
    s.append(list(e, 0, 4).as_str());
    s.append("],\n    [");
    s.append(list(e, 4, 4).as_str());
    s.append("],\n    [");
    s.append(list(e, 8, 4).as_str());
    s.append("]\n  ],\n  \"intrinsics\": [\n    [");
    s.append(list(k, 0, 3).as_str());
    s.append("],\n    [");
    s.append(list(k, 3, 3).as_str());
    s.append("],\n    [");
    s.append(list(k, 6, 3).as_str());
    s.append("]\n  ]\n}\n");
    s
}

/// There is a depth for each pixel; confidences come with a second channel, and
/// the sky with a sky map where there is no second channel, never both.
pub proof fn law_map_sizes<T: Analytic>(
    logits: Seq<T>,
    sky: Option<Seq<T>>,
    hw: nat,
    output_dim: int,
    max_depth: T,
)
    ensures
        ({
            let m = maps_of(logits, sky, hw as int, output_dim, max_depth);
            &&& m.depth.len() == hw
            &&& m.conf.len() == (if output_dim >= 2 {
                hw
            } else {
                0
            })
            &&& m.sky.len() == (if output_dim < 2 && sky is Some {
                hw
            } else {
                0
            })
        }),
{
}

} // verus!
