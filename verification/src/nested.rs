//! Bringing a relative depth map to metric scale with a metric one, and filling
//! the sky.

use crate::depth_export::{pfm_file, write_pfm};
use crate::scalar::{zero, Analytic, Scalar, Stored, Widens};
use crate::sort::{quantile_at, quantile_of};
use vstd::prelude::*;

verus! {

/// What the branch with relative scale gives: maps in row-major order, a 3x4
/// and a 3x3 matrix.
pub struct AnyviewOut<S> {
    pub depth: Vec<S>,
    pub depth_conf: Vec<S>,
    pub extrinsics: [S; 12],
    pub intrinsics: [S; 9],
}

/// What the metric branch gives: depth before scaling by the focal length, and
/// the sky map.
pub struct MetricOut<S> {
    pub depth: Vec<S>,
    pub sky: Vec<S>,
}

/// Depth in metric scale with its camera.
pub struct NestedOut<S> {
    pub depth: Vec<S>,
    pub extrinsics: [S; 12],
    pub intrinsics: [S; 9],
    pub scale_factor: S,
    pub h: usize,
    pub w: usize,
}

/// What an [`AnyviewOut`] holds.
pub struct AnyviewData<S> {
    pub depth: Seq<S>,
    pub depth_conf: Seq<S>,
    pub extrinsics: Seq<S>,
    pub intrinsics: Seq<S>,
}

impl<S> View for AnyviewOut<S> {
    type V = AnyviewData<S>;

    open spec fn view(&self) -> AnyviewData<S> {
        AnyviewData {
            depth: self.depth@,
            depth_conf: self.depth_conf@,
            extrinsics: self.extrinsics@,
            intrinsics: self.intrinsics@,
        }
    }
}

/// What a [`MetricOut`] holds.
pub struct MetricData<S> {
    pub depth: Seq<S>,
    pub sky: Seq<S>,
}

impl<S> View for MetricOut<S> {
    type V = MetricData<S>;

    open spec fn view(&self) -> MetricData<S> {
        MetricData { depth: self.depth@, sky: self.sky@ }
    }
}

/// What a [`NestedOut`] holds.
pub struct NestedData<S> {
    pub depth: Seq<S>,
    pub extrinsics: Seq<S>,
    pub intrinsics: Seq<S>,
    pub scale_factor: S,
    pub h: int,
    pub w: int,
}

impl<S> View for NestedOut<S> {
    type V = NestedData<S>;

    open spec fn view(&self) -> NestedData<S> {
        NestedData {
            depth: self.depth@,
            extrinsics: self.extrinsics@,
            intrinsics: self.intrinsics@,
            scale_factor: self.scale_factor,
            h: self.h as int,
            w: self.w as int,
        }
    }
}

impl<S: Stored> NestedOut<S> {
    /// The depth map as a file of `w` by `h` numbers.
    pub fn write_pfm(&self, w: usize, h: usize) -> (out: Vec<u8>)
        requires
            h * w <= self.depth.len(),
        ensures
            out@ == pfm_file(self.depth@, w as nat, h as nat),
    {
        write_pfm(self.depth.as_slice(), w, h)
    }
}

/// Fits the relative branch to the metric one.
pub struct NestedAligner;

/// A sky value below 0.3 is no sky.
pub open spec fn clear<S: Scalar>(sky: S) -> bool {
    sky.less_spec(S::ratio_spec(3, 10))
}

fn is_clear<S: Scalar>(sky: S) -> (r: bool)
    ensures
        r == clear(sky),
{
    sky.less(S::ratio(3, 10))
}

/// A sky value of 0.3 or above is sky.
pub open spec fn covered<S: Scalar>(sky: S) -> bool {
    S::ratio_spec(3, 10).less_spec(sky) || S::ratio_spec(3, 10).same_spec(sky)
}

/// There is a number in `v` for every pixel with a clear sky.
pub open spec fn has_clear<S: Scalar>(v: Seq<S>, sky: Seq<S>) -> bool {
    forall|i: int| 0 <= i < sky.len() && clear(#[trigger] sky[i]) ==> i < v.len()
}

/// The numbers of `v` where the sky is clear, in order.
pub open spec fn clear_values<S: Scalar>(v: Seq<S>, sky: Seq<S>) -> Seq<S>
    decreases sky.len(),
{
    if sky.len() == 0 {
        Seq::empty()
    } else {
        let before = clear_values(v, sky.drop_last());
        if clear(sky.last()) {
            before.push(v[sky.len() - 1])
        } else {
            before
        }
    }
}

fn take_clear<S: Scalar>(v: &[S], sky: &[S]) -> (r: Vec<S>)
    requires
        has_clear(v@, sky@),
    ensures
        r@ == clear_values(v@, sky@),
        r.len() <= sky.len(),
{
    let mut r: Vec<S> = Vec::new();
    let mut i: usize = 0;
    assert(sky@.take(0) =~= Seq::empty());
    while i < sky.len()
        invariant
            i <= sky.len(),
            has_clear(v@, sky@),
            r.len() <= i,
            r@ == clear_values(v@, sky@.take(i as int)),
        decreases sky.len() - i,
    {
        assert(sky@.take(i + 1).drop_last() =~= sky@.take(i as int));
        assert(sky@.take(i + 1).last() == sky@[i as int]);
        if is_clear(sky[i]) {
            r.push(v[i]);
        }
        i = i + 1;
    }
    assert(sky@.take(i as int) =~= sky@);
    r
}

/// Whether a pixel is filled: where the sky covers it, or, less strictly, where
/// the sky is not clear. The two differ on undefined values only.
pub open spec fn to_fill<S: Scalar>(sky: S, strict: bool) -> bool {
    if strict {
        covered(sky)
    } else {
        !clear(sky)
    }
}

/// `v` with `fill` in the pixels to fill.
pub open spec fn sky_filled<S: Scalar>(v: Seq<S>, sky: Seq<S>, fill: S, strict: bool) -> Seq<S> {
    Seq::new(
        v.len(),
        |i: int|
            if to_fill(sky[i], strict) {
                fill
            } else {
                v[i]
            },
    )
}

fn fill_sky<S: Scalar>(v: &mut Vec<S>, sky: &[S], fill: S, strict: bool)
    requires
        sky.len() == old(v).len(),
    ensures
        final(v)@ == sky_filled(old(v)@, sky@, fill, strict),
{
    let mut i: usize = 0;
    while i < v.len()
        invariant
            i <= v.len(),
            v.len() == old(v).len(),
            sky.len() == v.len(),
            forall|j: int| 0 <= j < i ==> v[j] == sky_filled(old(v)@, sky@, fill, strict)[j],
            forall|j: int| i <= j < v.len() ==> v[j] == old(v)[j],
        decreases v.len() - i,
    {
        let hit: bool = if strict {
            let limit: S = S::ratio(3, 10);
            limit.less(sky[i]) || limit.same(sky[i])
        } else {
            !is_clear(sky[i])
        };
        if hit {
            v[i] = fill;
        }
        i = i + 1;
    }
    assert(v@ =~= sky_filled(old(v)@, sky@, fill, strict));
}

/// The numbers of `v`, each times `factor`.
pub open spec fn scaled<S: Scalar>(v: Seq<S>, factor: S) -> Seq<S> {
    Seq::new(v.len(), |i: int| v[i].times_spec(factor))
}

fn scale<S: Scalar>(v: &[S], factor: S) -> (r: Vec<S>)
    ensures
        r@ == scaled(v@, factor),
{
    let mut r: Vec<S> = Vec::new();
    let mut i: usize = 0;
    while i < v.len()
        invariant
            i <= v.len(),
            r.len() == i,
            forall|j: int| 0 <= j < i ==> r[j] == v[j].times_spec(factor),
        decreases v.len() - i,
    {
        r.push(v[i].times(factor));
        i = i + 1;
    }
    assert(r@ =~= scaled(v@, factor));
    r
}

/// Whether pixel `i` takes part in the fit: clear sky, at least the median
/// confidence, metric depth above 0.01 and depth above 0.001.
pub open spec fn fits<S: Scalar>(
    depth: Seq<S>,
    conf: Seq<S>,
    metric: Seq<S>,
    sky: Seq<S>,
    median: S,
    i: int,
) -> bool {
    &&& clear(sky[i])
    &&& (median.less_spec(conf[i]) || median.same_spec(conf[i]))
    &&& S::ratio_spec(1, 100).less_spec(metric[i])
    &&& S::ratio_spec(1, 1000).less_spec(depth[i])
}

/// The sums of `metric * depth` and of `depth * depth` over the first `n` pixels
/// that take part in the fit.
pub open spec fn fit_sums<S: Scalar, D: Widens<S>>(
    depth: Seq<S>,
    conf: Seq<S>,
    metric: Seq<S>,
    sky: Seq<S>,
    median: S,
    n: nat,
) -> (D, D)
    decreases n,
{
    if n == 0 {
        (zero(), zero())
    } else {
        let before: (D, D) = fit_sums(depth, conf, metric, sky, median, (n - 1) as nat);
        if fits(depth, conf, metric, sky, median, n - 1) {
            let a = D::widened_spec(metric[n - 1]);
            let b = D::widened_spec(depth[n - 1]);
            (before.0.plus_spec(a.times_spec(b)), before.1.plus_spec(b.times_spec(b)))
        } else {
            before
        }
    }
}

/// The smallest sum of squares that is divided by, 1e-12.
pub open spec fn least_sum<D: Scalar>() -> D {
    D::from_double_bits_spec(0x3d71_9799_812d_ea11)
}

/// The factor that fits depth to metric depth with the least squared error.
pub open spec fn fitted_scale<S: Scalar, D: Widens<S>>(sums: (D, D)) -> S {
    let den = if sums.1.less_spec(least_sum()) {
        least_sum()
    } else {
        sums.1
    };
    sums.0.over_spec(den).narrowed_spec()
}

/// The maps are as large as the image.
pub open spec fn sizes_agree<S>(any: AnyviewData<S>, metric: MetricData<S>, n: int) -> bool {
    &&& n != 0
    &&& any.depth.len() == n
    &&& metric.depth.len() == n
    &&& metric.sky.len() == n
}

/// Metric depth times the mean focal length over 300.
pub open spec fn focal_scaled<S: Scalar>(any: AnyviewData<S>, metric: MetricData<S>) -> Seq<S> {
    let focal = any.intrinsics[0].plus_spec(any.intrinsics[4]).times_spec(S::ratio_spec(1, 2));
    scaled(metric.depth, focal.over_spec(S::ratio_spec(300, 1)))
}

/// The factor between the branches.
pub open spec fn scale_of<S: Scalar, D: Widens<S> + Analytic>(
    any: AnyviewData<S>,
    metric: MetricData<S>,
) -> S {
    let median = quantile_of::<S, D>(
        clear_values(any.depth_conf, metric.sky),
        D::ratio_spec(1, 2),
    ).narrowed_spec();
    fitted_scale::<S, D>(
        fit_sums(
            any.depth,
            any.depth_conf,
            focal_scaled(any, metric),
            metric.sky,
            median,
            any.depth.len(),
        ),
    )
}

/// The single-precision number closest to 0.99.
pub open spec fn ninety_nine<S: Scalar, D: Widens<S>>() -> D {
    D::widened_spec(S::ratio_spec(99, 100))
}

/// What sky pixels are filled with: the 99th percentile of clear depth, at most
/// 200.
pub open spec fn sky_depth<S: Scalar, D: Widens<S> + Analytic>(depth: Seq<S>, sky: Seq<S>) -> S {
    let top = quantile_of::<S, D>(clear_values(depth, sky), ninety_nine::<S, D>()).narrowed_spec();
    if S::ratio_spec(200, 1).less_spec(top) {
        S::ratio_spec(200, 1)
    } else {
        top
    }
}

/// How many of the first `n` pixels have a clear sky.
pub open spec fn clear_count<S: Scalar>(sky: Seq<S>) -> nat
    decreases sky.len(),
{
    if sky.len() == 0 {
        0
    } else {
        clear_count(sky.drop_last()) + (if clear(sky.last()) {
            1nat
        } else {
            0
        })
    }
}

/// What the metric branch's own sky filling makes of a depth map.
pub open spec fn mono_sky<S: Scalar, D: Widens<S> + Analytic>(
    depth: Seq<S>,
    sky: Seq<S>,
) -> Seq<S> {
    let n_clear = clear_count(sky);
    if depth.len() == 0 || sky.len() != depth.len() || n_clear <= 10 || depth.len() - n_clear
        <= 10 {
        depth
    } else {
        sky_filled(
            depth,
            sky,
            quantile_of::<S, D>(
                clear_values(depth, sky),
                ninety_nine::<S, D>(),
            ).narrowed_spec(),
            true,
        )
    }
}

/// A relative depth map in metric scale with its camera: where the maps are as
/// large as the image, depth and translation times the factor between the
/// branches, and the sky filled.
pub open spec fn aligned_of<S: Scalar, D: Widens<S> + Analytic>(
    any: AnyviewData<S>,
    metric: MetricData<S>,
    h: int,
    w: int,
) -> NestedData<S> {
    if !sizes_agree(any, metric, h * w) {
        NestedData {
            depth: any.depth,
            extrinsics: any.extrinsics,
            intrinsics: any.intrinsics,
            scale_factor: zero(),
            h,
            w,
        }
    } else {
        let factor = scale_of::<S, D>(any, metric);
        let depth = scaled(any.depth, factor);
        NestedData {
            depth: sky_filled(depth, metric.sky, sky_depth::<S, D>(depth, metric.sky), false),
            extrinsics: Seq::new(
                12,
                |i: int|
                    if i % 4 == 3 {
                        any.extrinsics[i].times_spec(factor)
                    } else {
                        any.extrinsics[i]
                    },
            ),
            intrinsics: any.intrinsics,
            scale_factor: factor,
            h,
            w,
        }
    }
}

impl NestedAligner {
    /// Brings the relative branch to metric scale.
    ///
    /// Where a map has not `h * w` pixels, or there are none, depth and camera
    /// stay as they are and the factor is zero.
    pub fn align<S: Scalar, D: Widens<S> + Analytic>(
        any: &AnyviewOut<S>,
        metric: &MetricOut<S>,
        h: usize,
        w: usize,
    ) -> (out: NestedOut<S>)
        requires
            h * w <= usize::MAX,
            sizes_agree(any@, metric@, h * w) ==> has_clear(any.depth_conf@, metric.sky@),
        ensures
            out@ == aligned_of::<S, D>(any@, metric@, h as int, w as int),
    {
        let n: usize = h * w;
        if n == 0 || any.depth.len() != n || metric.depth.len() != n || metric.sky.len() != n {
            return NestedOut {
                depth: copied(any.depth.as_slice()),
                extrinsics: any.extrinsics,
                intrinsics: any.intrinsics,
                scale_factor: S::ratio(0, 1),
                h,
                w,
            };
        }
        let focal: S = any.intrinsics[0].plus(any.intrinsics[4]).times(S::ratio(1, 2));
        let metric_depth: Vec<S> = scale(
            metric.depth.as_slice(),
            focal.over(S::ratio(300, 1)),
        );
        let sky: &[S] = metric.sky.as_slice();
        let clear_conf: Vec<S> = take_clear(any.depth_conf.as_slice(), sky);
        let median: S = quantile_at::<S, D>(clear_conf.as_slice(), D::ratio(1, 2)).narrowed();
        let sums: (D, D) = sum_fit(
            any.depth.as_slice(),
            any.depth_conf.as_slice(),
            metric_depth.as_slice(),
            sky,
            median,
        );
        let least: D = D::from_double_bits(0x3d71_9799_812d_ea11);
        let den: D = if sums.1.less(least) {
            least
        } else {
            sums.1
        };
        let factor: S = sums.0.over(den).narrowed();
        let mut depth: Vec<S> = scale(any.depth.as_slice(), factor);
        let mut ext: [S; 12] = any.extrinsics;
        ext[3] = ext[3].times(factor);
        ext[7] = ext[7].times(factor);
        ext[11] = ext[11].times(factor);
        let clear_depth: Vec<S> = take_clear(depth.as_slice(), sky);
        let top: S = quantile_at::<S, D>(
            clear_depth.as_slice(),
            D::widened(S::ratio(99, 100)),
        ).narrowed();
        let cap: S = S::ratio(200, 1);
        let fill: S = if cap.less(top) {
            cap
        } else {
            top
        };
        fill_sky(&mut depth, sky, fill, false);
        assert(ext@ =~= aligned_of::<S, D>(any@, metric@, h as int, w as int).extrinsics);
        NestedOut {
            depth,
            extrinsics: ext,
            intrinsics: any.intrinsics,
            scale_factor: factor,
            h,
            w,
        }
    }

    /// Fills the sky of the metric branch with the 99th percentile of its clear
    /// depth, where there are more than ten pixels of either kind.
    pub fn process_mono_sky<S: Scalar, D: Widens<S> + Analytic>(depth: &mut Vec<S>, sky: &[S])
        ensures
            final(depth)@ == mono_sky::<S, D>(old(depth)@, sky@),
    {
        let n: usize = depth.len();
        if n == 0 || sky.len() != n {
            return;
        }
        let mut n_clear: usize = 0;
        let mut i: usize = 0;
        assert(sky@.take(0) =~= Seq::empty());
        while i < n
            invariant
                i <= n,
                n == sky.len(),
                n_clear <= i,
                n_clear == clear_count(sky@.take(i as int)),
            decreases n - i,
        {
            assert(sky@.take(i + 1).drop_last() =~= sky@.take(i as int));
            assert(sky@.take(i + 1).last() == sky@[i as int]);
            if is_clear(sky[i]) {
                n_clear = n_clear + 1;
            }
            i = i + 1;
        }
        assert(sky@.take(i as int) =~= sky@);
        if n_clear <= 10 || n - n_clear <= 10 {
            return;
        }
        let clear_depth: Vec<S> = take_clear(depth.as_slice(), sky);
        let top: S = quantile_at::<S, D>(
            clear_depth.as_slice(),
            D::widened(S::ratio(99, 100)),
        ).narrowed();
        fill_sky(depth, sky, top, true);
    }
}

fn copied<S: Scalar>(v: &[S]) -> (r: Vec<S>)
    ensures
        r@ == v@,
{
    let mut r: Vec<S> = Vec::new();
    let mut i: usize = 0;
    while i < v.len()
        invariant
            i <= v.len(),
            r@ == v@.take(i as int),
        decreases v.len() - i,
    {
        r.push(v[i]);
        assert(r@ =~= v@.take(i + 1));
        i = i + 1;
    }
    assert(v@.take(i as int) =~= v@);
    r
}

fn sum_fit<S: Scalar, D: Widens<S>>(
    depth: &[S],
    conf: &[S],
    metric: &[S],
    sky: &[S],
    median: S,
) -> (r: (D, D))
    requires
        has_clear(conf@, sky@),
        metric.len() == depth.len(),
        sky.len() == depth.len(),
    ensures
        r == fit_sums::<S, D>(depth@, conf@, metric@, sky@, median, depth@.len()),
{
    let mut num: D = D::ratio(0, 1);
    let mut den: D = D::ratio(0, 1);
    let mut i: usize = 0;
    while i < depth.len()
        invariant
            i <= depth.len(),
            has_clear(conf@, sky@),
            metric.len() == depth.len(),
            sky.len() == depth.len(),
            (num, den) == fit_sums::<S, D>(depth@, conf@, metric@, sky@, median, i as nat),
        decreases depth.len() - i,
    {
        if is_clear(sky[i]) && (median.less(conf[i]) || median.same(conf[i])) && S::ratio(
            1,
            100,
        ).less(metric[i]) && S::ratio(1, 1000).less(depth[i]) {
            let a: D = D::widened(metric[i]);
            let b: D = D::widened(depth[i]);
            num = num.plus(a.times(b));
            den = den.plus(b.times(b));
        }
        i = i + 1;
    }
    (num, den)
}

/// The quantile `q` of some numbers, between neighbours by linear interpolation;
/// zero where there are none.
pub fn quantile<S: Scalar, D: Widens<S> + Analytic>(v: &[S], q: S) -> (r: D)
    ensures
        r == quantile_of::<S, D>(v@, D::widened_spec(q)),
{
    quantile_at(v, D::widened(q))
}

/// Filling the sky leaves every pixel that the sky does not cover as it was, and
/// gives all others one depth.
pub proof fn law_sky_fill<S: Scalar, D: Widens<S> + Analytic>(
    depth: Seq<S>,
    sky: Seq<S>,
    i: int,
    j: int,
)
    requires
        sky.len() == depth.len(),
        0 <= i < depth.len(),
        0 <= j < depth.len(),
    ensures
        mono_sky::<S, D>(depth, sky).len() == depth.len(),
        !covered(sky[i]) ==> mono_sky::<S, D>(depth, sky)[i] == depth[i],
        mono_sky::<S, D>(depth, sky) != depth && covered(sky[i]) && covered(sky[j]) ==> mono_sky::<
            S,
            D,
        >(depth, sky)[i] == mono_sky::<S, D>(depth, sky)[j],
{
}

/// Bringing a map to metric scale keeps its size, the intrinsics and the
/// camera's rotation; the translation grows with the depth. Maps that do not fit
/// each other stay as they are.
pub proof fn law_alignment<S: Scalar, D: Widens<S> + Analytic>(
    any: AnyviewData<S>,
    metric: MetricData<S>,
    h: int,
    w: int,
    i: int,
)
    requires
        any.extrinsics.len() == 12,
        0 <= i < 12,
    ensures
        ({
            let out = aligned_of::<S, D>(any, metric, h, w);
            &&& out.depth.len() == any.depth.len()
            &&& out.intrinsics == any.intrinsics
            &&& (out.h, out.w) == (h, w)
            &&& i % 4 != 3 ==> out.extrinsics[i] == any.extrinsics[i]
            &&& sizes_agree(any, metric, h * w) && i % 4 == 3 ==> out.extrinsics[i]
                == any.extrinsics[i].times_spec(out.scale_factor)
            &&& !sizes_agree(any, metric, h * w) ==> out.depth == any.depth && out.extrinsics
                == any.extrinsics && out.scale_factor == zero::<S>()
        }),
{
}

/// The sky is left as it is where the two maps differ in size, or where at most
/// ten pixels are clear of it or covered by it.
pub proof fn law_small_skies_stay<S: Scalar, D: Widens<S> + Analytic>(depth: Seq<S>, sky: Seq<S>)
    requires
        sky.len() != depth.len() || clear_count(sky) <= 10 || depth.len() - clear_count(sky) <= 10,
    ensures
        mono_sky::<S, D>(depth, sky) == depth,
{
}

} // verus!
