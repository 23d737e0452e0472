//! What the factor between the branches and the filled sky are, where arithmetic is
//! exact.

use crate::linalg_laws::lemma_four_factors;
use crate::nested::{
    aligned_of, clear, clear_count, clear_values, fit_sums, fits, focal_scaled, mono_sky, scale_of,
    scaled, AnyviewData, MetricData,
};
use crate::rank_laws::{
    law_quantile_is_percentile, lemma_many_agree, lemma_percentile_agree,
    lemma_percentile_unique, lists, many, percentile, tally,
};
use crate::reals::{
    faithful, faithful_widening, lemma_prod, lemma_prod_cancel, lemma_prod_plus,
    lemma_prod_regroup, lemma_prod_sign, lemma_prod_square, lemma_prod_two, lemma_sum_zero,
    lemma_whole, prod, sum,
};
use crate::scalar::{Analytic, Scalar, Widens};
use crate::sort::{faithful_floors, quantile_of};
use vstd::prelude::*;

verus! {

/// The pixels whose sky value is below 0.3.
pub open spec fn open_sky<S>(v: spec_fn(S) -> real, sky: Seq<S>) -> spec_fn(int) -> bool {
    |i: int| (10 as real) * v(sky[i]) < 3 as real
}

/// The numbers of a map, pixel by pixel.
pub open spec fn values<S>(v: spec_fn(S) -> real, map: Seq<S>) -> spec_fn(int) -> real {
    |i: int| v(map[i])
}

/// Numbers are exact, and so is every number they are computed in. The bits of the
/// double 1e-12 stand for a number above zero and not above one millionth.
pub open spec fn exact_pair<S: Scalar, D: Widens<S> + Analytic>(
    v: spec_fn(S) -> real,
    u: spec_fn(D) -> real,
) -> bool {
    &&& faithful(v)
    &&& faithful_floors(u)
    &&& faithful_widening::<S, D>(v, u)
    &&& (0 as real) < u(D::from_double_bits_spec(0x3d71_9799_812d_ea11))
    &&& (1_000_000 as real) * u(D::from_double_bits_spec(0x3d71_9799_812d_ea11)) <= 1 as real
}

/// Products with some whole numbers.
proof fn lemma_multiples(a: real, b: real)
    ensures
        prod(a, 10 as real) == (10 as real) * a,
        prod(a, 100 as real) == (100 as real) * a,
        prod(a, 300 as real) == (300 as real) * a,
        prod(a, 1000 as real) == (1000 as real) * a,
        prod(a, (600 as real) * b) == (600 as real) * prod(a, b),
        prod((600 as real) * b, a) == (600 as real) * prod(b, a),
        prod((600 as real) * b, (600 as real) * b) == (360_000 as real) * prod(b, b),
{
    reveal(prod);
    assert(a * ((600 as real) * b) == (600 as real) * (a * b)) by (nonlinear_arith);
    assert(((600 as real) * b) * a == (600 as real) * (b * a)) by (nonlinear_arith);
    assert(((600 as real) * b) * ((600 as real) * b) == (360_000 as real) * (b * b))
        by (nonlinear_arith);
}

/// A small fraction, read as a real.
proof fn lemma_fraction<S: Scalar>(v: spec_fn(S) -> real, num: i32, den: u32)
    requires
        faithful(v),
        den == 2 || den == 10 || den == 100 || den == 1000,
    ensures
        den == 2 ==> v(S::ratio_spec(num, 2)) + v(S::ratio_spec(num, 2)) == num as int as real,
        den == 10 ==> (10 as real) * v(S::ratio_spec(num, 10)) == num as int as real,
        den == 100 ==> (100 as real) * v(S::ratio_spec(num, 100)) == num as int as real,
        den == 1000 ==> (1000 as real) * v(S::ratio_spec(num, 1000)) == num as int as real,
{
    let x = v(S::ratio_spec(num, den));
    assert(prod(x, den as int as real) == num as int as real);
    lemma_multiples(x, x);
    lemma_prod(x, 2 as real);
    lemma_prod_two(x);
}

/// A pixel is clear where its sky value is below 0.3.
proof fn lemma_open<S: Scalar>(v: spec_fn(S) -> real, sky: Seq<S>, i: int)
    requires
        faithful(v),
    ensures
        clear(sky[i]) == open_sky(v, sky)(i),
{
    lemma_fraction(v, 3, 10);
}

/// The clear values list the pixels with an open sky.
proof fn lemma_clear_lists<S: Scalar>(
    v: spec_fn(S) -> real,
    map: Seq<S>,
    sky: Seq<S>,
    p: spec_fn(S) -> bool,
)
    requires
        faithful(v),
    ensures
        tally(clear_values(map, sky), p) == many(
            |i: int| open_sky(v, sky)(i) && p(map[i]),
            sky.len(),
        ),
        clear_values(map, sky).len() == many(open_sky(v, sky), sky.len()),
        clear_values(map, sky).len() == clear_count(sky),
        clear_values(map, sky).len() <= sky.len(),
    decreases sky.len(),
{
    if sky.len() > 0 {
        let n = sky.len();
        let before = sky.drop_last();
        lemma_clear_lists(v, map, before, p);
        lemma_open(v, sky, n - 1);
        let g = |i: int| open_sky(v, sky)(i) && p(map[i]);
        let h = |i: int| open_sky(v, before)(i) && p(map[i]);
        assert forall|i: int| 0 <= i < n - 1 implies #[trigger] h(i) == g(i) by {
            assert(before[i] == sky[i]);
        }
        lemma_many_agree(h, g, (n - 1) as nat);
        assert forall|i: int| 0 <= i < n - 1 implies #[trigger] open_sky(v, before)(i) == open_sky(
            v,
            sky,
        )(i) by {
            assert(before[i] == sky[i]);
        }
        lemma_many_agree(open_sky(v, before), open_sky(v, sky), (n - 1) as nat);
        let c = clear_values(map, sky);
        if clear(sky.last()) {
            assert(c.drop_last() =~= clear_values(map, before));
            assert(c.last() == map[n - 1]);
        }
    }
}

/// A quantile over clear pixels is a percentile over pixels with an open sky.
proof fn lemma_clear_percentile<S: Scalar, D: Widens<S> + Analytic>(
    v: spec_fn(S) -> real,
    u: spec_fn(D) -> real,
    map: Seq<S>,
    sky: Seq<S>,
    q: D,
)
    requires
        exact_pair::<S, D>(v, u),
        sky.len() <= usize::MAX,
        many(open_sky(v, sky), sky.len()) > 0,
        0 as real <= u(q) <= 1 as real,
    ensures
        percentile(
            values(v, map),
            open_sky(v, sky),
            sky.len(),
            u(q),
            u(quantile_of::<S, D>(clear_values(map, sky), q)),
        ),
{
    let a = clear_values(map, sky);
    let el = |i: int| map[i];
    let member = open_sky(v, sky);
    assert forall|p: spec_fn(S) -> bool|
        #![trigger tally(a, p)]
        tally(a, p) == many(|i: int| member(i) && p(el(i)), sky.len()) by {
        lemma_clear_lists(v, map, sky, p);
        lemma_many_agree(
            |i: int| open_sky(v, sky)(i) && p(map[i]),
            |i: int| member(i) && p(el(i)),
            sky.len(),
        );
    }
    assert(lists(a, el, member, sky.len()));
    lemma_clear_lists(v, map, sky, |e: S| true);
    law_quantile_is_percentile(v, u, a, el, member, sky.len(), q);
    let x = u(quantile_of::<S, D>(a, q));
    lemma_percentile_agree(
        |i: int| v(el(i)),
        member,
        values(v, map),
        member,
        sky.len(),
        u(q),
        x,
    );
}

/// Metric depth as a camera of these focal lengths sees it, times 600: the raw value
/// times the sum of the focal lengths.
pub open spec fn metric_600<S>(
    v: spec_fn(S) -> real,
    any: AnyviewData<S>,
    metric: MetricData<S>,
    i: int,
) -> real {
    prod(v(metric.depth[i]), v(any.intrinsics[0]) + v(any.intrinsics[4]))
}

/// Whether the factor is fitted to pixel `i`: its sky is open, its confidence at
/// least `median`, its metric depth above 0.01 and its depth above 0.001.
pub open spec fn fitted<S>(
    v: spec_fn(S) -> real,
    any: AnyviewData<S>,
    metric: MetricData<S>,
    median: real,
    i: int,
) -> bool {
    &&& open_sky(v, metric.sky)(i)
    &&& v(any.depth_conf[i]) >= median
    &&& metric_600(v, any, metric, i) > 6 as real
    &&& (1000 as real) * v(any.depth[i]) > 1 as real
}

/// How far a factor `s` misses pixel `i`, times 600; zero where nothing is fitted to
/// the pixel.
pub open spec fn miss<S>(
    v: spec_fn(S) -> real,
    any: AnyviewData<S>,
    metric: MetricData<S>,
    median: real,
    s: real,
) -> spec_fn(int) -> real {
    |i: int|
        if fitted(v, any, metric, median, i) {
            metric_600(v, any, metric, i) - (600 as real) * prod(s, v(any.depth[i]))
        } else {
            0 as real
        }
}

/// The squares of some numbers.
pub open spec fn squares(f: spec_fn(int) -> real) -> spec_fn(int) -> real {
    |i: int| prod(f(i), f(i))
}

/// The scaled metric depth is a 600th of the raw value times the focal lengths.
proof fn lemma_metric<S: Scalar>(
    v: spec_fn(S) -> real,
    any: AnyviewData<S>,
    metric: MetricData<S>,
    i: int,
)
    requires
        faithful(v),
        0 <= i < metric.depth.len(),
    ensures
        (600 as real) * v(focal_scaled(any, metric)[i]) == metric_600(v, any, metric, i),
{
    let k = any.intrinsics[0].plus_spec(any.intrinsics[4]);
    let half = S::ratio_spec(1, 2);
    let focal = k.times_spec(half);
    let g = focal.over_spec(S::ratio_spec(300, 1));
    lemma_whole::<S>(v, 300);
    lemma_fraction(v, 1, 2);
    lemma_multiples(v(g), v(g));
    lemma_prod_plus(v(k), v(half), v(half));
    lemma_prod(v(k), 1 as real);
    assert((600 as real) * v(g) == v(k));
    let m = v(metric.depth[i]);
    lemma_multiples(m, v(g));
    assert(focal_scaled(any, metric)[i] == metric.depth[i].times_spec(g));
}

/// The same pixels take part in the fit.
proof fn lemma_fits<S: Scalar>(
    v: spec_fn(S) -> real,
    any: AnyviewData<S>,
    metric: MetricData<S>,
    median: S,
    i: int,
)
    requires
        faithful(v),
        0 <= i < metric.depth.len(),
    ensures
        fits(
            any.depth,
            any.depth_conf,
            focal_scaled(any, metric),
            metric.sky,
            median,
            i,
        ) == fitted(v, any, metric, v(median), i),
{
    lemma_open(v, metric.sky, i);
    lemma_metric(v, any, metric, i);
    lemma_fraction(v, 1, 100);
    lemma_fraction(v, 1, 1000);
}

/// The terms of a sum over the pixels that take part in the fit: the square of the
/// metric depth, its product with the depth, and the square of the depth.
spec fn term<S>(
    v: spec_fn(S) -> real,
    any: AnyviewData<S>,
    metric: MetricData<S>,
    median: real,
    which: int,
) -> spec_fn(int) -> real {
    |i: int|
        if !fitted(v, any, metric, median, i) {
            0 as real
        } else if which == 0 {
            prod(metric_600(v, any, metric, i), metric_600(v, any, metric, i))
        } else if which == 1 {
            prod(metric_600(v, any, metric, i), v(any.depth[i]))
        } else {
            prod(v(any.depth[i]), v(any.depth[i]))
        }
}

proof fn lemma_fit_sums<S: Scalar, D: Widens<S> + Analytic>(
    v: spec_fn(S) -> real,
    u: spec_fn(D) -> real,
    any: AnyviewData<S>,
    metric: MetricData<S>,
    median: S,
    n: nat,
)
    requires
        exact_pair::<S, D>(v, u),
        n <= metric.depth.len(),
    ensures
        ({
            let sums: (D, D) = fit_sums(
                any.depth,
                any.depth_conf,
                focal_scaled(any, metric),
                metric.sky,
                median,
                n,
            );
            &&& (600 as real) * u(sums.0) == sum(term(v, any, metric, v(median), 1), n)
            &&& u(sums.1) == sum(term(v, any, metric, v(median), 2), n)
        }),
    decreases n,
{
    lemma_whole::<D>(u, 0);
    if n > 0 {
        lemma_fit_sums::<S, D>(v, u, any, metric, median, (n - 1) as nat);
        lemma_fits(v, any, metric, median, n - 1);
        lemma_metric(v, any, metric, n - 1);
        lemma_multiples(v(any.depth[n - 1]), v(focal_scaled(any, metric)[n - 1]));
    }
}

/// The sum of the squares that a factor misses by.
proof fn lemma_missed<S: Scalar>(
    v: spec_fn(S) -> real,
    any: AnyviewData<S>,
    metric: MetricData<S>,
    median: real,
    s: real,
    n: nat,
)
    ensures
        sum(squares(miss(v, any, metric, median, s)), n) == sum(
            term(v, any, metric, median, 0),
            n,
        ) - (1200 as real) * prod(s, sum(term(v, any, metric, median, 1), n)) + (360_000 as real)
            * prod(prod(s, s), sum(term(v, any, metric, median, 2), n)),
    decreases n,
{
    let (f, g, h) = (
        term(v, any, metric, median, 0),
        term(v, any, metric, median, 1),
        term(v, any, metric, median, 2),
    );
    if n == 0 {
        lemma_prod(s, 0 as real);
        lemma_prod(prod(s, s), 0 as real);
    } else {
        let m = (n - 1) as nat;
        lemma_missed(v, any, metric, median, s, m);
        lemma_prod_plus(s, sum(g, m), g(n - 1));
        lemma_prod_plus(prod(s, s), sum(h, m), h(n - 1));
        let q = squares(miss(v, any, metric, median, s));
        assert(sum(q, n) == sum(q, m) + q(n - 1));
        if fitted(v, any, metric, median, n - 1) {
            let p = metric_600(v, any, metric, n - 1);
            let d = v(any.depth[n - 1]);
            let x = prod(s, d);
            let y = (600 as real) * x;
            lemma_prod_plus(p - y, p, y);
            lemma_prod_plus(p, p, y);
            lemma_prod_plus(y, p, y);
            lemma_prod(p, y);
            lemma_multiples(p, x);
            lemma_prod_regroup(p, s, d);
            lemma_four_factors(s, d, s, d);
            assert(q(n - 1) == prod(p, p) - (1200 as real) * prod(s, prod(p, d)) + (360_000 as real)
                * prod(prod(s, s), prod(d, d)));
        } else {
            lemma_prod(0 as real, 0 as real);
            lemma_prod(s, 0 as real);
            lemma_prod(prod(s, s), 0 as real);
        }
    }
}

/// The squared depths that take part are nothing, or more than one millionth.
proof fn lemma_depths<S: Scalar>(
    v: spec_fn(S) -> real,
    any: AnyviewData<S>,
    metric: MetricData<S>,
    median: real,
    n: nat,
)
    ensures
        ({
            let g = sum(term(v, any, metric, median, 1), n);
            let h = sum(term(v, any, metric, median, 2), n);
            ||| g == 0 as real && h == 0 as real && forall|i: int|
                0 <= i < n ==> !#[trigger] fitted(v, any, metric, median, i)
            ||| (1_000_000 as real) * h > 1 as real
        }),
    decreases n,
{
    if n > 0 {
        lemma_depths(v, any, metric, median, (n - 1) as nat);
        let d = v(any.depth[n - 1]);
        lemma_prod_square(d);
        if fitted(v, any, metric, median, n - 1) {
            let e = (1000 as real) * d;
            lemma_prod_sign(e - 1 as real, e - 1 as real);
            lemma_prod_plus(e - 1 as real, e, 1 as real);
            lemma_prod_plus(e, e, 1 as real);
            lemma_prod(e, 1 as real);
            lemma_prod(1 as real, e);
            lemma_prod(e - 1 as real, 1 as real);
            assert(prod(e, e) > 1 as real);
            lemma_thousand(d);
        }
    }
}

/// A thousand times a number, squared.
proof fn lemma_thousand(d: real)
    ensures
        prod((1000 as real) * d, (1000 as real) * d) == (1_000_000 as real) * prod(d, d),
{
    reveal(prod);
    assert(((1000 as real) * d) * ((1000 as real) * d) == (1_000_000 as real) * (d * d))
        by (nonlinear_arith);
}

/// The median confidence of the pixels with an open sky, as the fit has it.
proof fn lemma_median<S: Scalar, D: Widens<S> + Analytic>(
    v: spec_fn(S) -> real,
    u: spec_fn(D) -> real,
    any: AnyviewData<S>,
    metric: MetricData<S>,
    half: real,
    median: real,
)
    requires
        exact_pair::<S, D>(v, u),
        metric.sky.len() <= usize::MAX,
        half + half == 1 as real,
        percentile(
            values(v, any.depth_conf),
            open_sky(v, metric.sky),
            metric.sky.len(),
            half,
            median,
        ),
    ensures
        v(
            quantile_of::<S, D>(
                clear_values(any.depth_conf, metric.sky),
                D::ratio_spec(1, 2),
            ).narrowed_spec(),
        ) == median,
{
    lemma_fraction(u, 1, 2);
    lemma_clear_percentile::<S, D>(v, u, any.depth_conf, metric.sky, D::ratio_spec(1, 2));
    let x = quantile_of::<S, D>(
        clear_values(any.depth_conf, metric.sky),
        D::ratio_spec(1, 2),
    );
    lemma_percentile_unique(
        values(v, any.depth_conf),
        open_sky(v, metric.sky),
        metric.sky.len(),
        half,
        u(x),
        median,
    );
    assert(v(x.narrowed_spec()) == u(x));
}

/// The factor between the branches is the best one: over the pixels with an open sky,
/// at least the median confidence of those, metric depth above 0.01 and depth above
/// 0.001, no other factor brings depth closer to metric depth by the sum of squares.
/// Where there is no such pixel, the factor is zero.
pub proof fn law_best_factor<S: Scalar, D: Widens<S> + Analytic>(
    v: spec_fn(S) -> real,
    u: spec_fn(D) -> real,
    any: AnyviewData<S>,
    metric: MetricData<S>,
    h: nat,
    w: nat,
    half: real,
    median: real,
    s: real,
)
    requires
        exact_pair::<S, D>(v, u),
        0 < h * w <= usize::MAX,
        any.depth.len() == h * w,
        metric.depth.len() == h * w,
        metric.sky.len() == h * w,
        half + half == 1 as real,
        percentile(values(v, any.depth_conf), open_sky(v, metric.sky), h * w, half, median),
    ensures
        sum(
            squares(
                miss(
                    v,
                    any,
                    metric,
                    median,
                    v(aligned_of::<S, D>(any, metric, h as int, w as int).scale_factor),
                ),
            ),
            h * w,
        ) <= sum(squares(miss(v, any, metric, median, s)), h * w),
        (forall|i: int| 0 <= i < h * w ==> !#[trigger] fitted(v, any, metric, median, i)) ==> v(
            aligned_of::<S, D>(any, metric, h as int, w as int).scale_factor,
        ) == 0 as real,
{
    let n = h * w;
    let med = quantile_of::<S, D>(
        clear_values(any.depth_conf, metric.sky),
        D::ratio_spec(1, 2),
    ).narrowed_spec();
    lemma_median::<S, D>(v, u, any, metric, half, median);
    let sums: (D, D) = fit_sums(
        any.depth,
        any.depth_conf,
        focal_scaled(any, metric),
        metric.sky,
        med,
        n,
    );
    lemma_fit_sums::<S, D>(v, u, any, metric, med, n);
    lemma_depths(v, any, metric, median, n);
    let g = sum(term(v, any, metric, median, 1), n);
    let b = sum(term(v, any, metric, median, 2), n);
    let least = D::from_double_bits_spec(0x3d71_9799_812d_ea11);
    let t = v(scale_of::<S, D>(any, metric));
    assert(t == v(aligned_of::<S, D>(any, metric, h as int, w as int).scale_factor));
    let den = if sums.1.less_spec(least) {
        least
    } else {
        sums.1
    };
    let q = sums.0.over_spec(den);
    assert(v(q.narrowed_spec()) == u(q));
    assert(t == u(q));
    assert(prod(t, u(den)) == u(sums.0));
    lemma_missed(v, any, metric, median, s, n);
    lemma_missed(v, any, metric, median, t, n);
    if g == 0 as real && b == 0 as real {
        lemma_prod(u(least), 0 as real);
        lemma_prod(t, u(least));
        lemma_prod_cancel(u(least), t, 0 as real);
        lemma_prod(s, 0 as real);
        lemma_prod(t, 0 as real);
        lemma_prod(prod(s, s), 0 as real);
        lemma_prod(prod(t, t), 0 as real);
    } else {
        assert(u(den) == b);
        assert(g == (600 as real) * prod(t, b));
        let d = s - t;
        lemma_prod_square(d);
        lemma_prod_sign(prod(d, d), b);
        lemma_prod_plus(d, s, t);
        lemma_prod_plus(s, s, t);
        lemma_prod_plus(t, s, t);
        lemma_prod(s, t);
        let (ss, st, tt) = (prod(s, s), prod(s, t), prod(t, t));
        assert(prod(d, d) == ss - st - st + tt);
        lemma_prod_plus(b, ss - st - st, tt);
        lemma_prod_plus(b, ss - st, st);
        lemma_prod_plus(b, ss, st);
        lemma_prod_regroup(s, t, b);
        lemma_prod_regroup(t, t, b);
        lemma_multiples(s, prod(t, b));
        lemma_multiples(t, prod(t, b));
        if forall|i: int| 0 <= i < n ==> !#[trigger] fitted(v, any, metric, median, i) {
            lemma_no_fit(v, any, metric, median, n);
        }
    }
}

/// Without a pixel to fit to there is nothing to add up.
proof fn lemma_no_fit<S: Scalar>(
    v: spec_fn(S) -> real,
    any: AnyviewData<S>,
    metric: MetricData<S>,
    median: real,
    n: nat,
)
    requires
        forall|i: int| 0 <= i < n ==> !#[trigger] fitted(v, any, metric, median, i),
    ensures
        sum(term(v, any, metric, median, 1), n) == 0 as real,
        sum(term(v, any, metric, median, 2), n) == 0 as real,
{
    let (g, h) = (term(v, any, metric, median, 1), term(v, any, metric, median, 2));
    assert forall|i: int| 0 <= i < n implies #[trigger] g(i) == 0 as real by {
        assert(!fitted(v, any, metric, median, i));
    }
    assert forall|i: int| 0 <= i < n implies #[trigger] h(i) == 0 as real by {
        assert(!fitted(v, any, metric, median, i));
    }
    lemma_sum_zero(g, n);
    lemma_sum_zero(h, n);
}

/// Where no pixel has an open sky, the factor is zero.
pub proof fn law_no_open_sky<S: Scalar, D: Widens<S> + Analytic>(
    v: spec_fn(S) -> real,
    u: spec_fn(D) -> real,
    any: AnyviewData<S>,
    metric: MetricData<S>,
    h: nat,
    w: nat,
)
    requires
        exact_pair::<S, D>(v, u),
        0 < h * w <= usize::MAX,
        any.depth.len() == h * w,
        metric.depth.len() == h * w,
        metric.sky.len() == h * w,
        forall|i: int| 0 <= i < h * w ==> !#[trigger] open_sky(v, metric.sky)(i),
    ensures
        v(aligned_of::<S, D>(any, metric, h as int, w as int).scale_factor) == 0 as real,
{
    let n = h * w;
    let med = quantile_of::<S, D>(
        clear_values(any.depth_conf, metric.sky),
        D::ratio_spec(1, 2),
    ).narrowed_spec();
    let sums: (D, D) = fit_sums(
        any.depth,
        any.depth_conf,
        focal_scaled(any, metric),
        metric.sky,
        med,
        n,
    );
    lemma_fit_sums::<S, D>(v, u, any, metric, med, n);
    assert forall|i: int| 0 <= i < n implies !#[trigger] fitted(v, any, metric, v(med), i) by {
        assert(!open_sky(v, metric.sky)(i));
    }
    lemma_no_fit(v, any, metric, v(med), n);
    let least = D::from_double_bits_spec(0x3d71_9799_812d_ea11);
    let q = sums.0.over_spec(least);
    assert(v(q.narrowed_spec()) == u(q));
    assert(prod(u(q), u(least)) == 0 as real);
    lemma_prod(u(least), 0 as real);
    lemma_prod(u(q), u(least));
    lemma_prod_cancel(u(least), u(q), 0 as real);
}

/// The factor does not depend on pixels under sky, nor on pixels less confident than
/// the median of those under an open sky: maps that agree elsewhere have the same
/// factor.
pub proof fn law_doubtful_pixels_do_not_count<S: Scalar, D: Widens<S> + Analytic>(
    v: spec_fn(S) -> real,
    u: spec_fn(D) -> real,
    any: AnyviewData<S>,
    metric: MetricData<S>,
    any2: AnyviewData<S>,
    metric2: MetricData<S>,
    h: nat,
    w: nat,
    half: real,
    median: real,
)
    requires
        exact_pair::<S, D>(v, u),
        0 < h * w <= usize::MAX,
        any.depth.len() == h * w,
        metric.depth.len() == h * w,
        metric.sky.len() == h * w,
        any2.depth.len() == h * w,
        metric2.depth.len() == h * w,
        metric2.sky == metric.sky,
        any2.depth_conf == any.depth_conf,
        any2.intrinsics == any.intrinsics,
        half + half == 1 as real,
        percentile(values(v, any.depth_conf), open_sky(v, metric.sky), h * w, half, median),
        forall|i: int|
            0 <= i < h * w && #[trigger] open_sky(v, metric.sky)(i) && v(any.depth_conf[i])
                >= median ==> any2.depth[i] == any.depth[i] && metric2.depth[i] == metric.depth[i],
    ensures
        aligned_of::<S, D>(any2, metric2, h as int, w as int).scale_factor == aligned_of::<S, D>(
            any,
            metric,
            h as int,
            w as int,
        ).scale_factor,
{
    let med = quantile_of::<S, D>(
        clear_values(any.depth_conf, metric.sky),
        D::ratio_spec(1, 2),
    ).narrowed_spec();
    lemma_median::<S, D>(v, u, any, metric, half, median);
    lemma_same_sums::<S, D>(v, any, metric, any2, metric2, med, h * w);
}

proof fn lemma_same_sums<S: Scalar, D: Widens<S> + Analytic>(
    v: spec_fn(S) -> real,
    any: AnyviewData<S>,
    metric: MetricData<S>,
    any2: AnyviewData<S>,
    metric2: MetricData<S>,
    med: S,
    n: nat,
)
    requires
        faithful(v),
        n <= metric.depth.len(),
        n <= metric2.depth.len(),
        metric2.sky == metric.sky,
        any2.depth_conf == any.depth_conf,
        any2.intrinsics == any.intrinsics,
        forall|i: int|
            0 <= i < n && #[trigger] open_sky(v, metric.sky)(i) && v(any.depth_conf[i]) >= v(med)
                ==> any2.depth[i] == any.depth[i] && metric2.depth[i] == metric.depth[i],
    ensures
        fit_sums::<S, D>(
            any2.depth,
            any2.depth_conf,
            focal_scaled(any2, metric2),
            metric2.sky,
            med,
            n,
        ) == fit_sums::<S, D>(
            any.depth,
            any.depth_conf,
            focal_scaled(any, metric),
            metric.sky,
            med,
            n,
        ),
    decreases n,
{
    if n > 0 {
        lemma_same_sums::<S, D>(v, any, metric, any2, metric2, med, (n - 1) as nat);
        lemma_fits(v, any, metric, med, n - 1);
        lemma_fits(v, any2, metric2, med, n - 1);
        if open_sky(v, metric.sky)(n - 1) && v(any.depth_conf[n - 1]) >= v(med) {
            assert(focal_scaled(any2, metric2)[n - 1] == focal_scaled(any, metric)[n - 1]);
        }
    }
}

/// Depth under an open sky is the relative depth times the factor; all other pixels
/// have the 99th percentile of that, at most 200.
pub proof fn law_metric_depth<S: Scalar, D: Widens<S> + Analytic>(
    v: spec_fn(S) -> real,
    u: spec_fn(D) -> real,
    any: AnyviewData<S>,
    metric: MetricData<S>,
    h: nat,
    w: nat,
    i: int,
    q: real,
    top: real,
)
    requires
        exact_pair::<S, D>(v, u),
        0 < h * w <= usize::MAX,
        any.depth.len() == h * w,
        metric.depth.len() == h * w,
        metric.sky.len() == h * w,
        0 <= i < h * w,
        (100 as real) * q == 99 as real,
        percentile(
            |k: int|
                prod(
                    v(aligned_of::<S, D>(any, metric, h as int, w as int).scale_factor),
                    v(any.depth[k]),
                ),
            open_sky(v, metric.sky),
            h * w,
            q,
            top,
        ),
    ensures
        aligned_of::<S, D>(any, metric, h as int, w as int).depth.len() == h * w,
        v(aligned_of::<S, D>(any, metric, h as int, w as int).depth[i]) == (if open_sky(
            v,
            metric.sky,
        )(i) {
            prod(
                v(aligned_of::<S, D>(any, metric, h as int, w as int).scale_factor),
                v(any.depth[i]),
            )
        } else if top > 200 as real {
            200 as real
        } else {
            top
        }),
{
    let out = aligned_of::<S, D>(any, metric, h as int, w as int);
    let depth = scaled(any.depth, out.scale_factor);
    let f = v(out.scale_factor);
    let e = |k: int| prod(f, v(any.depth[k]));
    lemma_open(v, metric.sky, i);
    lemma_whole::<S>(v, 200);
    lemma_prod(f, v(any.depth[i]));
    lemma_fraction(v, 99, 100);
    let nn = D::widened_spec(S::ratio_spec(99, 100));
    assert(u(nn) == v(S::ratio_spec(99, 100)));
    assert(u(nn) == q);
    lemma_clear_percentile::<S, D>(v, u, depth, metric.sky, nn);
    let x = quantile_of::<S, D>(clear_values(depth, metric.sky), nn);
    assert forall|k: int| 0 <= k < h * w implies #[trigger] e(k) == values(v, depth)(k) by {
        lemma_prod(f, v(any.depth[k]));
    }
    lemma_percentile_agree(
        e,
        open_sky(v, metric.sky),
        values(v, depth),
        open_sky(v, metric.sky),
        h * w,
        q,
        top,
    );
    lemma_percentile_unique(values(v, depth), open_sky(v, metric.sky), h * w, q, u(x), top);
    assert(v(x.narrowed_spec()) == u(x));
}

/// The metric branch's own filling: with more than ten pixels under an open sky and
/// more than ten others, the others get the 99th percentile of the depth under the
/// open sky, and every other depth stays.
pub proof fn law_metric_sky<S: Scalar, D: Widens<S> + Analytic>(
    v: spec_fn(S) -> real,
    u: spec_fn(D) -> real,
    depth: Seq<S>,
    sky: Seq<S>,
    i: int,
    q: real,
    top: real,
)
    requires
        exact_pair::<S, D>(v, u),
        sky.len() == depth.len() <= usize::MAX,
        many(open_sky(v, sky), sky.len()) > 10,
        depth.len() - many(open_sky(v, sky), sky.len()) > 10,
        0 <= i < depth.len(),
        (100 as real) * q == 99 as real,
        percentile(values(v, depth), open_sky(v, sky), depth.len(), q, top),
    ensures
        mono_sky::<S, D>(depth, sky).len() == depth.len(),
        v(mono_sky::<S, D>(depth, sky)[i]) == (if open_sky(v, sky)(i) {
            v(depth[i])
        } else {
            top
        }),
{
    lemma_open(v, sky, i);
    lemma_fraction(v, 3, 10);
    lemma_fraction(v, 99, 100);
    lemma_clear_lists(v, depth, sky, |e: S| true);
    let nn = D::widened_spec(S::ratio_spec(99, 100));
    assert(u(nn) == v(S::ratio_spec(99, 100)));
    assert(u(nn) == q);
    lemma_clear_percentile::<S, D>(v, u, depth, sky, nn);
    let x = quantile_of::<S, D>(clear_values(depth, sky), nn);
    lemma_percentile_unique(values(v, depth), open_sky(v, sky), depth.len(), q, u(x), top);
    assert(v(x.narrowed_spec()) == u(x));
}

} // verus!
