//! What depth, confidence and sky are of raw outputs, where arithmetic is exact.

use crate::depth_export::{maps_of, sigmoid_of};
use crate::reals::{
    faithful, lemma_prod, lemma_prod_cancel, lemma_prod_plus, lemma_prod_regroup, lemma_prod_sign,
    lemma_whole, prod,
};
use crate::scalar::Analytic;
use vstd::prelude::*;

verus! {

/// `ex` is an exponential of the reals with a base above one, and exponentials of
/// numbers are exact with it.
pub open spec fn exponentials<T: Analytic>(v: spec_fn(T) -> real, ex: spec_fn(real) -> real) -> bool {
    &&& faithful(v)
    &&& forall|x: T| v(#[trigger] x.exponential_spec()) == ex(v(x))
    &&& ex(0 as real) == 1 as real
    &&& forall|a: real| #[trigger] ex(a) > 0 as real
    &&& forall|a: real, b: real| #[trigger] ex(a + b) == prod(ex(a), ex(b))
    &&& forall|a: real, b: real| a < b ==> #[trigger] ex(a) < #[trigger] ex(b)
}

/// A larger factor and a factor no smaller make a larger product.
proof fn lemma_larger(a: real, b: real, c: real, d: real)
    requires
        a >= b > 0 as real,
        c > d > 0 as real,
    ensures
        prod(a, c) > prod(b, d),
{
    lemma_prod_plus(a, c, d);
    lemma_prod_plus(d, a, b);
    lemma_prod_sign(a, c - d);
    lemma_prod_sign(a - b, d);
}

/// With two channels, or with a sky map beside one, the logarithm of the depth of a
/// pixel is its raw value: depth is positive, grows with the raw value, is one where
/// the raw value is zero and above one where the raw value is positive, and a sum of
/// raw values stands for a product of depths. Pixels that agree have the same depth
/// whatever the sizes and the other pixels are.
pub proof fn law_exponential_depth<T: Analytic>(
    v: spec_fn(T) -> real,
    ex: spec_fn(real) -> real,
    logits: Seq<T>,
    sky: Option<Seq<T>>,
    hw: nat,
    output_dim: int,
    max_depth: T,
)
    requires
        exponentials(v, ex),
        output_dim >= 2 || sky is Some,
    ensures
        maps_of(logits, sky, hw as int, output_dim, max_depth).depth.len() == hw,
        forall|i: int|
            0 <= i < hw ==> v(
                #[trigger] maps_of(logits, sky, hw as int, output_dim, max_depth).depth[i],
            ) == ex(v(logits[i])),
        forall|i: int|
            0 <= i < hw ==> v(
                #[trigger] maps_of(logits, sky, hw as int, output_dim, max_depth).depth[i],
            ) > 0 as real,
        forall|i: int|
            0 <= i < hw && v(logits[i]) == 0 as real ==> v(
                #[trigger] maps_of(logits, sky, hw as int, output_dim, max_depth).depth[i],
            ) == 1 as real,
        forall|i: int|
            0 <= i < hw && v(logits[i]) > 0 as real ==> v(
                #[trigger] maps_of(logits, sky, hw as int, output_dim, max_depth).depth[i],
            ) > 1 as real,
        forall|i: int, j: int|
            0 <= i < hw && 0 <= j < hw && v(logits[i]) < v(logits[j]) ==> v(
                #[trigger] maps_of(logits, sky, hw as int, output_dim, max_depth).depth[i],
            ) < v(#[trigger] maps_of(logits, sky, hw as int, output_dim, max_depth).depth[j]),
        forall|i: int, j: int, k: int|
            0 <= i < hw && 0 <= j < hw && 0 <= k < hw && v(logits[k]) == v(logits[i]) + v(logits[j])
                ==> v(#[trigger] maps_of(logits, sky, hw as int, output_dim, max_depth).depth[k])
                == prod(
                v(#[trigger] maps_of(logits, sky, hw as int, output_dim, max_depth).depth[i]),
                v(#[trigger] maps_of(logits, sky, hw as int, output_dim, max_depth).depth[j]),
            ),
{
    let d = maps_of(logits, sky, hw as int, output_dim, max_depth).depth;
    assert forall|i: int, j: int, k: int|
        0 <= i < hw && 0 <= j < hw && 0 <= k < hw && v(logits[k]) == v(logits[i]) + v(
            logits[j],
        ) implies v(#[trigger] d[k]) == prod(v(#[trigger] d[i]), v(#[trigger] d[j])) by {
        assert(ex(v(logits[i]) + v(logits[j])) == prod(ex(v(logits[i])), ex(v(logits[j]))));
    }
}

/// With two channels the second is confidence, and the logarithm of what confidence
/// has above one is its raw value: it is above one and grows with the raw value, and
/// it is two where the raw value is zero. There is no sky map then.
pub proof fn law_confidence<T: Analytic>(
    v: spec_fn(T) -> real,
    ex: spec_fn(real) -> real,
    logits: Seq<T>,
    sky: Option<Seq<T>>,
    hw: nat,
    output_dim: int,
    max_depth: T,
)
    requires
        exponentials(v, ex),
        output_dim >= 2,
    ensures
        maps_of(logits, sky, hw as int, output_dim, max_depth).conf.len() == hw,
        maps_of(logits, sky, hw as int, output_dim, max_depth).sky.len() == 0,
        forall|i: int|
            0 <= i < hw ==> v(
                #[trigger] maps_of(logits, sky, hw as int, output_dim, max_depth).conf[i],
            ) - 1 as real == ex(v(logits[hw + i])),
        forall|i: int|
            0 <= i < hw ==> v(
                #[trigger] maps_of(logits, sky, hw as int, output_dim, max_depth).conf[i],
            ) > 1 as real,
        forall|i: int|
            0 <= i < hw && v(logits[hw + i]) == 0 as real ==> v(
                #[trigger] maps_of(logits, sky, hw as int, output_dim, max_depth).conf[i],
            ) == 2 as real,
        forall|i: int, j: int|
            0 <= i < hw && 0 <= j < hw && v(logits[hw + i]) < v(logits[hw + j]) ==> v(
                #[trigger] maps_of(logits, sky, hw as int, output_dim, max_depth).conf[i],
            ) < v(#[trigger] maps_of(logits, sky, hw as int, output_dim, max_depth).conf[j]),
{
    lemma_whole::<T>(v, 1);
}

/// With one channel and a sky map, sky is the raw sky value where that is positive
/// and zero elsewhere. There is no confidence then.
pub proof fn law_sky_values<T: Analytic>(
    v: spec_fn(T) -> real,
    logits: Seq<T>,
    sky: Seq<T>,
    hw: nat,
    output_dim: int,
    max_depth: T,
)
    requires
        faithful(v),
        output_dim < 2,
    ensures
        maps_of(logits, Some(sky), hw as int, output_dim, max_depth).sky.len() == hw,
        maps_of(logits, Some(sky), hw as int, output_dim, max_depth).conf.len() == 0,
        forall|i: int|
            0 <= i < hw && v(sky[i]) >= 0 as real ==> v(
                #[trigger] maps_of(logits, Some(sky), hw as int, output_dim, max_depth).sky[i],
            ) == v(sky[i]),
        forall|i: int|
            0 <= i < hw && v(sky[i]) < 0 as real ==> v(
                #[trigger] maps_of(logits, Some(sky), hw as int, output_dim, max_depth).sky[i],
            ) == 0 as real,
{
    lemma_whole::<T>(v, 0);
}

/// The logistic function times a largest value, over the reals.
proof fn lemma_logistic<T: Analytic>(
    v: spec_fn(T) -> real,
    ex: spec_fn(real) -> real,
    x: T,
    max: real,
)
    requires
        exponentials(v, ex),
        max > 0 as real,
    ensures
        v(sigmoid_of(x)) > 0 as real,
        v(sigmoid_of(x)) + prod(v(sigmoid_of(x)), ex(-v(x))) == 1 as real,
        (0 as real) < prod(v(sigmoid_of(x)), max) < max,
        prod(prod(v(sigmoid_of(x)), max), 1 as real + ex(v(x))) == prod(max, ex(v(x))),
{
    lemma_whole::<T>(v, 1);
    let s = v(sigmoid_of(x));
    let e = ex(-v(x));
    let f = ex(v(x));
    assert(v(x.negated_spec()) == -v(x));
    assert(prod(s, 1 as real + e) == 1 as real);
    lemma_prod_plus(s, 1 as real, e);
    lemma_prod(s, 1 as real);
    lemma_prod(s, 1 as real + e);
    lemma_prod_sign(1 as real + e, s);
    lemma_prod_sign(s, e);
    lemma_prod_sign(s, max);
    lemma_prod_sign(1 as real - s, max);
    lemma_prod_plus(max, 1 as real, s);
    lemma_prod(1 as real, max);
    lemma_prod(max, 1 as real);
    assert(ex(-v(x) + v(x)) == prod(e, f));
    assert(-v(x) + v(x) == 0 as real);
    assert(prod(s, 1 as real + f) == f) by {
        lemma_prod_plus(s, 1 as real, f);
        lemma_prod_regroup(s, e, f);
        lemma_prod_plus(f, s, prod(s, e));
        lemma_prod(f, 1 as real);
        lemma_prod(s, f);
    }
    lemma_prod_regroup(max, s, 1 as real + f);
    lemma_prod(s, max);
}

/// With one channel, no sky map and a largest depth, the odds of the depth against
/// what is missing to the largest are the exponential of the raw value: depth lies
/// strictly between zero and the largest, grows with the raw value, is half the
/// largest where the raw value is zero, and opposite raw values have depths that
/// add up to the largest.
pub proof fn law_bounded_depth<T: Analytic>(
    v: spec_fn(T) -> real,
    ex: spec_fn(real) -> real,
    logits: Seq<T>,
    hw: nat,
    output_dim: int,
    max_depth: T,
    i: int,
    j: int,
)
    requires
        exponentials(v, ex),
        output_dim < 2,
        v(max_depth) > 0 as real,
        0 <= i < hw,
        0 <= j < hw,
    ensures
        maps_of(logits, None, hw as int, output_dim, max_depth).depth.len() == hw,
        maps_of(logits, None, hw as int, output_dim, max_depth).conf.len() == 0,
        maps_of(logits, None, hw as int, output_dim, max_depth).sky.len() == 0,
        ({
            let di = v(maps_of(logits, None, hw as int, output_dim, max_depth).depth[i]);
            let dj = v(maps_of(logits, None, hw as int, output_dim, max_depth).depth[j]);
            let (xi, xj) = (v(logits[i]), v(logits[j]));
            &&& (0 as real) < di < v(max_depth)
            &&& prod(v(max_depth) - di, ex(xi)) == di
            &&& xi == 0 as real ==> di + di == v(max_depth)
            &&& xi < xj ==> di < dj
            &&& xi == -xj ==> di + dj == v(max_depth)
        }),
{
    lemma_whole::<T>(v, 0);
    let max = v(max_depth);
    let (x, y) = (logits[i], logits[j]);
    let (s, r) = (v(sigmoid_of(x)), v(sigmoid_of(y)));
    let m = maps_of(logits, None, hw as int, output_dim, max_depth);
    let (d, g) = (v(m.depth[i]), v(m.depth[j]));
    assert(d == prod(s, max));
    assert(g == prod(r, max));
    lemma_logistic(v, ex, x, max);
    lemma_logistic(v, ex, y, max);
    let f = ex(v(x));
    lemma_prod_plus(d, 1 as real, f);
    lemma_prod(d, 1 as real);
    lemma_prod_plus(f, max, d);
    lemma_prod(f, max);
    lemma_prod(f, d);
    if v(x) == 0 as real {
        lemma_prod(max, 1 as real);
    }
    if v(x) < v(y) {
        let (e, h) = (ex(-v(x)), ex(-v(y)));
        assert(h < e);
        lemma_prod_plus(s, 1 as real, e);
        lemma_prod_plus(r, 1 as real, h);
        lemma_prod(s, 1 as real);
        lemma_prod(r, 1 as real);
        if s >= r {
            lemma_larger(s, r, 1 as real + e, 1 as real + h);
        }
        lemma_prod_sign(r - s, max);
        lemma_prod_plus(max, r, s);
    }
    if v(x) == -v(y) {
        let e = ex(-v(x));
        assert(e == ex(v(y)));
        let h = ex(-v(y));
        assert(h == f);
        assert(ex(-v(x) + v(x)) == prod(e, f));
        assert(-v(x) + v(x) == 0 as real);
        let t = prod(s, e);
        lemma_prod_plus(t, 1 as real, f);
        lemma_prod(t, 1 as real);
        lemma_prod_regroup(s, e, f);
        lemma_prod(s, 1 as real);
        lemma_prod_plus(r, 1 as real, f);
        lemma_prod(r, 1 as real);
        lemma_prod(t, 1 as real + f);
        lemma_prod(r, 1 as real + f);
        lemma_prod_cancel(1 as real + f, t, r);
        lemma_prod_plus(max, s, r);
        lemma_prod(max, 1 as real);
    }
}

/// With one channel, no sky map and no largest depth, depth is the raw value where
/// that is positive and zero elsewhere.
pub proof fn law_relative_depth<T: Analytic>(
    v: spec_fn(T) -> real,
    logits: Seq<T>,
    hw: nat,
    output_dim: int,
    max_depth: T,
)
    requires
        faithful(v),
        output_dim < 2,
        v(max_depth) <= 0 as real,
    ensures
        maps_of(logits, None, hw as int, output_dim, max_depth).depth.len() == hw,
        maps_of(logits, None, hw as int, output_dim, max_depth).conf.len() == 0,
        maps_of(logits, None, hw as int, output_dim, max_depth).sky.len() == 0,
        forall|i: int|
            0 <= i < hw && v(logits[i]) >= 0 as real ==> v(
                #[trigger] maps_of(logits, None, hw as int, output_dim, max_depth).depth[i],
            ) == v(logits[i]),
        forall|i: int|
            0 <= i < hw && v(logits[i]) < 0 as real ==> v(
                #[trigger] maps_of(logits, None, hw as int, output_dim, max_depth).depth[i],
            ) == 0 as real,
{
    lemma_whole::<T>(v, 0);
}

} // verus!
