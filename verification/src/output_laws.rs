//! What is read off the last maps, where arithmetic is exact.

use crate::activation_laws::exponentials;
use crate::depth_export::{greatest, grey_level, least, listed, pose_json};
use crate::dpt_head::rays_of;
use crate::gs_head::{gaussians_of, gelu_exact_of};
use crate::reals::{
    faithful, lemma_prod, lemma_prod_plus, lemma_prod_regroup, lemma_prod_sign, lemma_prod_two,
    lemma_whole, prod,
};
use crate::scalar::{Analytic, Gaussian, Stored, Style};
use crate::sort::faithful_floors;
use vstd::prelude::*;

verus! {

/// The last of seven planes is a ray's confidence: what it has above one grows with the
/// raw value as the exponential does; it is two where the raw value is zero.
pub proof fn law_ray_confidence<T: Analytic>(
    v: spec_fn(T) -> real,
    ex: spec_fn(real) -> real,
    host: Seq<T>,
    h: int,
    w: int,
    p: int,
    q: int,
)
    requires
        exponentials(v, ex),
        0 <= p < h * w,
        0 <= q < h * w,
    ensures
        rays_of(host, h, w).conf.len() == h * w,
        v(rays_of(host, h, w).conf[p]) - 1 as real == ex(v(host[6 * (h * w) + p])),
        v(rays_of(host, h, w).conf[p]) > 1 as real,
        v(host[6 * (h * w) + p]) == 0 as real ==> v(rays_of(host, h, w).conf[p]) == 2 as real,
        v(host[6 * (h * w) + p]) < v(host[6 * (h * w) + q]) ==> v(rays_of(host, h, w).conf[p]) < v(
            rays_of(host, h, w).conf[q],
        ),
{
    lemma_whole::<T>(v, 1);
}

/// The last of 38 planes is a Gaussian's confidence: its odds are the exponential of the
/// raw value. It lies between zero and one and is one half where the raw value is zero.
pub proof fn law_gaussian_confidence<T: Analytic>(
    v: spec_fn(T) -> real,
    ex: spec_fn(real) -> real,
    host: Seq<T>,
    h: int,
    w: int,
    p: int,
)
    requires
        exponentials(v, ex),
        0 <= p < h * w,
    ensures
        gaussians_of(host, h, w).gs_conf.len() == h * w,
        ({
            let c = v(gaussians_of(host, h, w).gs_conf[p]);
            let x = v(host[37 * (h * w) + p]);
            &&& (0 as real) < c < 1 as real
            &&& prod(1 as real - c, ex(x)) == c
            &&& x == 0 as real ==> c + c == 1 as real
        }),
{
    lemma_whole::<T>(v, 1);
    let x = host[37 * (h * w) + p];
    let c = v(gaussians_of(host, h, w).gs_conf[p]);
    let (e, f) = (ex(-v(x)), ex(v(x)));
    assert(v(x.negated_spec()) == -v(x));
    assert(prod(c, 1 as real + e) == 1 as real);
    lemma_prod_plus(c, 1 as real, e);
    lemma_prod(c, 1 as real);
    lemma_prod(c, 1 as real + e);
    lemma_prod_sign(1 as real + e, c);
    lemma_prod_sign(c, e);
    assert(ex(-v(x) + v(x)) == prod(e, f));
    assert(-v(x) + v(x) == 0 as real);
    lemma_prod_regroup(c, e, f);
    assert(1 as real - c == prod(c, e));
}

/// `er` is an odd function, and error functions of numbers are exact with it.
pub open spec fn errors<T: Gaussian>(v: spec_fn(T) -> real, er: spec_fn(real) -> real) -> bool {
    &&& faithful(v)
    &&& forall|x: T| v(#[trigger] x.error_function_spec()) == er(v(x))
    &&& forall|a: real| #[trigger] er(-a) == -er(a)
}

/// The error linear unit passes a number as far as it is likely: the share of `x` that
/// passes and the share of `-x` that does make up the whole, and the double of what
/// passes is `x` times one more than the error function of `x` over the root of two.
pub proof fn law_error_unit<T: Gaussian>(
    v: spec_fn(T) -> real,
    er: spec_fn(real) -> real,
    x: T,
    y: T,
)
    requires
        errors(v, er),
        v(y) == -v(x),
    ensures
        v(gelu_exact_of(x)) - v(gelu_exact_of(y)) == v(x),
        v(gelu_exact_of(x)) + v(gelu_exact_of(x)) == prod(
            1 as real + er(prod(v(x), v(T::from_bits_spec(0x3f35_04f3)))),
            v(x),
        ),
{
    lemma_whole::<T>(v, 1);
    let half = T::ratio_spec(1, 2);
    let h = v(half);
    assert(prod(h, 2u32 as int as real) == 1 as real);
    lemma_prod(h, 2 as real);
    lemma_prod_two(h);
    let c = v(T::from_bits_spec(0x3f35_04f3));
    lemma_prod(v(x), c);
    let a = prod(v(x), c);
    assert(er(-a) == -er(a));
    let (p, m) = (1 as real + er(a), 1 as real - er(a));
    lemma_unit(p, h, v(x));
    lemma_unit(m, h, -v(x));
    lemma_prod(m, v(x));
    lemma_prod_plus(v(x), p, m);
    lemma_prod_two(v(x));
    lemma_prod(2 as real, v(x));
    assert(p + m == 2 as real);
}

/// Half a product, twice.
proof fn lemma_unit(p: real, h: real, x: real)
    requires
        h + h == 1 as real,
    ensures
        prod(prod(p, h), x) + prod(prod(p, h), x) == prod(p, x),
{
    lemma_prod_plus(p, h, h);
    lemma_prod(p, 1 as real);
    lemma_prod_plus(x, prod(p, h), prod(p, h));
}

/// Rounding to the nearest is exact for numbers that are not negative.
pub open spec fn faithful_nearest<T: Analytic>(v: spec_fn(T) -> real) -> bool {
    &&& faithful_floors(v)
    &&& forall|x: T, n: int|
        n >= 0 && (2 * n - 1) as real <= v(x) + v(x) < (2 * n + 1) as real
            ==> #[trigger] nearest_to(v, x, n)
}

/// `x` rounded is `n`.
pub open spec fn nearest_to<T: Analytic>(v: spec_fn(T) -> real, x: T, n: int) -> bool {
    v(x.rounded_spec()) == n as real
}

/// The depths of a map lie from `lo` to `hi`, and both occur.
pub open spec fn spans<T>(v: spec_fn(T) -> real, d: Seq<T>, lo: real, hi: real) -> bool {
    &&& forall|i: int| 0 <= i < d.len() ==> lo <= v(#[trigger] d[i]) <= hi
    &&& exists|i: int| 0 <= i < d.len() && v(#[trigger] d[i]) == lo
    &&& exists|i: int| 0 <= i < d.len() && v(#[trigger] d[i]) == hi
}

/// The least and the greatest of a map.
proof fn lemma_ends<T: Analytic>(v: spec_fn(T) -> real, d: Seq<T>)
    requires
        faithful(v),
        forall|i: int|
            0 <= i < d.len() ==> v(T::lowest_spec()) <= v(#[trigger] d[i]) <= v(
                T::greatest_spec(),
            ),
    ensures
        forall|i: int|
            0 <= i < d.len() ==> v(least(d)) <= v(#[trigger] d[i]) <= v(greatest(d)),
        d.len() > 0 ==> exists|i: int| 0 <= i < d.len() && v(#[trigger] d[i]) == v(least(d)),
        d.len() > 0 ==> exists|i: int| 0 <= i < d.len() && v(#[trigger] d[i]) == v(greatest(d)),
    decreases d.len(),
{
    if d.len() > 0 {
        let e = d.drop_last();
        assert forall|i: int| 0 <= i < e.len() implies v(T::lowest_spec()) <= v(#[trigger] e[i])
            <= v(T::greatest_spec()) by {
            assert(e[i] == d[i]);
        }
        lemma_ends(v, e);
        let last = d[d.len() - 1];
        assert(d.last() == last);
        assert forall|i: int| 0 <= i < d.len() implies v(least(d)) <= v(#[trigger] d[i]) <= v(
            greatest(d),
        ) by {
            if i < d.len() - 1 {
                assert(e[i] == d[i]);
            }
        }
        if e.len() == 0 {
            assert(d[0] == last);
            assert(v(T::lowest_spec()) <= v(d[0]) <= v(T::greatest_spec()));
            assert(least(e) == T::greatest_spec() && greatest(e) == T::lowest_spec());
            assert(v(d[0]) == v(least(d)) && v(d[0]) == v(greatest(d)));
        } else {
            let a = choose|i: int| 0 <= i < e.len() && v(#[trigger] e[i]) == v(least(e));
            let b = choose|i: int| 0 <= i < e.len() && v(#[trigger] e[i]) == v(greatest(e));
            assert(e[a] == d[a] && e[b] == d[b]);
            assert(v(d[a]) == v(least(d)) || v(d[d.len() - 1]) == v(least(d)));
            assert(v(d[b]) == v(greatest(d)) || v(d[d.len() - 1]) == v(greatest(d)));
        }
    }
}

/// Grey levels spread a map from black to white: the level of a depth is the whole
/// number nearest to 255 times its share of the way from the least depth to the
/// greatest, or from the greatest to the least where levels are inverted. A map of one
/// depth is black, or white where levels are inverted.
pub proof fn law_grey_levels<T: Analytic>(
    v: spec_fn(T) -> real,
    d: Seq<T>,
    lo: real,
    hi: real,
    i: int,
    n: int,
    inverted: bool,
)
    requires
        faithful_nearest(v),
        forall|j: int|
            0 <= j < d.len() ==> v(T::lowest_spec()) <= v(#[trigger] d[j]) <= v(
                T::greatest_spec(),
            ),
        spans(v, d, lo, hi),
        0 <= i < d.len(),
        0 <= n <= 255,
        lo < hi ==> ({
            let share = if inverted {
                hi - v(d[i])
            } else {
                v(d[i]) - lo
            };
            prod((2 * n - 1) as real, hi - lo) <= (510 as real) * share < prod(
                (2 * n + 1) as real,
                hi - lo,
            )
        }),
        lo == hi ==> n == (if inverted {
            255
        } else {
            0int
        }),
    ensures
        grey_level(d[i], least(d), greatest(d), inverted) == n,
{
    lemma_whole::<T>(v, 0);
    lemma_whole::<T>(v, 1);
    lemma_whole::<T>(v, 255);
    lemma_ends(v, d);
    let (a, b) = (
        choose|j: int| 0 <= j < d.len() && v(#[trigger] d[j]) == lo,
        choose|j: int| 0 <= j < d.len() && v(#[trigger] d[j]) == hi,
    );
    let (p, q) = (
        choose|j: int| 0 <= j < d.len() && v(#[trigger] d[j]) == v(least(d)),
        choose|j: int| 0 <= j < d.len() && v(#[trigger] d[j]) == v(greatest(d)),
    );
    assert(v(least(d)) == lo) by {
        assert(v(d[a]) == lo && v(d[p]) == v(least(d)));
    }
    assert(v(greatest(d)) == hi) by {
        assert(v(d[b]) == hi && v(d[q]) == v(greatest(d)));
    }
    let range = greatest(d).minus_spec(least(d));
    let r = hi - lo;
    let t = if lo < hi {
        d[i].minus_spec(least(d)).over_spec(range)
    } else {
        T::ratio_spec(0, 1)
    };
    let s = if inverted {
        T::ratio_spec(1, 1).minus_spec(t)
    } else {
        t
    };
    let full = s.times_spec(T::ratio_spec(255, 1));
    lemma_scaled(v(s), r);
    if lo < hi {
        assert(prod(v(t), r) == v(d[i]) - lo);
        lemma_prod_plus(r, 1 as real, v(t));
        lemma_prod(r, 1 as real);
        lemma_prod(1 as real, r);
        let share = if inverted {
            hi - v(d[i])
        } else {
            v(d[i]) - lo
        };
        assert(prod(v(s), r) == share);
        let twice = v(full) + v(full);
        assert(prod(twice, r) == (510 as real) * share);
        lemma_order((2 * n - 1) as real, twice, r);
        lemma_order_strict(twice, (2 * n + 1) as real, r);
    }
    assert(nearest_to(v, full, n));
    let z = full.rounded_spec();
    let m = z.floor_count_spec();
    assert(m as int == n) by {
        assert(m as int as real <= n as real);
        assert((n as real) < m as int as real + 1 as real);
    }
}

/// 255 times a share, twice.
proof fn lemma_scaled(s: real, r: real)
    ensures
        prod(s, 255 as real) == (255 as real) * s,
        prod((510 as real) * s, r) == (510 as real) * prod(s, r),
{
    reveal(prod);
    assert(((510 as real) * s) * r == (510 as real) * (s * r)) by (nonlinear_arith);
}

/// A positive factor can be taken off both sides of an inequality.
proof fn lemma_order(a: real, b: real, r: real)
    requires
        r > 0 as real,
        prod(a, r) <= prod(b, r),
    ensures
        a <= b,
{
    lemma_prod_plus(r, b, a);
    lemma_prod(r, b - a);
    lemma_prod_sign(r, b - a);
}

/// The same of a strict one.
proof fn lemma_order_strict(a: real, b: real, r: real)
    requires
        r > 0 as real,
        prod(a, r) < prod(b, r),
    ensures
        a < b,
{
    lemma_prod_plus(r, b, a);
    lemma_prod(r, b - a);
    lemma_prod_sign(r, b - a);
}

/// What stands before number `k` of a camera in JSON: the opening of its matrix or row, or
/// a comma; behind the last number, the end.
pub open spec fn json_before(k: int) -> Seq<char> {
    if k == 0 {
        "{\n  \"extrinsics\": [\n    ["@
    } else if k == 12 {
        "]\n  ],\n  \"intrinsics\": [\n    ["@
    } else if k == 4 || k == 8 || k == 15 || k == 18 {
        "],\n    ["@
    } else if k == 21 {
        "]\n  ]\n}\n"@
    } else {
        ", "@
    }
}

/// The first `n` numbers, each behind what stands before it.
pub open spec fn json_numbers<T: Stored>(v: Seq<T>, n: nat) -> Seq<char>
    decreases n,
{
    if n == 0 {
        Seq::empty()
    } else {
        json_numbers(v, (n - 1) as nat) + json_before(n - 1) + v[n - 1].shown_spec(
            Style::EightPlaces,
        )
    }
}

proof fn lemma_json_row<T: Stored>(v: Seq<T>, m: Seq<T>, at: int, k: nat, n: nat)
    requires
        0 < n <= 4,
        forall|j: int| 0 <= j < n ==> #[trigger] v[k + j] == m[at + j],
        forall|j: int| 0 < j < n ==> #[trigger] json_before(k + j) == ", "@,
    ensures
        json_numbers(v, k + n) == json_numbers(v, k) + json_before(k as int) + listed(m, at, n),
    decreases n,
{
    if n == 1 {
        assert(v[k + 0int] == m[at + 0int]);
    } else {
        let p = (n - 1) as nat;
        lemma_json_row(v, m, at, k, p);
        let q = n - 1;
        assert(json_before(k + q) == ", "@);
        assert(v[k + q] == m[at + q]);
        let a = json_numbers(v, k) + json_before(k as int);
        let x = m[at + p].shown_spec(Style::EightPlaces);
        assert(listed(m, at, n) == listed(m, at, p) + ", "@ + x);
        assert(json_numbers(v, k + n) == json_numbers(v, k + p) + json_before(k + q) + x);
        assert(a + listed(m, at, p) + ", "@ + x =~= a + (listed(m, at, p) + ", "@ + x));
    }
}

/// A camera in JSON: the twelve numbers of its pose and then the nine of its intrinsics,
/// row by row, four to a row and three to a row.
pub proof fn law_pose_json<T: Stored>(ext: Seq<T>, intr: Seq<T>)
    requires
        ext.len() == 12,
        intr.len() == 9,
    ensures
        pose_json(ext, intr) == json_numbers(ext + intr, 21) + json_before(21),
{
    let v = ext + intr;
    lemma_json_row(v, ext, 0, 0, 4);
    lemma_json_row(v, ext, 4, 4, 4);
    lemma_json_row(v, ext, 8, 8, 4);
    lemma_json_row(v, intr, 0, 12, 3);
    lemma_json_row(v, intr, 3, 15, 3);
    lemma_json_row(v, intr, 6, 18, 3);
    assert(json_numbers(v, 0) + json_before(0) =~= json_before(0));
}

} // verus!
