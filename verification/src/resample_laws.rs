//! What resampled position embeddings are, where arithmetic is exact.

use crate::index::{lemma_split, lemma_within};
use crate::pos_embed::{
    blended, cubic_of, embed_at, interpolated, neighbour, source_index, source_place,
    source_weight,
};
use crate::pos_embed_laws::faithful_places;
use crate::reals::{
    lemma_prod, lemma_prod_cancel, lemma_prod_plus, lemma_prod_regroup, lemma_prod_two,
    lemma_whole, prod,
};
use crate::scalar::{from_int, Analytic};
use vstd::prelude::*;

verus! {

/// Rounding down is exact besides, below zero too.
pub open spec fn faithful_rounding<T: Analytic>(v: spec_fn(T) -> real) -> bool {
    &&& faithful_places(v)
    &&& forall|x: T, n: int|
        n as real <= v(x) < n as real + 1 as real ==> #[trigger] rounds_to(v, x, n)
}

/// `x` rounded down is `n`.
pub open spec fn rounds_to<T: Analytic>(v: spec_fn(T) -> real, x: T, n: int) -> bool {
    v(x.rounded_down_spec()) == n as real
}

/// Four times the weight of a stored value at distance `t`: the cubic kernel that is
/// one at zero, zero at every other whole number, and has slope -3/4 at one.
pub open spec fn kernel_4(t: real) -> real {
    let a = if t < 0 as real {
        -t
    } else {
        t
    };
    let square = prod(a, a);
    let cube = prod(a, square);
    if a < 1 as real {
        (5 as real) * cube - (9 as real) * square + 4 as real
    } else if a < 2 as real {
        -((3 as real) * cube) + (15 as real) * square - (24 as real) * a + 12 as real
    } else {
        0 as real
    }
}

/// The sum of four terms.
pub open spec fn four(f: spec_fn(int) -> real) -> real {
    f(0) + f(1) + f(2) + f(3)
}

/// The position of a grid of `m` that is nearest to `i`.
pub open spec fn nearest(i: int, m: int) -> int {
    if i < 0 {
        0
    } else if i >= m {
        m - 1
    } else {
        i
    }
}

/// Place `s` of a stored row or column of `m` is where position `o` of `len`, widened
/// by `offset`, lies, by the centres of the cells: `(s + 1/2) * (len + offset)` is
/// `(o + 1/2) * m`.
pub open spec fn lies_at(o: int, len: int, m: int, offset: real, s: real) -> bool {
    prod(s + s + 1 as real, len as real + offset) == prod((2 * o + 1) as real, m as real)
}

/// `f` is the whole number just before `s`, and not too far from zero.
pub open spec fn just_before(f: int, s: real) -> bool {
    &&& f as real <= s < f as real + 1 as real
    &&& -0x7fff_ffff < f < 0x7fff_ffff
}

/// The four weights of the stored positions around `s`, times four.
pub open spec fn weight_4(s: real, f: int, a: int) -> real {
    kernel_4(s - (f - 1 + a) as real)
}

/// The stored embedding of row `r` and column `c`.
pub open spec fn stored<T>(
    v: spec_fn(T) -> real,
    pe: Seq<T>,
    embed: int,
    m: int,
    ch: int,
    r: int,
    c: int,
) -> real {
    v(pe[(1 + r * m + c) * embed + ch])
}

/// Stored row `r` around place `sx`, times four.
pub open spec fn along_4<T>(
    v: spec_fn(T) -> real,
    pe: Seq<T>,
    embed: int,
    m: int,
    ch: int,
    r: int,
    sx: real,
    fx: int,
) -> real {
    four(
        |b: int|
            prod(weight_4(sx, fx, b), stored(v, pe, embed, m, ch, r, nearest(fx - 1 + b, m))),
    )
}

/// The stored grid around place `sy`, `sx`, times sixteen.
pub open spec fn sampled_16<T>(
    v: spec_fn(T) -> real,
    pe: Seq<T>,
    embed: int,
    m: int,
    ch: int,
    sy: real,
    fy: int,
    sx: real,
    fx: int,
) -> real {
    four(
        |a: int|
            prod(
                weight_4(sy, fy, a),
                along_4(v, pe, embed, m, ch, nearest(fy - 1 + a, m), sx, fx),
            ),
    )
}

/// Products with some whole numbers.
proof fn lemma_quarters(a: real)
    ensures
        prod(a, 4 as real) == (4 as real) * a,
        prod(4 as real, a) == (4 as real) * a,
        prod(5 as real, a) == (5 as real) * a,
        prod(8 as real, a) == (8 as real) * a,
        prod(9 as real, a) == (9 as real) * a,
{
    reveal(prod);
}

/// Four times one factor.
proof fn lemma_four_times(a: real, b: real)
    ensures
        prod((4 as real) * a, b) == (4 as real) * prod(a, b),
        prod(a, (4 as real) * b) == (4 as real) * prod(a, b),
        prod((4 as real) * a, (4 as real) * b) == (16 as real) * prod(a, b),
        prod(5 as real - a, b) == (5 as real) * b - prod(a, b),
{
    reveal(prod);
    assert(((4 as real) * a) * b == (4 as real) * (a * b)) by (nonlinear_arith);
    assert(a * ((4 as real) * b) == (4 as real) * (a * b)) by (nonlinear_arith);
    assert(((4 as real) * a) * ((4 as real) * b) == (16 as real) * (a * b)) by (nonlinear_arith);
    assert((5 as real - a) * b == (5 as real) * b - a * b) by (nonlinear_arith);
}

/// Where a position lies.
proof fn lemma_place<T: Analytic>(
    v: spec_fn(T) -> real,
    o: int,
    len: int,
    m: int,
    offset: T,
    s: real,
)
    requires
        faithful_rounding(v),
        0 <= o <= usize::MAX,
        0 <= len <= usize::MAX,
        1 <= m <= i32::MAX,
        len as real + v(offset) != 0 as real,
        lies_at(o, len, m, v(offset), s),
    ensures
        v(source_place(o, len, m, offset)) == s,
{
    let g = len as real + v(offset);
    let wide = T::from_count_spec(m as usize);
    let scale = T::from_count_spec(len as usize).plus_spec(offset).over_spec(wide);
    let half = T::ratio_spec(1, 2);
    let h = v(half);
    lemma_prod(h, 2 as real);
    lemma_prod_two(h);
    assert(prod(h, 2u32 as int as real) == 1 as real);
    let at = T::from_count_spec(o as usize).plus_spec(half);
    let x = at.over_spec(scale);
    let (c, k) = (v(scale), m as real);
    assert(prod(c, k) == g);
    lemma_prod(k, 0 as real);
    lemma_prod(c, k);
    assert(c != 0 as real);
    let y = v(x);
    assert(prod(y, c) == o as real + h);
    lemma_prod_regroup(y, c, k);
    assert(prod(y, g) == prod(o as real + h, k));
    lemma_prod_plus(k, o as real + h, o as real + h);
    lemma_prod_plus(g, y, y);
    assert((2 * o + 1) as real == (o as real + h) + (o as real + h));
    assert(prod(y + y, g) == prod(s + s + 1 as real, g));
    lemma_prod(g, y + y);
    lemma_prod(g, s + s + 1 as real);
    lemma_prod_cancel(g, y + y, s + s + 1 as real);
}

/// The whole number before a place.
proof fn lemma_index<T: Analytic>(v: spec_fn(T) -> real, place: T, f: int)
    requires
        faithful_rounding(v),
        just_before(f, v(place)),
    ensures
        source_index(place) == f,
{
    lemma_whole::<T>(v, 0);
    assert(rounds_to(v, place, f));
    let low = place.rounded_down_spec();
    let x = if f < 0 {
        low.negated_spec()
    } else {
        low
    };
    let g = if f < 0 {
        -f
    } else {
        f
    };
    assert(v(x) == g as real);
    let n = x.floor_count_spec();
    assert(n as int == g) by {
        assert(n as int as real <= g as real);
        assert((g as real) < n as int as real + 1 as real);
    }
    assert(low.less_spec(T::ratio_spec(0, 1)) == (f < 0));
}

/// The cubic kernel over the reals.
proof fn lemma_cubic<T: Analytic>(v: spec_fn(T) -> real, x: T)
    requires
        faithful_rounding(v),
    ensures
        (4 as real) * v(cubic_of(x)) == kernel_4(v(x)),
{
    lemma_whole::<T>(v, 0);
    lemma_whole::<T>(v, 1);
    lemma_whole::<T>(v, 2);
    lemma_whole::<T>(v, 4);
    lemma_whole::<T>(v, 5);
    lemma_whole::<T>(v, 8);
    let m = x.magnitude_spec();
    let a = v(m);
    let square = prod(a, a);
    let cube = prod(a, square);
    if a < 1 as real {
        let (p, q) = (T::ratio_spec(5, 4), T::ratio_spec(9, 4));
        lemma_quarters(v(p));
        lemma_quarters(v(q));
        assert(prod(v(p), 4u32 as int as real) == 5 as real);
        assert(prod(v(q), 4u32 as int as real) == 9 as real);
        let y = prod(v(p), a) - v(q);
        lemma_four_times(v(p), a);
        lemma_quarters(a);
        assert((4 as real) * y == (5 as real) * a - 9 as real);
        let z = prod(prod(y, a), a);
        lemma_prod_regroup(y, a, a);
        lemma_four_times(y, square);
        lemma_prod_plus(square, (5 as real) * a, 9 as real);
        lemma_quarters(square);
        lemma_prod_regroup(5 as real, a, square);
        lemma_quarters(cube);
        assert((4 as real) * z == (5 as real) * cube - (9 as real) * square);
    } else if a < 2 as real {
        let c = T::ratio_spec((-3) as i32, 4);
        lemma_quarters(v(c));
        assert(prod(v(c), 4u32 as int as real) == -(3 as real));
        let y = prod(a - 5 as real, a) + 8 as real;
        lemma_prod_plus(a, a, 5 as real);
        lemma_quarters(a);
        let z = prod(y, a) - 4 as real;
        lemma_prod_plus(a, square - (5 as real) * a, 8 as real);
        lemma_prod_plus(a, square, (5 as real) * a);
        lemma_prod(square, a);
        lemma_prod_regroup(5 as real, a, a);
        lemma_quarters(square);
        assert(z == cube - (5 as real) * square + (8 as real) * a - 4 as real);
        lemma_four_times(v(c), z);
        lemma_three(z);
    }
}

/// Minus three times.
proof fn lemma_three(z: real)
    ensures
        prod(-(3 as real), z) == -((3 as real) * z),
{
    reveal(prod);
}

/// The weight of a neighbour.
proof fn lemma_weight<T: Analytic>(v: spec_fn(T) -> real, place: T, f: int, a: int)
    requires
        faithful_rounding(v),
        just_before(f, v(place)),
        0 <= a < 4,
    ensures
        (4 as real) * v(source_weight(place, a)) == weight_4(v(place), f, a),
{
    lemma_index(v, place, f);
    lemma_whole::<T>(v, (a - 1) as i32);
    assert(v(from_int::<T>(f)) == f as real);
    let x = place.minus_spec(from_int(source_index(place))).minus_spec(
        T::ratio_spec((a - 1) as i32, 1),
    );
    assert(v(x) == v(place) - (f - 1 + a) as real);
    lemma_cubic(v, x);
}

/// One of the sixteen stored values, weighted, times sixteen.
spec fn share_16<T>(
    v: spec_fn(T) -> real,
    pe: Seq<T>,
    embed: int,
    m: int,
    ch: int,
    sy: real,
    fy: int,
    sx: real,
    fx: int,
    a: int,
    b: int,
) -> real {
    prod(
        weight_4(sy, fy, a),
        prod(
            weight_4(sx, fx, b),
            stored(v, pe, embed, m, ch, nearest(fy - 1 + a, m), nearest(fx - 1 + b, m)),
        ),
    )
}

/// One more of the sixteen.
proof fn lemma_blend<T: Analytic>(
    v: spec_fn(T) -> real,
    pe: Seq<T>,
    embed: int,
    m: int,
    py: T,
    px: T,
    ch: int,
    fy: int,
    fx: int,
    t: nat,
)
    requires
        faithful_rounding(v),
        just_before(fy, v(py)),
        just_before(fx, v(px)),
        t < 16,
    ensures
        (16 as real) * v(blended(pe, embed, m, py, px, ch, t + 1)) == (16 as real) * v(
            blended(pe, embed, m, py, px, ch, t),
        ) + share_16(v, pe, embed, m, ch, v(py), fy, v(px), fx, t as int / 4, t as int % 4),
{
    lemma_whole::<T>(v, 0);
    let (a, b) = (t as int / 4, t as int % 4);
    lemma_weight(v, py, fy, a);
    lemma_weight(v, px, fx, b);
    lemma_index(v, py, fy);
    lemma_index(v, px, fx);
    let (wy, wx) = (source_weight(py, a), source_weight(px, b));
    let e = stored(v, pe, embed, m, ch, nearest(fy - 1 + a, m), nearest(fx - 1 + b, m));
    assert(neighbour(py, a, m) == nearest(fy - 1 + a, m));
    assert(neighbour(px, b, m) == nearest(fx - 1 + b, m));
    let (y, x) = (v(wy), v(wx));
    lemma_four_times(x, e);
    lemma_four_times(y, prod(x, e));
    lemma_prod_regroup(y, x, e);
    lemma_prod(e, 0 as real);
    lemma_prod(0 as real, e);
    lemma_prod(prod(x, e), 0 as real);
    lemma_prod(0 as real, prod(x, e));
    lemma_prod(y, 0 as real);
    assert((t + 1 - 1) as nat == t);
    assert(blended(pe, embed, m, py, px, ch, t + 1) == (if wy.same_spec(T::ratio_spec(0, 1))
        || wx.same_spec(T::ratio_spec(0, 1)) {
        blended(pe, embed, m, py, px, ch, t)
    } else {
        blended(pe, embed, m, py, px, ch, t).plus_spec(
            wy.times_spec(wx).times_spec(
                pe[(1 + neighbour(py, a, m) * m + neighbour(px, b, m)) * embed + ch],
            ),
        )
    }));
}

/// A factor over a sum of four.
proof fn lemma_over_four(c: real, a: real, b: real, d: real, e: real)
    ensures
        prod(c, a + b + d + e) == prod(c, a) + prod(c, b) + prod(c, d) + prod(c, e),
{
    lemma_prod_plus(c, a + b + d, e);
    lemma_prod_plus(c, a + b, d);
    lemma_prod_plus(c, a, b);
}

/// The sixteen, row by row.
proof fn lemma_sixteen<T: Analytic>(
    v: spec_fn(T) -> real,
    pe: Seq<T>,
    embed: int,
    m: int,
    py: T,
    px: T,
    ch: int,
    fy: int,
    fx: int,
)
    requires
        faithful_rounding(v),
        just_before(fy, v(py)),
        just_before(fx, v(px)),
    ensures
        (16 as real) * v(blended(pe, embed, m, py, px, ch, 16)) == sampled_16(
            v,
            pe,
            embed,
            m,
            ch,
            v(py),
            fy,
            v(px),
            fx,
        ),
{
    lemma_whole::<T>(v, 0);
    let p = |t: nat| (16 as real) * v(blended(pe, embed, m, py, px, ch, t));
    let q = |a: int, b: int| share_16(v, pe, embed, m, ch, v(py), fy, v(px), fx, a, b);
    assert(p(0) == 0 as real);
    assert forall|t: nat| t < 16 implies #[trigger] p(t) + q(t as int / 4, t as int % 4) == p(t + 1) by {
        lemma_blend(v, pe, embed, m, py, px, ch, fy, fx, t);
    }
    assert(p(0) + q(0, 0) == p(1));
    assert(p(1) + q(0, 1) == p(2));
    assert(p(2) + q(0, 2) == p(3));
    assert(p(3) + q(0, 3) == p(4));
    assert(p(4) + q(1, 0) == p(5));
    assert(p(5) + q(1, 1) == p(6));
    assert(p(6) + q(1, 2) == p(7));
    assert(p(7) + q(1, 3) == p(8));
    assert(p(8) + q(2, 0) == p(9));
    assert(p(9) + q(2, 1) == p(10));
    assert(p(10) + q(2, 2) == p(11));
    assert(p(11) + q(2, 3) == p(12));
    assert(p(12) + q(3, 0) == p(13));
    assert(p(13) + q(3, 1) == p(14));
    assert(p(14) + q(3, 2) == p(15));
    assert(p(15) + q(3, 3) == p(16));
    assert forall|a: int| 0 <= a < 4 implies #[trigger] q(a, 0) + q(a, 1) + q(a, 2) + q(a, 3)
        == prod(
        weight_4(v(py), fy, a),
        along_4(v, pe, embed, m, ch, nearest(fy - 1 + a, m), v(px), fx),
    ) by {
        let g = |b: int|
            prod(
                weight_4(v(px), fx, b),
                stored(v, pe, embed, m, ch, nearest(fy - 1 + a, m), nearest(fx - 1 + b, m)),
            );
        lemma_over_four(weight_4(v(py), fy, a), g(0), g(1), g(2), g(3));
    }
    assert(q(0, 0) + q(0, 1) + q(0, 2) + q(0, 3) == prod(
        weight_4(v(py), fy, 0),
        along_4(v, pe, embed, m, ch, nearest(fy - 1 + 0, m), v(px), fx),
    ));
    assert(q(1, 0) + q(1, 1) + q(1, 2) + q(1, 3) == prod(
        weight_4(v(py), fy, 1),
        along_4(v, pe, embed, m, ch, nearest(fy - 1 + 1, m), v(px), fx),
    ));
    assert(q(2, 0) + q(2, 1) + q(2, 2) + q(2, 3) == prod(
        weight_4(v(py), fy, 2),
        along_4(v, pe, embed, m, ch, nearest(fy - 1 + 2, m), v(px), fx),
    ));
    assert(q(3, 0) + q(3, 1) + q(3, 2) + q(3, 3) == prod(
        weight_4(v(py), fy, 3),
        along_4(v, pe, embed, m, ch, nearest(fy - 1 + 3, m), v(px), fx),
    ));
}

/// What channel `ch` of row `oy`, column `ox` is: the stored grid at the place where
/// the patch lies, row `oy` of `gh` along the stored rows and column `ox` of `gw` along
/// the stored columns, by cubic convolution of the four nearest each way. The first
/// embedding, which is of no patch, stays.
pub proof fn law_resampled<T: Analytic>(
    v: spec_fn(T) -> real,
    pe: Seq<T>,
    embed: int,
    m: int,
    gh: int,
    gw: int,
    offset: T,
    oy: int,
    ox: int,
    ch: int,
    sy: real,
    fy: int,
    sx: real,
    fx: int,
)
    requires
        faithful_rounding(v),
        0 < embed,
        1 <= m <= i32::MAX,
        gh <= usize::MAX,
        gw <= usize::MAX,
        0 <= oy < gh,
        0 <= ox < gw,
        0 <= ch < embed,
        gh as real + v(offset) != 0 as real,
        gw as real + v(offset) != 0 as real,
        lies_at(oy, gh, m, v(offset), sy),
        lies_at(ox, gw, m, v(offset), sx),
        just_before(fy, sy),
        just_before(fx, sx),
    ensures
        interpolated(pe, embed, m, gh, gw, offset).len() == (1 + gh * gw) * embed,
        interpolated(pe, embed, m, gh, gw, offset)[ch] == pe[ch],
        0 <= (1 + oy * gw + ox) * embed + ch < (1 + gh * gw) * embed,
        (16 as real) * v(
            interpolated(pe, embed, m, gh, gw, offset)[(1 + oy * gw + ox) * embed + ch],
        ) == sampled_16(v, pe, embed, m, ch, sy, fy, sx, fx),
{
    lemma_within(oy, gh, ox, gw);
    lemma_split(oy, gw, ox);
    let row = 1 + oy * gw + ox;
    lemma_within(row, 1 + gh * gw, ch, embed);
    lemma_split(row, embed, ch);
    lemma_within(0, 1 + gh * gw, ch, embed);
    let p = row * embed + ch;
    assert(p >= embed) by (nonlinear_arith)
        requires
            p == row * embed + ch,
            row >= 1,
            embed > 0,
            ch >= 0,
    ;
    assert(gh * gw >= 0) by (nonlinear_arith)
        requires
            gh >= 0,
            gw >= 0,
    ;
    assert((1 + gh * gw) * embed >= 0) by (nonlinear_arith)
        requires
            gh * gw >= 0,
            embed > 0,
    ;
    assert(interpolated(pe, embed, m, gh, gw, offset)[p] == embed_at(
        pe,
        embed,
        m,
        gh,
        gw,
        offset,
        p,
    ));
    let (py, px) = (source_place(oy, gh, m, offset), source_place(ox, gw, m, offset));
    lemma_place(v, oy, gh, m, offset, sy);
    lemma_place(v, ox, gw, m, offset, sx);
    lemma_sixteen(v, pe, embed, m, py, px, ch, fy, fx);
}

// ---- what follows -----------------------------------------------------------------

/// The cube of a number and one.
proof fn lemma_shifted(t: real)
    ensures
        prod(t + 1 as real, t + 1 as real) == prod(t, t) + t + t + 1 as real,
        prod(t + 1 as real, prod(t + 1 as real, t + 1 as real)) == prod(t, prod(t, t)) + (3 as real)
            * prod(t, t) + (3 as real) * t + 1 as real,
{
    let u = t + 1 as real;
    let s = prod(t, t);
    lemma_prod_plus(u, t, 1 as real);
    lemma_prod_plus(t, t, 1 as real);
    lemma_prod(t, 1 as real);
    lemma_prod(1 as real, t);
    lemma_prod(u, 1 as real);
    let q = s + t + t + 1 as real;
    assert(prod(u, u) == q);
    lemma_prod_plus(q, t, 1 as real);
    lemma_prod(q, 1 as real);
    lemma_prod_plus(t, s + t + t, 1 as real);
    lemma_prod_plus(t, s + t, t);
    lemma_prod_plus(t, s, t);
}

/// The four weights add up to one.
proof fn lemma_weights(s: real, f: int)
    requires
        just_before(f, s),
    ensures
        weight_4(s, f, 0) + weight_4(s, f, 1) + weight_4(s, f, 2) + weight_4(s, f, 3)
            == 4 as real,
{
    let t = s - f as real;
    let r = 1 as real - t;
    lemma_shifted(t);
    lemma_shifted(r);
    let n = -t;
    lemma_shifted(n);
    lemma_prod(t, t);
    assert(prod(n, n) == prod(t, t));
    lemma_prod(t, prod(t, t));
    assert(prod(n, prod(n, n)) == -prod(t, prod(t, t)));
    assert(r == n + 1 as real);
    assert(s - (f - 1) as real == t + 1 as real);
    assert(s - (f + 1) as real == -r);
    assert(s - (f + 2) as real == -(r + 1 as real));
    if t == 0 as real {
        lemma_prod(0 as real, 0 as real);
        lemma_prod(1 as real, 1 as real);
    }
}

/// A stored grid that is the same in every column is sampled along its rows only: the
/// result depends on the row and the number of rows, not on the column or the number
/// of columns.
pub proof fn law_equal_columns<T: Analytic>(
    v: spec_fn(T) -> real,
    pe: Seq<T>,
    embed: int,
    m: int,
    ch: int,
    tab: spec_fn(int) -> real,
    sy: real,
    fy: int,
    sx: real,
    fx: int,
)
    requires
        1 <= m,
        just_before(fx, sx),
        forall|r: int, c: int|
            0 <= r < m && 0 <= c < m ==> #[trigger] stored(v, pe, embed, m, ch, r, c) == tab(r),
    ensures
        sampled_16(v, pe, embed, m, ch, sy, fy, sx, fx) == (4 as real) * four(
            |a: int| prod(weight_4(sy, fy, a), tab(nearest(fy - 1 + a, m))),
        ),
{
    lemma_weights(sx, fx);
    assert forall|a: int| 0 <= a < 4 implies #[trigger] along_4(
        v,
        pe,
        embed,
        m,
        ch,
        nearest(fy - 1 + a, m),
        sx,
        fx,
    ) == (4 as real) * tab(nearest(fy - 1 + a, m)) by {
        let e = tab(nearest(fy - 1 + a, m));
        let w = |b: int| weight_4(sx, fx, b);
        lemma_over_four(e, w(0), w(1), w(2), w(3));
        lemma_prod(e, w(0));
        lemma_prod(e, w(1));
        lemma_prod(e, w(2));
        lemma_prod(e, w(3));
        lemma_quarters(e);
    }
    let g = |a: int|
        prod(
            weight_4(sy, fy, a),
            along_4(v, pe, embed, m, ch, nearest(fy - 1 + a, m), sx, fx),
        );
    let h = |a: int| prod(weight_4(sy, fy, a), tab(nearest(fy - 1 + a, m)));
    assert forall|a: int| 0 <= a < 4 implies #[trigger] g(a) == (4 as real) * h(a) by {
        lemma_four_times(weight_4(sy, fy, a), tab(nearest(fy - 1 + a, m)));
        assert(along_4(v, pe, embed, m, ch, nearest(fy - 1 + a, m), sx, fx) == (4 as real) * tab(
            nearest(fy - 1 + a, m),
        ));
    }
    assert(g(0) == (4 as real) * h(0));
    assert(g(1) == (4 as real) * h(1));
    assert(g(2) == (4 as real) * h(2));
    assert(g(3) == (4 as real) * h(3));
}

/// A stored grid that is the same in every row is sampled along its columns only.
pub proof fn law_equal_rows<T: Analytic>(
    v: spec_fn(T) -> real,
    pe: Seq<T>,
    embed: int,
    m: int,
    ch: int,
    tab: spec_fn(int) -> real,
    sy: real,
    fy: int,
    sx: real,
    fx: int,
)
    requires
        1 <= m,
        just_before(fy, sy),
        forall|r: int, c: int|
            0 <= r < m && 0 <= c < m ==> #[trigger] stored(v, pe, embed, m, ch, r, c) == tab(c),
    ensures
        sampled_16(v, pe, embed, m, ch, sy, fy, sx, fx) == (4 as real) * four(
            |b: int| prod(weight_4(sx, fx, b), tab(nearest(fx - 1 + b, m))),
        ),
{
    lemma_weights(sy, fy);
    let h = |b: int| prod(weight_4(sx, fx, b), tab(nearest(fx - 1 + b, m)));
    let e = four(h);
    assert forall|a: int| 0 <= a < 4 implies #[trigger] along_4(
        v,
        pe,
        embed,
        m,
        ch,
        nearest(fy - 1 + a, m),
        sx,
        fx,
    ) == e by {
        let r = nearest(fy - 1 + a, m);
        assert(stored(v, pe, embed, m, ch, r, nearest(fx - 1 + 0, m)) == tab(nearest(fx - 1 + 0, m)));
        assert(stored(v, pe, embed, m, ch, r, nearest(fx - 1 + 1, m)) == tab(nearest(fx - 1 + 1, m)));
        assert(stored(v, pe, embed, m, ch, r, nearest(fx - 1 + 2, m)) == tab(nearest(fx - 1 + 2, m)));
        assert(stored(v, pe, embed, m, ch, r, nearest(fx - 1 + 3, m)) == tab(nearest(fx - 1 + 3, m)));
    }
    let w = |a: int| weight_4(sy, fy, a);
    let g = |a: int|
        prod(
            weight_4(sy, fy, a),
            along_4(v, pe, embed, m, ch, nearest(fy - 1 + a, m), sx, fx),
        );
    assert forall|a: int| 0 <= a < 4 implies #[trigger] g(a) == prod(w(a), e) by {
        assert(along_4(v, pe, embed, m, ch, nearest(fy - 1 + a, m), sx, fx) == e);
    }
    assert(g(0) == prod(w(0), e));
    assert(g(1) == prod(w(1), e));
    assert(g(2) == prod(w(2), e));
    assert(g(3) == prod(w(3), e));
    lemma_over_four(e, w(0), w(1), w(2), w(3));
    lemma_prod(e, w(0));
    lemma_prod(e, w(1));
    lemma_prod(e, w(2));
    lemma_prod(e, w(3));
    lemma_quarters(e);
}

/// Embeddings that depend on the stored row alone are, in row `oy` of `gh`, the same in
/// every column of a grid of any width.
pub proof fn law_columns_do_not_matter<T: Analytic>(
    v: spec_fn(T) -> real,
    pe: Seq<T>,
    embed: int,
    m: int,
    gh: int,
    gw: int,
    gw2: int,
    offset: T,
    oy: int,
    ox: int,
    ox2: int,
    ch: int,
    sy: real,
    fy: int,
    sx: real,
    fx: int,
    sx2: real,
    fx2: int,
)
    requires
        faithful_rounding(v),
        0 < embed,
        1 <= m <= i32::MAX,
        gh <= usize::MAX,
        gw <= usize::MAX,
        gw2 <= usize::MAX,
        0 <= oy < gh,
        0 <= ox < gw,
        0 <= ox2 < gw2,
        0 <= ch < embed,
        gh as real + v(offset) != 0 as real,
        gw as real + v(offset) != 0 as real,
        gw2 as real + v(offset) != 0 as real,
        lies_at(oy, gh, m, v(offset), sy),
        lies_at(ox, gw, m, v(offset), sx),
        lies_at(ox2, gw2, m, v(offset), sx2),
        just_before(fy, sy),
        just_before(fx, sx),
        just_before(fx2, sx2),
        forall|r: int, c: int|
            0 <= r < m && 0 <= c < m ==> #[trigger] stored(v, pe, embed, m, ch, r, c) == stored(
                v,
                pe,
                embed,
                m,
                ch,
                r,
                0,
            ),
    ensures
        v(interpolated(pe, embed, m, gh, gw, offset)[(1 + oy * gw + ox) * embed + ch]) == v(
            interpolated(pe, embed, m, gh, gw2, offset)[(1 + oy * gw2 + ox2) * embed + ch],
        ),
{
    let tab = |r: int| stored(v, pe, embed, m, ch, r, 0);
    law_resampled(v, pe, embed, m, gh, gw, offset, oy, ox, ch, sy, fy, sx, fx);
    law_resampled(v, pe, embed, m, gh, gw2, offset, oy, ox2, ch, sy, fy, sx2, fx2);
    law_equal_columns(v, pe, embed, m, ch, tab, sy, fy, sx, fx);
    law_equal_columns(v, pe, embed, m, ch, tab, sy, fy, sx2, fx2);
}

/// Embeddings that depend on the stored column alone are, in column `ox` of `gw`, the
/// same in every row of a grid of any height.
pub proof fn law_rows_do_not_matter<T: Analytic>(
    v: spec_fn(T) -> real,
    pe: Seq<T>,
    embed: int,
    m: int,
    gh: int,
    gh2: int,
    gw: int,
    offset: T,
    oy: int,
    oy2: int,
    ox: int,
    ch: int,
    sy: real,
    fy: int,
    sy2: real,
    fy2: int,
    sx: real,
    fx: int,
)
    requires
        faithful_rounding(v),
        0 < embed,
        1 <= m <= i32::MAX,
        gh <= usize::MAX,
        gh2 <= usize::MAX,
        gw <= usize::MAX,
        0 <= oy < gh,
        0 <= oy2 < gh2,
        0 <= ox < gw,
        0 <= ch < embed,
        gh as real + v(offset) != 0 as real,
        gh2 as real + v(offset) != 0 as real,
        gw as real + v(offset) != 0 as real,
        lies_at(oy, gh, m, v(offset), sy),
        lies_at(oy2, gh2, m, v(offset), sy2),
        lies_at(ox, gw, m, v(offset), sx),
        just_before(fy, sy),
        just_before(fy2, sy2),
        just_before(fx, sx),
        forall|r: int, c: int|
            0 <= r < m && 0 <= c < m ==> #[trigger] stored(v, pe, embed, m, ch, r, c) == stored(
                v,
                pe,
                embed,
                m,
                ch,
                0,
                c,
            ),
    ensures
        v(interpolated(pe, embed, m, gh, gw, offset)[(1 + oy * gw + ox) * embed + ch]) == v(
            interpolated(pe, embed, m, gh2, gw, offset)[(1 + oy2 * gw + ox) * embed + ch],
        ),
{
    let tab = |c: int| stored(v, pe, embed, m, ch, 0, c);
    law_resampled(v, pe, embed, m, gh, gw, offset, oy, ox, ch, sy, fy, sx, fx);
    law_resampled(v, pe, embed, m, gh2, gw, offset, oy2, ox, ch, sy2, fy2, sx, fx);
    law_equal_rows(v, pe, embed, m, ch, tab, sy, fy, sx, fx);
    law_equal_rows(v, pe, embed, m, ch, tab, sy2, fy2, sx, fx);
}

} // verus!
