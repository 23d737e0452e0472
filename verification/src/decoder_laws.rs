//! What the decoder computes, where arithmetic is exact and convolutions are direct.

use crate::dpt_head::plain_options;
use crate::fast_conv::{
    batch_input, conv1x1_at, conv3x3_at, corner_scale, direct_at, direct_term, image, patch_entry,
    tap_at, upsampled, Input,
};
use crate::fast_dpt::{
    conv1x1_of, conv3x3_of, conv_t_at, conv_t_of, conv_t_term, depth_of, fusion_of, lateral_of,
    output_map_of, pyramid_of, sky_of, stride2_of, sum_of, transposed, unit_of, upsampled_of,
    Conv1x1W, Conv3x3W, ConvTransposeW, FastDptHead, FusionW, Planes, ResConvUnitW,
};
use crate::index::{lemma_split, lemma_within};
use crate::layer_laws::cut_off;
use crate::norm::layernorm_rows_of;
use crate::reals::{
    faithful, in_rows, lemma_accumulate, lemma_prod, lemma_prod_cancel, lemma_prod_plus,
    lemma_prod_regroup, lemma_prod_sign, lemma_sum_agree, lemma_sum_rows, lemma_whole, prod, sum,
};
use crate::scalar::{Analytic, Scalar};
use crate::sort::faithful_floors;
use crate::tinyblas::gemm_term;
use vstd::prelude::*;

verus! {

/// Row `y`, column `x` of channel `ch` of a map.
pub open spec fn seen<T>(v: spec_fn(T) -> real, p: Planes<T>, ch: int, y: int, x: int) -> real {
    v(p.data[(ch * p.h + y) * p.w + x])
}

/// A map has its size and shows the picture `m`.
pub open spec fn shows<T>(
    v: spec_fn(T) -> real,
    p: Planes<T>,
    m: spec_fn(int, int, int) -> real,
) -> bool {
    &&& 0 <= p.c && 0 < p.h && 0 < p.w
    &&& p.data.len() == p.c * (p.h * p.w)
    &&& forall|ch: int, y: int, x: int|
        0 <= ch < p.c && 0 <= y < p.h && 0 <= x < p.w ==> #[trigger] seen(v, p, ch, y, x) == m(
            ch,
            y,
            x,
        )
}

/// A picture that is zero outside its frame.
pub open spec fn framed(
    m: spec_fn(int, int, int) -> real,
    h: int,
    w: int,
    ch: int,
    y: int,
    x: int,
) -> real {
    if 0 <= y < h && 0 <= x < w {
        m(ch, y, x)
    } else {
        0 as real
    }
}

/// The weight of input channel `i` for output channel `o` at row `ky`, column `kx` of a
/// 3x3 filter.
pub open spec fn tap<T>(
    v: spec_fn(T) -> real,
    w: Conv3x3W<T>,
    o: int,
    i: int,
    ky: int,
    kx: int,
) -> real {
    v(w.weight@[((o * w.ic + i) * 3 + ky) * 3 + kx])
}

/// One row of a filter over the pixels around row `y`, column `x`.
pub open spec fn tap_row<T>(
    v: spec_fn(T) -> real,
    w: Conv3x3W<T>,
    m: spec_fn(int, int, int) -> real,
    h: int,
    wid: int,
    o: int,
    i: int,
    ky: int,
    y: int,
    x: int,
) -> real {
    sum(
        |kx: int|
            prod(tap(v, w, o, i, ky, kx), framed(m, h, wid, i, y + ky - 1, x + kx - 1)),
        3,
    )
}

/// One channel of a filter over the pixels around row `y`, column `x`.
pub open spec fn tap_square<T>(
    v: spec_fn(T) -> real,
    w: Conv3x3W<T>,
    m: spec_fn(int, int, int) -> real,
    h: int,
    wid: int,
    o: int,
    i: int,
    y: int,
    x: int,
) -> real {
    sum(|ky: int| tap_row(v, w, m, h, wid, o, i, ky, y, x), 3)
}

/// The 3x3 convolution of a picture of `h` by `wid`, each output pixel `stride` pixels on
/// from the one before.
pub open spec fn convolved<T>(
    v: spec_fn(T) -> real,
    w: Conv3x3W<T>,
    m: spec_fn(int, int, int) -> real,
    h: int,
    wid: int,
    stride: int,
) -> spec_fn(int, int, int) -> real {
    |o: int, y: int, x: int|
        v(w.bias@[o]) + sum(
            |i: int| tap_square(v, w, m, h, wid, o, i, stride * y, stride * x),
            w.ic as nat,
        )
}

/// A picture without its negative parts.
pub open spec fn cut(m: spec_fn(int, int, int) -> real) -> spec_fn(int, int, int) -> real {
    |ch: int, y: int, x: int| cut_off(m(ch, y, x))
}

/// Two pictures added.
pub open spec fn together(
    a: spec_fn(int, int, int) -> real,
    b: spec_fn(int, int, int) -> real,
) -> spec_fn(int, int, int) -> real {
    |ch: int, y: int, x: int| a(ch, y, x) + b(ch, y, x)
}

/// Where a pixel stands.
pub proof fn lemma_place(c: int, h: int, w: int, ch: int, y: int, x: int)
    requires
        0 <= ch < c,
        0 <= y < h,
        0 <= x < w,
    ensures
        ({
            let p = (ch * h + y) * w + x;
            let hw = h * w;
            &&& p == ch * hw + (y * w + x)
            &&& 0 <= p < c * hw
            &&& p / hw == ch
            &&& p % hw == y * w + x
            &&& (y * w + x) / w == y
            &&& (y * w + x) % w == x
            &&& 0 <= y * w + x < hw
            &&& p % (c * hw) == p
            &&& p / (c * hw) == 0
        }),
{
    lemma_within(y, h, x, w);
    lemma_split(y, w, x);
    let hw = h * w;
    let q = y * w + x;
    lemma_within(ch, c, q, hw);
    lemma_split(ch, hw, q);
    assert((ch * h + y) * w + x == ch * (h * w) + (y * w + x)) by (nonlinear_arith);
    let p = ch * hw + q;
    vstd::arithmetic::div_mod::lemma_small_mod(p as nat, (c * hw) as nat);
    vstd::arithmetic::div_mod::lemma_basic_div(p, c * hw);
}

/// A direct convolution at one pixel.
proof fn lemma_direct<T: Scalar>(
    v: spec_fn(T) -> real,
    w: Conv3x3W<T>,
    p: Planes<T>,
    relu: bool,
    m: spec_fn(int, int, int) -> real,
    stride: int,
    hout: int,
    wout: int,
    o: int,
    y: int,
    x: int,
)
    requires
        faithful(v),
        shows(v, p, m),
        p.c == w.ic,
        0 <= o < w.oc,
        0 <= y < hout,
        0 <= x < wout,
    ensures
        v(
            direct_at(
                Input { data: p.data, h: p.h, w: p.w, relu, up: None, add: None },
                w.weight@,
                w.bias@,
                w.ic as int,
                stride,
                hout,
                wout,
                (o * hout + y) * wout + x,
            ),
        ) == convolved(
            v,
            w,
            if relu {
                cut(m)
            } else {
                m
            },
            p.h,
            p.w,
            stride,
        )(o, y, x),
{
    lemma_whole::<T>(v, 0);
    let ic = w.ic as int;
    let input = Input { data: p.data, h: p.h, w: p.w, relu, up: None, add: None };
    let mm = if relu {
        cut(m)
    } else {
        m
    };
    lemma_place(w.oc as int, hout, wout, o, y, x);
    let q = (o * hout + y) * wout + x;
    let g = direct_term(input, w.weight@, ic, stride, wout, o, y * wout + x);
    lemma_accumulate(v, w.bias@[o], g, (ic * 9) as nat);
    let f = |t: int| v(g(t));
    lemma_sum_rows(f, ic as nat, 9);
    let (yy, xx) = (stride * y, stride * x);
    let by_channel = |i: int| tap_square(v, w, mm, p.h, p.w, o, i, yy, xx);
    assert forall|i: int| 0 <= i < ic implies #[trigger] in_rows(f, 9)(i) == by_channel(i) by {
        let fi = |j: int| f(i * 9 + j);
        lemma_sum_rows(fi, 3, 3);
        let by_row = |ky: int| tap_row(v, w, mm, p.h, p.w, o, i, ky, yy, xx);
        assert forall|ky: int| 0 <= ky < 3 implies #[trigger] in_rows(fi, 3)(ky) == by_row(ky) by {
            let by_tap = |kx: int|
                prod(
                    tap(v, w, o, i, ky, kx),
                    framed(mm, p.h, p.w, i, yy + ky - 1, xx + kx - 1),
                );
            let fk = |kx: int| fi(ky * 3 + kx);
            assert forall|kx: int| 0 <= kx < 3 implies #[trigger] fk(kx) == by_tap(kx) by {
                let t = i * 9 + (ky * 3 + kx);
                assert(t / 9 == i && (t / 3) % 3 == ky && t % 3 == kx);
                assert(o * (ic * 9) + t == ((o * ic + i) * 3 + ky) * 3 + kx) by (nonlinear_arith)
                    requires
                        t == i * 9 + (ky * 3 + kx),
                ;
                let e = patch_entry(input, stride, wout, t, y * wout + x);
                let (a, b) = (yy + ky - 1, xx + kx - 1);
                assert(e == input.at(i, a, b));
                if 0 <= a < p.h && 0 <= b < p.w {
                    assert(seen(v, p, i, a, b) == m(i, a, b));
                }
            }
            lemma_sum_agree(fk, by_tap, 3);
            lemma_sum_agree(|kx: int| fi(ky * 3 + kx), fk, 3);
        }
        lemma_sum_agree(in_rows(fi, 3), by_row, 3);
        lemma_sum_agree(|j: int| f(i * 9 + j), fi, 9);
    }
    lemma_sum_agree(in_rows(f, 9), by_channel, ic as nat);
    lemma_sum_agree(|i: int| v(g(i)), f, (ic * 9) as nat);
    lemma_sum_agree(
        |i: int| tap_square(v, w, mm, p.h, p.w, o, i, stride * y, stride * x),
        by_channel,
        ic as nat,
    );
}

/// A 3x3 convolution adds, for every channel and every pixel, the bias and the filter's
/// weights times the pixels under them: row 0, column 0 of the filter lies up and to the
/// left, and pixels outside count as zero. Its input is cut off at zero first, a map
/// added and the result cut off, where that is asked for.
pub proof fn law_convolution<T: Scalar>(
    v: spec_fn(T) -> real,
    w: Conv3x3W<T>,
    p: Planes<T>,
    relu_in: bool,
    residual: Option<Seq<T>>,
    relu_out: bool,
    m: spec_fn(int, int, int) -> real,
    added: spec_fn(int, int, int) -> real,
)
    requires
        faithful(v),
        shows(v, p, m),
        p.c == w.ic,
        1 <= w.ic,
        w.bias.len() == w.oc,
        residual matches Some(r) ==> shows(
            v,
            (Planes { data: r, c: w.oc as int, h: p.h, w: p.w }),
            added,
        ),
    ensures
        ({
            let r = conv3x3_of(plain_options().conv, w, p, relu_in, residual, relu_out);
            let c = convolved(
                v,
                w,
                if relu_in {
                    cut(m)
                } else {
                    m
                },
                p.h,
                p.w,
                1,
            );
            let s = if residual is Some {
                together(c, added)
            } else {
                c
            };
            &&& r.c == w.oc && r.h == p.h && r.w == p.w
            &&& relu_out ==> shows(v, r, cut(s))
            &&& !relu_out ==> shows(v, r, s)
        }),
{
    lemma_whole::<T>(v, 0);
    let opts = plain_options().conv;
    let r = conv3x3_of(opts, w, p, relu_in, residual, relu_out);
    let (h, wid) = (p.h, p.w);
    let hw = h * wid;
    let c = convolved(
        v,
        w,
        if relu_in {
            cut(m)
        } else {
            m
        },
        h,
        wid,
        1,
    );
    assert(0 < hw) by (nonlinear_arith)
        requires
            0 < h,
            0 < wid,
            hw == h * wid,
    ;
    assert(0 <= w.oc * hw) by (nonlinear_arith)
        requires
            0 <= w.oc,
            0 < hw,
    ;
    assert forall|o: int, y: int, x: int| 0 <= o < w.oc && 0 <= y < h && 0 <= x < wid implies ({
        let s = c(o, y, x) + (if residual is Some {
            added(o, y, x)
        } else {
            0 as real
        });
        #[trigger] seen(v, r, o, y, x) == (if relu_out {
            cut_off(s)
        } else {
            s
        })
    }) by {
        lemma_place(w.oc as int, h, wid, o, y, x);
        let q = (o * h + y) * wid + x;
        lemma_direct(v, w, p, relu_in, m, 1, h, wid, o, y, x);
        let input = batch_input(p.data, w.ic as int, h, wid, relu_in, None, None, 0);
        assert(w.ic * h * wid == w.ic * hw) by (nonlinear_arith)
            requires
                hw == h * wid,
        ;
        assert(0 * (w.ic * h * wid) == 0) by (nonlinear_arith);
        assert(image(p.data, w.ic * h * wid, 0) =~= p.data);
        assert(r.data[q] == conv3x3_at(
            opts,
            p.data,
            w.weight@,
            w.bias@,
            w.ic as int,
            h,
            wid,
            relu_in,
            residual,
            relu_out,
            q,
        ));
        if residual is Some {
            let z = Planes { data: residual->0, c: w.oc as int, h, w: wid };
            assert(seen(v, z, o, y, x) == added(o, y, x));
        }
    }
}

/// A 3x3 convolution of every second row and column.
pub proof fn law_stride_two<T: Scalar>(
    v: spec_fn(T) -> real,
    w: Conv3x3W<T>,
    p: Planes<T>,
    m: spec_fn(int, int, int) -> real,
)
    requires
        faithful(v),
        shows(v, p, m),
        p.c == w.ic,
    ensures
        stride2_of(w, p).c == w.oc,
        stride2_of(w, p).h == (p.h + 1) / 2,
        stride2_of(w, p).w == (p.w + 1) / 2,
        shows(v, stride2_of(w, p), convolved(v, w, m, p.h, p.w, 2)),
{
    let r = stride2_of(w, p);
    let hw = r.h * r.w;
    assert(0 < hw) by (nonlinear_arith)
        requires
            0 < r.h,
            0 < r.w,
            hw == r.h * r.w,
    ;
    assert(0 <= w.oc * hw) by (nonlinear_arith)
        requires
            0 <= w.oc,
            0 < hw,
    ;
    assert forall|o: int, y: int, x: int|
        0 <= o < r.c && 0 <= y < r.h && 0 <= x < r.w implies #[trigger] seen(v, r, o, y, x)
        == convolved(v, w, m, p.h, p.w, 2)(o, y, x) by {
        lemma_place(r.c, r.h, r.w, o, y, x);
        lemma_direct(v, w, p, false, m, 2, r.h, r.w, o, y, x);
    }
}

/// The 1x1 convolution of a picture.
pub open spec fn pointwise<T>(
    v: spec_fn(T) -> real,
    w: Conv1x1W<T>,
    m: spec_fn(int, int, int) -> real,
) -> spec_fn(int, int, int) -> real {
    |o: int, y: int, x: int|
        v(w.bias@[o]) + sum(
            |i: int| prod(v(w.weight@[o * w.ic + i]), m(i, y, x)),
            w.ic as nat,
        )
}

/// A 1x1 convolution adds, for every channel and every pixel, the bias and the weights
/// times the pixel's own channels.
pub proof fn law_pointwise<T: Scalar>(
    v: spec_fn(T) -> real,
    w: Conv1x1W<T>,
    p: Planes<T>,
    m: spec_fn(int, int, int) -> real,
)
    requires
        faithful(v),
        shows(v, p, m),
        p.c == w.ic,
        w.bias.len() == w.oc,
    ensures
        conv1x1_of(w, p).c == w.oc,
        conv1x1_of(w, p).h == p.h,
        conv1x1_of(w, p).w == p.w,
        shows(v, conv1x1_of(w, p), pointwise(v, w, m)),
{
    let r = conv1x1_of(w, p);
    let (h, wid) = (p.h, p.w);
    let hw = h * wid;
    let ic = w.ic as int;
    assert(0 < hw) by (nonlinear_arith)
        requires
            0 < h,
            0 < wid,
            hw == h * wid,
    ;
    assert(0 <= w.oc * hw) by (nonlinear_arith)
        requires
            0 <= w.oc,
            0 < hw,
    ;
    assert forall|o: int, y: int, x: int|
        0 <= o < r.c && 0 <= y < h && 0 <= x < wid implies #[trigger] seen(v, r, o, y, x)
        == pointwise(v, w, m)(o, y, x) by {
        lemma_place(w.oc as int, h, wid, o, y, x);
        let q = (o * h + y) * wid + x;
        let px = y * wid + x;
        assert(0 * (ic * hw) == 0) by (nonlinear_arith);
        assert(image(p.data, ic * hw, 0) =~= p.data);
        let g = gemm_term(w.weight@, p.data, hw, ic, o, px);
        lemma_accumulate(v, w.bias@[o], g, ic as nat);
        assert(r.data[q] == conv1x1_at(p.data, w.weight@, w.bias@, ic, hw, q));
        let f = |i: int| v(g(i));
        let e = |i: int| prod(v(w.weight@[o * w.ic + i]), m(i, y, x));
        assert forall|i: int| 0 <= i < ic implies #[trigger] f(i) == e(i) by {
            lemma_place(ic, h, wid, i, y, x);
            assert(seen(v, p, i, y, x) == m(i, y, x));
        }
        lemma_sum_agree(f, e, ic as nat);
        lemma_sum_agree(|i: int| v(g(i)), f, ic as nat);
        lemma_sum_agree(
            |i: int| prod(v(w.weight@[o * w.ic + i]), m(i, y, x)),
            e,
            ic as nat,
        );
    }
}

/// The transposed convolution of a picture: each pixel becomes a square of `k` by `k`.
pub open spec fn spread<T>(
    v: spec_fn(T) -> real,
    w: ConvTransposeW<T>,
    m: spec_fn(int, int, int) -> real,
) -> spec_fn(int, int, int) -> real {
    |o: int, y: int, x: int|
        v(w.bias@[o]) + sum(
            |i: int|
                prod(
                    v(
                        w.weight@[((i * w.k + y % w.k as int) * w.k + x % w.k as int) * w.out_c
                            + o],
                    ),
                    m(i, y / w.k as int, x / w.k as int),
                ),
            w.in_c as nat,
        )
}

/// A transposed convolution whose stride is its size puts a square for every pixel: the
/// pixel's channels times the weights for the place in the square, and the bias.
pub proof fn law_spread<T: Scalar>(
    v: spec_fn(T) -> real,
    w: ConvTransposeW<T>,
    p: Planes<T>,
    m: spec_fn(int, int, int) -> real,
)
    requires
        faithful(v),
        shows(v, p, m),
        p.c == w.in_c,
        1 <= w.k,
    ensures
        conv_t_of(w, p).c == w.out_c,
        conv_t_of(w, p).h == p.h * w.k,
        conv_t_of(w, p).w == p.w * w.k,
        shows(v, conv_t_of(w, p), spread(v, w, m)),
{
    lemma_whole::<T>(v, 0);
    let r = conv_t_of(w, p);
    let k = w.k as int;
    let ic = w.in_c as int;
    let hw = r.h * r.w;
    assert(0 < r.h && 0 < r.w) by (nonlinear_arith)
        requires
            0 < p.h,
            0 < p.w,
            1 <= k,
            r.h == p.h * k,
            r.w == p.w * k,
    ;
    assert(0 < hw) by (nonlinear_arith)
        requires
            0 < r.h,
            0 < r.w,
            hw == r.h * r.w,
    ;
    assert(0 <= w.out_c * hw) by (nonlinear_arith)
        requires
            0 <= w.out_c,
            0 < hw,
    ;
    assert forall|o: int, y: int, x: int|
        0 <= o < r.c && 0 <= y < r.h && 0 <= x < r.w implies #[trigger] seen(v, r, o, y, x)
        == spread(v, w, m)(o, y, x) by {
        lemma_place(r.c, r.h, r.w, o, y, x);
        let q = (o * r.h + y) * r.w + x;
        assert(r.data[q] == conv_t_at(w, p.data, p.h, p.w, q));
        let (a, b) = (y / k, x / k);
        assert(0 <= a < p.h && 0 <= b < p.w) by (nonlinear_arith)
            requires
                0 <= y < p.h * k,
                0 <= x < p.w * k,
                1 <= k,
                a == y / k,
                b == x / k,
        ;
        let g = conv_t_term(w, p.data, p.h * p.w, o, y % k, x % k, a * p.w + b);
        lemma_accumulate(v, T::ratio_spec(0, 1), g, ic as nat);
        let f = |i: int| v(g(i));
        let e = |i: int|
            prod(
                v(w.weight@[((i * w.k + y % w.k as int) * w.k + x % w.k as int) * w.out_c + o]),
                m(i, y / w.k as int, x / w.k as int),
            );
        assert forall|i: int| 0 <= i < ic implies #[trigger] f(i) == e(i) by {
            lemma_place(ic, p.h, p.w, i, a, b);
            assert(seen(v, p, i, a, b) == m(i, a, b));
        }
        lemma_sum_agree(f, e, ic as nat);
        lemma_sum_agree(|i: int| v(g(i)), f, ic as nat);
    }
}

/// Two maps added pixel by pixel.
pub proof fn lemma_together<T: Scalar>(
    v: spec_fn(T) -> real,
    p: Planes<T>,
    b: Seq<T>,
    m: spec_fn(int, int, int) -> real,
    n: spec_fn(int, int, int) -> real,
)
    requires
        faithful(v),
        shows(v, p, m),
        shows(v, (Planes { data: b, ..p }), n),
    ensures
        shows(v, (Planes { data: sum_of(p.data, b), ..p }), together(m, n)),
{
    let q = Planes { data: b, ..p };
    let r = Planes { data: sum_of(p.data, b), ..p };
    assert forall|ch: int, y: int, x: int|
        0 <= ch < r.c && 0 <= y < r.h && 0 <= x < r.w implies #[trigger] seen(v, r, ch, y, x)
        == together(m, n)(ch, y, x) by {
        lemma_place(p.c, p.h, p.w, ch, y, x);
        assert(seen(v, p, ch, y, x) == m(ch, y, x));
        assert(seen(v, q, ch, y, x) == n(ch, y, x));
    }
}

/// A residual unit of a picture: what two convolutions make of its positive part, the
/// second of the positive part of the first, added to the picture itself.
pub open spec fn refined<T>(
    v: spec_fn(T) -> real,
    u: ResConvUnitW<T>,
    m: spec_fn(int, int, int) -> real,
    h: int,
    w: int,
) -> spec_fn(int, int, int) -> real {
    together(convolved(v, u.c2, cut(convolved(v, u.c1, cut(m), h, w, 1)), h, w, 1), m)
}

/// The layers of a unit fit a map of `c` channels.
pub open spec fn unit_fits<T>(u: ResConvUnitW<T>, c: int) -> bool {
    &&& u.c1.ic == c && u.c2.ic == u.c1.oc && u.c2.oc == c
    &&& 1 <= u.c1.ic && 1 <= u.c2.ic
    &&& u.c1.bias.len() == u.c1.oc && u.c2.bias.len() == u.c2.oc
}

/// A residual unit adds to a map what two convolutions make of its positive part.
pub proof fn law_residual_unit<T: Scalar>(
    v: spec_fn(T) -> real,
    u: ResConvUnitW<T>,
    p: Planes<T>,
    m: spec_fn(int, int, int) -> real,
)
    requires
        faithful(v),
        shows(v, p, m),
        unit_fits(u, p.c),
    ensures
        unit_of(plain_options().conv, u, p).c == p.c,
        unit_of(plain_options().conv, u, p).h == p.h,
        unit_of(plain_options().conv, u, p).w == p.w,
        shows(v, unit_of(plain_options().conv, u, p), refined(v, u, m, p.h, p.w)),
{
    let o = plain_options().conv;
    let a = conv3x3_of(o, u.c1, p, true, None, false);
    law_convolution(v, u.c1, p, true, None, false, m, m);
    let c1 = convolved(v, u.c1, cut(m), p.h, p.w, 1);
    assert(shows(v, a, c1));
    assert((Planes { data: p.data, c: u.c2.oc as int, h: a.h, w: a.w }) == p);
    law_convolution(v, u.c2, a, true, Some(p.data), false, c1, m);
}

// ---- aligned corners ----------------------------------------------------------------

/// `a` over `b`.
#[verifier::opaque]
pub open spec fn share(a: int, b: int) -> real {
    a as real / b as real
}

proof fn lemma_over(a: int, b: int)
    requires
        b != 0,
    ensures
        prod(share(a, b), b as real) == a as real,
{
    reveal(share);
    reveal(prod);
    let (x, y) = (a as real, b as real);
    assert((x / y) * y == x) by (nonlinear_arith)
        requires
            y != 0 as real,
    ;
}

/// The place just before position `o` of `up` when `low` positions become `up` and the
/// first and the last ones meet: a whole number of `o * (low - 1) / (up - 1)`.
pub open spec fn before(low: int, up: int, o: int) -> int {
    if up > 1 {
        o * (low - 1) / (up - 1)
    } else {
        0
    }
}

/// The place just behind it, which is the last one at the end.
pub open spec fn behind(low: int, up: int, o: int) -> int {
    if before(low, up, o) + 1 < low {
        before(low, up, o) + 1
    } else {
        low - 1
    }
}

/// How far position `o` lies behind the place before it.
pub open spec fn off(low: int, up: int, o: int) -> real {
    if up > 1 {
        share(o * (low - 1) % (up - 1), up - 1)
    } else {
        0 as real
    }
}

/// A point on the way from `a` to `b`.
pub open spec fn between(a: real, b: real, f: real) -> real {
    prod(a, 1 as real - f) + prod(b, f)
}

/// A picture of `h` by `w` at the size of `up_h` by `up_w`, its corners where they were,
/// by linear interpolation along rows and columns.
pub open spec fn stretched(
    m: spec_fn(int, int, int) -> real,
    h: int,
    w: int,
    up_h: int,
    up_w: int,
) -> spec_fn(int, int, int) -> real {
    |ch: int, y: int, x: int|
        {
            let (t, b) = (before(h, up_h, y), behind(h, up_h, y));
            let (l, r) = (before(w, up_w, x), behind(w, up_w, x));
            let f = off(w, up_w, x);
            between(
                between(m(ch, t, l), m(ch, t, r), f),
                between(m(ch, b, l), m(ch, b, r), f),
                off(h, up_h, y),
            )
        }
}

/// Where a position lies.
proof fn lemma_tap<T: Analytic>(v: spec_fn(T) -> real, low: int, up: int, o: int)
    requires
        faithful_floors(v),
        1 <= low <= usize::MAX,
        0 <= o < up <= usize::MAX,
    ensures
        ({
            let t = tap_at::<T>(low, up, o);
            &&& t.lo == before(low, up, o)
            &&& t.hi == behind(low, up, o)
            &&& v(t.weight) == off(low, up, o)
            &&& 0 <= before(low, up, o) < low
            &&& 0 <= behind(low, up, o) < low
        }),
{
    lemma_whole::<T>(v, 0);
    let s = corner_scale::<T>(low, up);
    let f = T::from_count_spec(o as usize).times_spec(s);
    if up > 1 {
        let (a, d) = (o * (low - 1), up - 1);
        let (n, r) = (a / d, a % d);
        assert(0 <= a) by (nonlinear_arith)
            requires
                0 <= o,
                1 <= low,
                a == o * (low - 1),
        ;
        assert(a <= d * (low - 1)) by (nonlinear_arith)
            requires
                o <= d,
                1 <= low,
                a == o * (low - 1),
        ;
        assert(a == d * n + r) by (nonlinear_arith)
            requires
                n == a / d,
                r == a % d,
                d > 0,
        ;
        assert(0 <= n <= low - 1 && 0 <= r < d) by (nonlinear_arith)
            requires
                a == d * n + r,
                n == a / d,
                r == a % d,
                d > 0,
                0 <= a <= d * (low - 1),
        ;
        lemma_over(r, d);
        let w = share(r, d);
        let dr = d as real;
        // f * d == o * (low - 1) == n * d + r
        lemma_prod_regroup(o as real, v(s), dr);
        assert(prod(v(s), dr) == (low - 1) as real);
        assert(prod(o as real, (low - 1) as real) == a as real) by {
            lemma_whole_product(o, low - 1);
        }
        assert(prod(v(f), dr) == a as real);
        lemma_whole_product(n, d);
        lemma_prod_plus(dr, n as real, w);
        assert(a as real == (d * n) as real + r as real);
        assert(n * d == d * n) by (nonlinear_arith);
        assert(prod(n as real + w, dr) == a as real);
        lemma_prod(dr, v(f));
        lemma_prod(dr, n as real + w);
        lemma_prod_cancel(dr, v(f), n as real + w);
        lemma_prod_sign(dr, w);
        lemma_prod(dr, w);
        lemma_prod_sign(dr, 1 as real - w);
        lemma_prod_plus(dr, 1 as real, w);
        lemma_prod(dr, 1 as real);
        assert(0 as real <= w < 1 as real);
        let c = f.floor_count_spec();
        assert(c as int == n) by {
            assert(v(f) <= (low - 1) as real + 1 as real);
            assert(c as int as real <= v(f) < c as int as real + 1 as real);
        }
    } else {
        lemma_prod(o as real, 0 as real);
        assert(v(f) == 0 as real);
        let c = f.floor_count_spec();
        assert(c as int == 0) by {
            assert(c as int as real <= 0 as real);
        }
    }
}

/// The product of two whole numbers.
proof fn lemma_whole_product(a: int, b: int)
    ensures
        prod(a as real, b as real) == (a * b) as real,
{
    reveal(prod);
    assert((a as real) * (b as real) == (a * b) as real) by (nonlinear_arith);
}

/// A map at another size: corners stay corners, and between pixels lies their mixture.
/// Where a map is added, it is added at the new size.
pub proof fn law_stretched<T: Analytic>(
    v: spec_fn(T) -> real,
    p: Planes<T>,
    up_h: int,
    up_w: int,
    add: Option<Seq<T>>,
    m: spec_fn(int, int, int) -> real,
    added: spec_fn(int, int, int) -> real,
)
    requires
        faithful_floors(v),
        shows(v, p, m),
        p.h <= usize::MAX,
        p.w <= usize::MAX,
        1 <= up_h <= usize::MAX,
        1 <= up_w <= usize::MAX,
        add matches Some(a) ==> shows(
            v,
            (Planes { data: a, c: p.c, h: up_h, w: up_w }),
            added,
        ),
    ensures
        ({
            let r = upsampled_of(p, up_h, up_w, add);
            let s = stretched(m, p.h, p.w, up_h, up_w);
            &&& r.c == p.c && r.h == up_h && r.w == up_w
            &&& add is Some ==> shows(v, r, together(s, added))
            &&& add is None ==> shows(v, r, s)
        }),
{
    lemma_whole::<T>(v, 1);
    let r = upsampled_of(p, up_h, up_w, add);
    let hw = up_h * up_w;
    assert(0 < hw) by (nonlinear_arith)
        requires
            0 < up_h,
            0 < up_w,
            hw == up_h * up_w,
    ;
    assert(0 <= p.c * hw) by (nonlinear_arith)
        requires
            0 <= p.c,
            0 < hw,
    ;
    assert forall|ch: int, y: int, x: int|
        0 <= ch < p.c && 0 <= y < up_h && 0 <= x < up_w implies #[trigger] seen(v, r, ch, y, x)
        == stretched(m, p.h, p.w, up_h, up_w)(ch, y, x) + (if add is Some {
        added(ch, y, x)
    } else {
        0 as real
    }) by {
        lemma_place(p.c, up_h, up_w, ch, y, x);
        let q = (ch * up_h + y) * up_w + x;
        lemma_tap(v, p.h, up_h, y);
        lemma_tap(v, p.w, up_w, x);
        let (t, b) = (before(p.h, up_h, y), behind(p.h, up_h, y));
        let (l, e) = (before(p.w, up_w, x), behind(p.w, up_w, x));
        assert(seen(v, p, ch, t, l) == m(ch, t, l));
        assert(seen(v, p, ch, t, e) == m(ch, t, e));
        assert(seen(v, p, ch, b, l) == m(ch, b, l));
        assert(seen(v, p, ch, b, e) == m(ch, b, e));
        let u = upsampled(p.data, p.h, p.w, up_h, up_w, ch, y, x);
        assert(v(u) == stretched(m, p.h, p.w, up_h, up_w)(ch, y, x));
        if add is Some {
            let z = Planes { data: add->0, c: p.c, h: up_h, w: up_w };
            assert(seen(v, z, ch, y, x) == added(ch, y, x));
        }
    }
}

// ---- the pyramid ---------------------------------------------------------------------

/// A picture at another size, or as it is where it has that size.
pub open spec fn resized(
    m: spec_fn(int, int, int) -> real,
    h: int,
    w: int,
    up_h: int,
    up_w: int,
) -> spec_fn(int, int, int) -> real {
    if h == up_h && w == up_w {
        m
    } else {
        stretched(m, h, w, up_h, up_w)
    }
}

/// A stage of the pyramid: the picture from above, with the refined picture from the
/// side added where there is one, is refined, brought to its size and mixed.
pub open spec fn fused<T>(
    v: spec_fn(T) -> real,
    f: FusionW<T>,
    top: spec_fn(int, int, int) -> real,
    side: Option<spec_fn(int, int, int) -> real>,
    h: int,
    w: int,
    up_h: int,
    up_w: int,
) -> spec_fn(int, int, int) -> real {
    let y = match side {
        Some(l) => together(top, refined(v, f.rc1->0, l, h, w)),
        None => top,
    };
    pointwise(v, f.outc, resized(refined(v, f.rc2, y, h, w), h, w, up_h, up_w))
}

/// The layers of a stage fit maps of `c` channels.
pub open spec fn stage_fits<T>(f: FusionW<T>, c: int) -> bool {
    &&& f.rc1 matches Some(r) ==> unit_fits(r, c)
    &&& unit_fits(f.rc2, c)
    &&& f.outc.ic == c
    &&& f.outc.bias.len() == f.outc.oc
}

/// A stage of the pyramid is what its parts make it.
pub proof fn law_fusion<T: Analytic>(
    v: spec_fn(T) -> real,
    f: FusionW<T>,
    top: Planes<T>,
    side: Option<Planes<T>>,
    up_h: int,
    up_w: int,
    m: spec_fn(int, int, int) -> real,
    l: spec_fn(int, int, int) -> real,
)
    requires
        faithful_floors(v),
        shows(v, top, m),
        stage_fits(f, top.c),
        side is Some ==> f.rc1 is Some,
        side matches Some(p) ==> shows(v, p, l) && p.c == top.c && p.h == top.h && p.w == top.w,
        top.h <= usize::MAX,
        top.w <= usize::MAX,
        1 <= up_h <= usize::MAX,
        1 <= up_w <= usize::MAX,
    ensures
        ({
            let r = fusion_of(plain_options(), f, top, side, up_h, up_w);
            &&& r.c == f.outc.oc && r.h == up_h && r.w == up_w
            &&& side is Some ==> shows(
                v,
                r,
                fused(v, f, m, Some(l), top.h, top.w, up_h, up_w),
            )
            &&& side is None ==> shows(v, r, fused(v, f, m, None, top.h, top.w, up_h, up_w))
        }),
{
    let o = plain_options();
    let (h, w) = (top.h, top.w);
    let (y, n) = match side {
        Some(p) => {
            let a = unit_of(o.conv, f.rc1->0, p);
            law_residual_unit(v, f.rc1->0, p, l);
            let k = refined(v, f.rc1->0, l, h, w);
            assert((Planes { data: a.data, ..top }) == a);
            lemma_together(v, top, a.data, m, k);
            (Planes { data: sum_of(top.data, a.data), ..top }, together(m, k))
        },
        None => (top, m),
    };
    assert(shows(v, y, n));
    law_residual_unit(v, f.rc2, y, n);
    let z = unit_of(o.conv, f.rc2, y);
    let k = refined(v, f.rc2, n, h, w);
    if z.h != up_h || z.w != up_w {
        law_stretched(v, z, up_h, up_w, None, k, k);
        law_pointwise(v, f.outc, upsampled_of(z, up_h, up_w, None), stretched(k, h, w, up_h, up_w));
    } else {
        law_pointwise(v, f.outc, z, k);
    }
}

/// The pyramid: the smallest picture first, at the size of the patches, then the next
/// larger one at twice, four and eight times that size.
pub open spec fn heaped<T>(
    v: spec_fn(T) -> real,
    rn: (FusionW<T>, FusionW<T>, FusionW<T>, FusionW<T>),
    side: spec_fn(int) -> spec_fn(int, int, int) -> real,
    ph: int,
    pw: int,
) -> spec_fn(int, int, int) -> real {
    let d = fused(v, rn.3, side(3), None, (ph + 1) / 2, (pw + 1) / 2, ph, pw);
    let c = fused(v, rn.2, d, Some(side(2)), ph, pw, 2 * ph, 2 * pw);
    let b = fused(v, rn.1, c, Some(side(1)), 2 * ph, 2 * pw, 4 * ph, 4 * pw);
    fused(v, rn.0, b, Some(side(0)), 4 * ph, 4 * pw, 8 * ph, 8 * pw)
}

/// Map `s` of the pyramid has `f` channels and the size of its level: half the patches,
/// the patches, twice and four times the patches from the last to the first.
pub open spec fn of_level<T>(p: Planes<T>, s: int, f: int, ph: int, pw: int) -> bool {
    &&& p.c == f
    &&& s == 0 ==> p.h == 4 * ph && p.w == 4 * pw
    &&& s == 1 ==> p.h == 2 * ph && p.w == 2 * pw
    &&& s == 2 ==> p.h == ph && p.w == pw
    &&& s == 3 ==> p.h == (ph + 1) / 2 && p.w == (pw + 1) / 2
}

/// The pyramid is built from its smallest map to its largest.
pub proof fn law_pyramid<T: Analytic>(
    v: spec_fn(T) -> real,
    rn: (FusionW<T>, FusionW<T>, FusionW<T>, FusionW<T>),
    lats: Seq<Planes<T>>,
    f: int,
    ph: int,
    pw: int,
    side: spec_fn(int) -> spec_fn(int, int, int) -> real,
)
    requires
        faithful_floors(v),
        lats.len() == 4,
        forall|s: int|
            0 <= s < 4 ==> shows(v, #[trigger] lats[s], side(s)) && of_level(lats[s], s, f, ph, pw),
        stage_fits(rn.0, f) && stage_fits(rn.1, f) && stage_fits(rn.2, f) && stage_fits(rn.3, f),
        rn.0.rc1 is Some && rn.1.rc1 is Some && rn.2.rc1 is Some,
        rn.1.outc.oc == f && rn.2.outc.oc == f && rn.3.outc.oc == f,
        1 <= ph && 8 * ph <= usize::MAX,
        1 <= pw && 8 * pw <= usize::MAX,
    ensures
        ({
            let r = pyramid_of(plain_options(), rn.0, rn.1, rn.2, rn.3, lats, ph, pw);
            &&& r.c == rn.0.outc.oc && r.h == 8 * ph && r.w == 8 * pw
            &&& shows(v, r, heaped(v, rn, side, ph, pw))
        }),
{
    let o = plain_options();
    assert(shows(v, lats[0], side(0)) && of_level(lats[0], 0, f, ph, pw));
    assert(shows(v, lats[1], side(1)) && of_level(lats[1], 1, f, ph, pw));
    assert(shows(v, lats[2], side(2)) && of_level(lats[2], 2, f, ph, pw));
    assert(shows(v, lats[3], side(3)) && of_level(lats[3], 3, f, ph, pw));
    let o4 = fusion_of(o, rn.3, lats[3], None, ph, pw);
    law_fusion(v, rn.3, lats[3], None, ph, pw, side(3), side(3));
    let d = fused(v, rn.3, side(3), None, (ph + 1) / 2, (pw + 1) / 2, ph, pw);
    let o3 = fusion_of(o, rn.2, o4, Some(lats[2]), 2 * ph, 2 * pw);
    law_fusion(v, rn.2, o4, Some(lats[2]), 2 * ph, 2 * pw, d, side(2));
    let c = fused(v, rn.2, d, Some(side(2)), ph, pw, 2 * ph, 2 * pw);
    let o2 = fusion_of(o, rn.1, o3, Some(lats[1]), 4 * ph, 4 * pw);
    law_fusion(v, rn.1, o3, Some(lats[1]), 4 * ph, 4 * pw, c, side(1));
    let b = fused(v, rn.1, c, Some(side(1)), 2 * ph, 2 * pw, 4 * ph, 4 * pw);
    law_fusion(v, rn.0, o2, Some(lats[0]), 8 * ph, 8 * pw, b, side(0));
}

/// The picture that the output branches read: the first convolution of the pyramid's, at
/// the size of the image, with the embedding of positions added.
pub open spec fn placed<T>(
    v: spec_fn(T) -> real,
    out1: Conv3x3W<T>,
    top: spec_fn(int, int, int) -> real,
    th: int,
    tw: int,
    h: int,
    w: int,
    pe: Option<spec_fn(int, int, int) -> real>,
) -> spec_fn(int, int, int) -> real {
    let y = resized(convolved(v, out1, top, th, tw, 1), th, tw, h, w);
    match pe {
        Some(e) => together(y, e),
        None => y,
    }
}

/// An output branch: a 3x3 convolution, cut off at zero, and a 1x1 convolution.
pub open spec fn branch<T>(
    v: spec_fn(T) -> real,
    a: Conv3x3W<T>,
    b: Conv1x1W<T>,
    m: spec_fn(int, int, int) -> real,
    h: int,
    w: int,
) -> spec_fn(int, int, int) -> real {
    pointwise(v, b, cut(convolved(v, a, m, h, w, 1)))
}

/// The map that the output branches read.
proof fn lemma_output_map<T: Analytic>(
    v: spec_fn(T) -> real,
    head: FastDptHead<T>,
    top: Planes<T>,
    h: int,
    w: int,
    uv: Option<Seq<T>>,
    m: spec_fn(int, int, int) -> real,
    e: spec_fn(int, int, int) -> real,
)
    requires
        faithful_floors(v),
        shows(v, top, m),
        top.c == head.out1.ic,
        1 <= head.out1.ic,
        head.out1.bias.len() == head.out1.oc,
        top.h <= usize::MAX,
        top.w <= usize::MAX,
        1 <= h <= usize::MAX,
        1 <= w <= usize::MAX,
        uv matches Some(a) ==> shows(
            v,
            (Planes { data: a, c: head.out1.oc as int, h, w }),
            e,
        ),
    ensures
        ({
            let y = conv3x3_of(plain_options().conv, head.out1, top, false, None, false);
            let r = output_map_of(y, h, w, uv);
            &&& r.c == head.out1.oc && r.h == h && r.w == w
            &&& uv is Some ==> shows(
                v,
                r,
                placed(v, head.out1, m, top.h, top.w, h, w, Some(e)),
            )
            &&& uv is None ==> shows(v, r, placed(v, head.out1, m, top.h, top.w, h, w, None))
        }),
{
    let y = conv3x3_of(plain_options().conv, head.out1, top, false, None, false);
    law_convolution(v, head.out1, top, false, None, false, m, m);
    let k = convolved(v, head.out1, m, top.h, top.w, 1);
    if y.h != h || y.w != w {
        law_stretched(v, y, h, w, uv, k, e);
    } else if uv is Some {
        assert((Planes { data: uv->0, ..y }) == (Planes {
            data: uv->0,
            c: head.out1.oc as int,
            h,
            w,
        }));
        lemma_together(v, y, uv->0, k, e);
    }
}

/// The raw depth: the first output branch of what the branches read.
pub proof fn law_depth_branch<T: Analytic>(
    v: spec_fn(T) -> real,
    head: FastDptHead<T>,
    top: Planes<T>,
    h: int,
    w: int,
    uv: Option<Seq<T>>,
    m: spec_fn(int, int, int) -> real,
    e: spec_fn(int, int, int) -> real,
)
    requires
        faithful_floors(v),
        shows(v, top, m),
        top.c == head.out1.ic,
        1 <= head.out1.ic,
        1 <= head.out2a.ic,
        head.out1.bias.len() == head.out1.oc,
        head.out2a.ic == head.out1.oc,
        head.out2a.bias.len() == head.out2a.oc,
        head.out2b.ic == head.out2a.oc,
        head.out2b.bias.len() == head.out2b.oc,
        top.h <= usize::MAX,
        top.w <= usize::MAX,
        1 <= h <= usize::MAX,
        1 <= w <= usize::MAX,
        uv matches Some(a) ==> shows(
            v,
            (Planes { data: a, c: head.out1.oc as int, h, w }),
            e,
        ),
    ensures
        ({
            let r = depth_of(plain_options(), head, top, h, w, uv);
            let pe = if uv is Some {
                Some(e)
            } else {
                None
            };
            &&& r.c == head.out2b.oc && r.h == h && r.w == w
            &&& shows(
                v,
                r,
                branch(
                    v,
                    head.out2a,
                    head.out2b,
                    placed(v, head.out1, m, top.h, top.w, h, w, pe),
                    h,
                    w,
                ),
            )
        }),
{
    let o = plain_options();
    let y = conv3x3_of(o.conv, head.out1, top, false, None, false);
    lemma_output_map(v, head, top, h, w, uv, m, e);
    let r = output_map_of(y, h, w, uv);
    let pe = if uv is Some {
        Some(e)
    } else {
        None
    };
    let k = placed(v, head.out1, m, top.h, top.w, h, w, pe);
    law_convolution(v, head.out2a, r, false, None, true, k, k);
    let a = conv3x3_of(o.conv, head.out2a, r, false, None, true);
    law_pointwise(v, head.out2b, a, cut(convolved(v, head.out2a, k, h, w, 1)));
}

/// The raw sky: the second output branch, of the same map as the depth.
pub proof fn law_sky_branch<T: Analytic>(
    v: spec_fn(T) -> real,
    head: FastDptHead<T>,
    top: Planes<T>,
    h: int,
    w: int,
    uv: Option<Seq<T>>,
    m: spec_fn(int, int, int) -> real,
    e: spec_fn(int, int, int) -> real,
)
    requires
        faithful_floors(v),
        shows(v, top, m),
        top.c == head.out1.ic,
        1 <= head.out1.ic,
        head.out1.bias.len() == head.out1.oc,
        head.sky matches Some(k) ==> 1 <= k.0.ic == head.out1.oc && k.0.bias.len() == k.0.oc
            && k.1.ic == k.0.oc && k.1.bias.len() == k.1.oc,
        top.h <= usize::MAX,
        top.w <= usize::MAX,
        1 <= h <= usize::MAX,
        1 <= w <= usize::MAX,
        uv matches Some(a) ==> shows(
            v,
            (Planes { data: a, c: head.out1.oc as int, h, w }),
            e,
        ),
    ensures
        sky_of(plain_options(), head, top, h, w, uv) is Some == head.sky is Some,
        head.sky matches Some(k) ==> ({
            let pe = if uv is Some {
                Some(e)
            } else {
                None
            };
            shows(
                v,
                (Planes {
                    data: sky_of(plain_options(), head, top, h, w, uv)->0,
                    c: k.1.oc as int,
                    h,
                    w,
                }),
                branch(
                    v,
                    k.0,
                    k.1,
                    placed(v, head.out1, m, top.h, top.w, h, w, pe),
                    h,
                    w,
                ),
            )
        }),
{
    let o = plain_options();
    let y = conv3x3_of(o.conv, head.out1, top, false, None, false);
    lemma_output_map(v, head, top, h, w, uv, m, e);
    let r = output_map_of(y, h, w, uv);
    let pe = if uv is Some {
        Some(e)
    } else {
        None
    };
    match head.sky {
        Some(s) => {
            let k = placed(v, head.out1, m, top.h, top.w, h, w, pe);
            law_convolution(v, s.0, r, false, None, true, k, k);
            let a = conv3x3_of(o.conv, s.0, r, false, None, true);
            let d = cut(convolved(v, s.0, k, h, w, 1));
            law_pointwise(v, s.1, a, d);
            let z = conv1x1_of(s.1, a);
            assert(z == (Planes { data: z.data, c: s.1.oc as int, h, w }));
        },
        None => {},
    }
}

/// The tokens of a picture of patches, row by row.
pub open spec fn in_patches<T>(
    v: spec_fn(T) -> real,
    tokens: Seq<T>,
    c: int,
    pw: int,
) -> spec_fn(int, int, int) -> real {
    |ch: int, y: int, x: int| v(tokens[(y * pw + x) * c + ch])
}

/// Tokens as a map: each token's numbers are the channels of its patch.
proof fn lemma_tokens<T: Scalar>(v: spec_fn(T) -> real, tokens: Seq<T>, c: int, ph: int, pw: int)
    requires
        0 <= c,
        0 < ph,
        0 < pw,
    ensures
        shows(
            v,
            (Planes { data: transposed(tokens, ph * pw, c), c, h: ph, w: pw }),
            in_patches(v, tokens, c, pw),
        ),
{
    let p = Planes { data: transposed(tokens, ph * pw, c), c, h: ph, w: pw };
    let hw = ph * pw;
    assert(0 < hw) by (nonlinear_arith)
        requires
            0 < ph,
            0 < pw,
            hw == ph * pw,
    ;
    assert(0 <= c * hw) by (nonlinear_arith)
        requires
            0 <= c,
            0 < hw,
    ;
    assert forall|ch: int, y: int, x: int|
        0 <= ch < c && 0 <= y < ph && 0 <= x < pw implies #[trigger] seen(v, p, ch, y, x)
        == in_patches(v, tokens, c, pw)(ch, y, x) by {
        lemma_place(c, ph, pw, ch, y, x);
    }
}

/// A map of the pyramid's side: the tokens of one layer, mixed and with the embedding of
/// positions added, at four times the size, at twice, as they are, or at half, for the
/// first, second, third and last layer, and through a convolution of its own. Where the
/// decoder has a norm, each token goes through it first.
pub proof fn law_lateral<T: Analytic>(
    v: spec_fn(T) -> real,
    head: FastDptHead<T>,
    s: int,
    feat: Seq<T>,
    ph: int,
    pw: int,
    uv: Option<Seq<T>>,
    e: spec_fn(int, int, int) -> real,
    c: int,
)
    requires
        faithful(v),
        head.wf(c),
        0 <= s < 4,
        1 <= ph,
        1 <= pw,
        1 <= head.layer_rn[s].ic,
        head.layer_rn[s].bias.len() == head.layer_rn[s].oc,
        uv matches Some(a) ==> shows(
            v,
            (Planes { data: a, c: head.proj[s].oc as int, h: ph, w: pw }),
            e,
        ),
    ensures
        ({
            let ins = head.in_channels as int;
            let tokens = match head.in_norm {
                Some(n) => layernorm_rows_of(
                    feat,
                    ph * pw,
                    ins,
                    n.0@,
                    n.1@,
                    T::ratio_spec(1, 100_000),
                    false,
                ),
                None => feat,
            };
            let mix = pointwise(v, head.proj[s], in_patches(v, tokens, ins, pw));
            let own = if uv is Some {
                together(mix, e)
            } else {
                mix
            };
            let level = if s == 0 {
                spread(v, head.resize0, own)
            } else if s == 1 {
                spread(v, head.resize1, own)
            } else if s == 2 {
                own
            } else {
                convolved(v, head.resize3, own, ph, pw, 2)
            };
            let r = lateral_of(plain_options().conv, head, s, feat, ph, pw, uv);
            &&& of_level(r, s, head.layer_rn[s].oc as int, ph, pw)
            &&& shows(v, r, convolved(v, head.layer_rn[s], level, r.h, r.w, 1))
        }),
{
    let ins = head.in_channels as int;
    let tokens = match head.in_norm {
        Some(n) => layernorm_rows_of(
            feat,
            ph * pw,
            ins,
            n.0@,
            n.1@,
            T::ratio_spec(1, 100_000),
            false,
        ),
        None => feat,
    };
    assert(head.proj[s].wf(c) && head.proj[s].ic == head.in_channels);
    assert(head.layer_rn[s].wf(c));
    lemma_tokens(v, tokens, ins, ph, pw);
    let p = Planes { data: transposed(tokens, ph * pw, ins), c: ins, h: ph, w: pw };
    law_pointwise(v, head.proj[s], p, in_patches(v, tokens, ins, pw));
    let x = conv1x1_of(head.proj[s], p);
    let mix = pointwise(v, head.proj[s], in_patches(v, tokens, ins, pw));
    let own = if uv is Some {
        together(mix, e)
    } else {
        mix
    };
    let y = match uv {
        Some(pe) => {
            assert((Planes { data: pe, ..x }) == (Planes {
                data: pe,
                c: head.proj[s].oc as int,
                h: ph,
                w: pw,
            }));
            lemma_together(v, x, pe, mix, e);
            Planes { data: sum_of(x.data, pe), ..x }
        },
        None => x,
    };
    assert(shows(v, y, own));
    let o = plain_options().conv;
    if s == 0 {
        law_spread(v, head.resize0, y, own);
        law_convolution(
            v,
            head.layer_rn[s],
            conv_t_of(head.resize0, y),
            false,
            None,
            false,
            spread(v, head.resize0, own),
            own,
        );
    } else if s == 1 {
        law_spread(v, head.resize1, y, own);
        law_convolution(
            v,
            head.layer_rn[s],
            conv_t_of(head.resize1, y),
            false,
            None,
            false,
            spread(v, head.resize1, own),
            own,
        );
    } else if s == 2 {
        law_convolution(v, head.layer_rn[s], y, false, None, false, own, own);
    } else {
        law_stride_two(v, head.resize3, y, own);
        law_convolution(
            v,
            head.layer_rn[s],
            stride2_of(head.resize3, y),
            false,
            None,
            false,
            convolved(v, head.resize3, own, ph, pw, 2),
            own,
        );
    }
}

} // verus!
