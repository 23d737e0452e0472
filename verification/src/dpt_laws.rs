//! The decoder with and without shortcuts, where the arithmetic does not round.

use crate::conv_laws::law_fused_upsample;
use crate::dpt_head::plain_options;
use crate::fast_conv::{
    blend, blend_products, conv1x1_at, conv1x1_upsample_at, conv3x3_at, conv3x3_upsample_at,
    image, pixel, tap_at, upsampled, upsampled_image, upsampled_products_at, Conv3x3Mode,
    ConvOptions,
};
use crate::fast_dpt::{
    conv1x1_of, conv3x3_of, conv_t_of, depth_of, folds_output, fusion_of, fusion_tail_of,
    lateral_of, laterals_of, main_pyramid, output_map_of, projected_of, sky_of, stage_embed,
    stride2_of, sum_of, unit_of, upsampled_of, Conv3x3W, DptOptions, FastDptHead, FusionW, Planes,
    ResConvUnitW, UvEmbeds,
};
use crate::reals::{
    faithful, lemma_prod, lemma_prod_plus, lemma_prod_regroup, lemma_whole, prod,
};
use crate::scalar::{one, zero, Analytic, Scalar};
use crate::tinyblas::gemm_at;
use crate::winograd_laws::law_convolutions_agree;
use vstd::prelude::*;

verus! {

/// Numbers that stand for the same real are the same.
#[verifier::opaque]
pub open spec fn told_apart<T>(v: spec_fn(T) -> real) -> bool {
    forall|x: T, y: T| #[trigger] v(x) == #[trigger] v(y) ==> x == y
}

/// Numbers that stand for the same are the same.
pub proof fn lemma_same<T>(v: spec_fn(T) -> real, x: T, y: T)
    requires
        told_apart(v),
        v(x) == v(y),
    ensures
        x == y,
{
    reveal(told_apart);
}

proof fn lemma_area(h: int, w: int)
    requires
        0 <= h,
        0 <= w,
    ensures
        0 <= h * w,
        h == 0 || w == 0 ==> h * w == 0,
        0 < h && 0 < w ==> 0 < h * w,
{
    assert(0 <= h * w && (h == 0 || w == 0 ==> h * w == 0) && (0 < h && 0 < w ==> 0 < h * w))
        by (nonlinear_arith)
        requires
            0 <= h,
            0 <= w,
    ;
}

/// `n` planes of no pixels are empty, and planes of some are not.
proof fn lemma_planes(n: int, hw: int)
    requires
        0 <= n,
        0 <= hw,
    ensures
        0 <= n * hw,
        hw == 0 ==> n * hw == 0,
{
    assert(0 <= n * hw && (hw == 0 ==> n * hw == 0)) by (nonlinear_arith)
        requires
            0 <= n,
            0 <= hw,
    ;
}

/// A convolution of a map is the same whatever the switches.
proof fn lemma_conv<T: Scalar>(
    v: spec_fn(T) -> real,
    a: ConvOptions,
    b: ConvOptions,
    w: Conv3x3W<T>,
    x: Planes<T>,
    relu_in: bool,
    residual: Option<Seq<T>>,
    relu_out: bool,
)
    requires
        faithful(v),
        told_apart(v),
        w.weight.len() == w.oc * w.ic * 9,
        w.bias.len() == w.oc,
        0 <= x.h,
        0 <= x.w,
    ensures
        conv3x3_of(a, w, x, relu_in, residual, relu_out) == conv3x3_of(
            b,
            w,
            x,
            relu_in,
            residual,
            relu_out,
        ),
{
    let one = conv3x3_of(a, w, x, relu_in, residual, relu_out);
    let other = conv3x3_of(b, w, x, relu_in, residual, relu_out);
    let hw = x.h * x.w;
    lemma_area(x.h, x.w);
    lemma_planes(w.oc as int, hw);
    assert forall|p: int| 0 <= p < one.data.len() implies one.data[p] == other.data[p] by {
        law_convolutions_agree(
            v,
            a,
            b,
            x.data,
            w.weight@,
            w.bias@,
            1,
            w.ic as int,
            x.h,
            x.w,
            relu_in,
            residual,
            relu_out,
            p,
        );
        lemma_same(v, one.data[p], other.data[p]);
    }
    assert(one.data =~= other.data);
}

proof fn lemma_unit<T: Scalar>(
    v: spec_fn(T) -> real,
    a: ConvOptions,
    b: ConvOptions,
    r: ResConvUnitW<T>,
    f: int,
    c: int,
    x: Planes<T>,
)
    requires
        faithful(v),
        told_apart(v),
        r.wf(f, c),
        0 <= x.h,
        0 <= x.w,
    ensures
        unit_of(a, r, x) == unit_of(b, r, x),
{
    lemma_conv(v, a, b, r.c1, x, true, None, false);
    let y = conv3x3_of(a, r.c1, x, true, None, false);
    lemma_conv(v, a, b, r.c2, y, true, Some(x.data), false);
}

// ---- upsampling folded into a 1x1 convolution ------------------------------------

/// Blending by products of weights is blending along one side after the other.
proof fn lemma_blend<T: Scalar>(
    v: spec_fn(T) -> real,
    p00: T,
    p01: T,
    p10: T,
    p11: T,
    wx: T,
    wy: T,
)
    requires
        faithful(v),
    ensures
        v(blend(p00, p01, p10, p11, wx, wy)) == v(blend_products(p00, p01, p10, p11, wx, wy)),
{
    lemma_whole(v, 1);
    let (a, b, c, d) = (v(p00), v(p01), v(p10), v(p11));
    let (x, y) = (v(wx), v(wy));
    let (nx, ny) = (v(one::<T>().minus_spec(wx)), v(one::<T>().minus_spec(wy)));
    lemma_prod_plus(ny, prod(a, nx), prod(b, x));
    lemma_prod_plus(y, prod(c, nx), prod(d, x));
    lemma_prod_regroup(a, nx, ny);
    lemma_prod_regroup(b, x, ny);
    lemma_prod_regroup(c, nx, y);
    lemma_prod_regroup(d, x, y);
    lemma_prod(nx, ny);
    lemma_prod(x, ny);
    lemma_prod(nx, y);
    lemma_prod(x, y);
}

/// The image that a folded upsample multiplies with is the upsampled map.
proof fn lemma_upsampled<T: Scalar>(v: spec_fn(T) -> real, y: Planes<T>, out_h: int, out_w: int)
    requires
        faithful(v),
        told_apart(v),
        0 <= y.c,
        0 <= out_h,
        0 <= out_w,
    ensures
        upsampled_image(y.data, y.c, y.h, y.w, out_h, out_w) == upsampled_of(
            y,
            out_h,
            out_w,
            None,
        ).data,
{
    let hw = out_h * out_w;
    let one = upsampled_image(y.data, y.c, y.h, y.w, out_h, out_w);
    let other = upsampled_of(y, out_h, out_w, None).data;
    assert forall|r: int| 0 <= r < one.len() implies one[r] == other[r] by {
        let ch = r / hw;
        let (yy, xx) = ((r % hw) / out_w, (r % hw) % out_w);
        let ty = tap_at::<T>(y.h, out_h, yy);
        let tx = tap_at::<T>(y.w, out_w, xx);
        lemma_blend(
            v,
            pixel(y.data, y.h, y.w, ch, ty.lo as int, tx.lo as int),
            pixel(y.data, y.h, y.w, ch, ty.lo as int, tx.hi as int),
            pixel(y.data, y.h, y.w, ch, ty.hi as int, tx.lo as int),
            pixel(y.data, y.h, y.w, ch, ty.hi as int, tx.hi as int),
            tx.weight,
            ty.weight,
        );
        assert(one[r] == upsampled_products_at(y.data, y.h, y.w, out_h, out_w, r));
        assert(other[r] == upsampled(y.data, y.h, y.w, out_h, out_w, ch, yy, xx));
        lemma_same(v, one[r], other[r]);
    }
    assert(one =~= other);
}

/// The tail of a fusion stage is the same with its upsample folded in or not.
proof fn lemma_tail<T: Scalar>(
    v: spec_fn(T) -> real,
    a: DptOptions,
    b: DptOptions,
    f: FusionW<T>,
    y: Planes<T>,
    out_h: int,
    out_w: int,
)
    requires
        faithful(v),
        told_apart(v),
        f.outc.bias.len() == f.outc.oc,
        y.c == f.outc.ic,
        y.data.len() == y.c * (y.h * y.w),
        0 <= out_h,
        0 <= out_w,
    ensures
        fusion_tail_of(a, f, y, out_h, out_w) == fusion_tail_of(b, f, y, out_h, out_w),
        fusion_tail_of(a, f, y, out_h, out_w).h == out_h,
        fusion_tail_of(a, f, y, out_h, out_w).w == out_w,
{
    if y.h != out_h || y.w != out_w {
        let hw = out_h * out_w;
        let (w, bias, ic) = (f.outc.weight@, f.outc.bias@, f.outc.ic as int);
        let up = upsampled_of(y, out_h, out_w, None);
        lemma_upsampled(v, y, out_h, out_w);
        lemma_area(out_h, out_w);
        lemma_planes(f.outc.oc as int, hw);
        lemma_planes(ic, hw);
        let size = ic * y.h * y.w;
        assert(size == y.c * (y.h * y.w)) by (nonlinear_arith)
            requires
                size == ic * y.h * y.w,
                y.c == ic,
        ;
        let folded = Seq::new(
            (f.outc.oc * hw) as nat,
            |p: int| conv1x1_upsample_at(y.data, w, bias, ic, y.h, y.w, out_h, out_w, p),
        );
        let plain = conv1x1_of(f.outc, up).data;
        assert forall|p: int| 0 <= p < folded.len() implies folded[p] == plain[p] by {
            let chunk = bias.len() * hw;
            assert(p / chunk == 0 && p % chunk == p) by (nonlinear_arith)
                requires
                    0 <= p < chunk,
            ;
            assert(image(y.data, size, 0) =~= y.data);
            assert(image(up.data, ic * hw, 0) =~= up.data);
            if ic == 0 {
                lemma_whole(v, 0);
                let c = bias[p / hw];
                assert(plain[p] == c);
                lemma_same(v, zero::<T>().plus_spec(c), c);
            } else {
                assert(folded[p] == gemm_at(bias[p / hw], w, up.data, hw, ic, p));
                assert(plain[p] == conv1x1_at(up.data, w, bias, ic, hw, p));
            }
        }
        assert(folded =~= plain);
    }
}

proof fn lemma_fusion<T: Scalar>(
    v: spec_fn(T) -> real,
    a: DptOptions,
    b: DptOptions,
    f: FusionW<T>,
    features: int,
    c: int,
    top: Planes<T>,
    lateral: Option<Planes<T>>,
    out_h: int,
    out_w: int,
)
    requires
        faithful(v),
        told_apart(v),
        f.wf(features, c),
        0 <= top.h,
        0 <= top.w,
        lateral matches Some(l) ==> 0 <= l.h && 0 <= l.w,
        0 <= out_h,
        0 <= out_w,
    ensures
        fusion_of(a, f, top, lateral, out_h, out_w) == fusion_of(
            b,
            f,
            top,
            lateral,
            out_h,
            out_w,
        ),
        fusion_of(a, f, top, lateral, out_h, out_w).h == out_h,
        fusion_of(a, f, top, lateral, out_h, out_w).w == out_w,
{
    if let (Some(lat), Some(rc1)) = (lateral, f.rc1) {
        lemma_unit(v, a.conv, b.conv, rc1, features, c, lat);
    }
    let y = match (lateral, f.rc1) {
        (Some(lat), Some(rc1)) => Planes {
            data: sum_of(top.data, unit_of(a.conv, rc1, lat).data),
            ..top
        },
        _ => top,
    };
    lemma_unit(v, a.conv, b.conv, f.rc2, features, c, y);
    let mid = unit_of(a.conv, f.rc2, y);
    lemma_area(y.h, y.w);
    lemma_planes(f.rc2.c2.oc as int, y.h * y.w);
    lemma_tail(v, a, b, f, mid, out_h, out_w);
}

// ---- the decoder --------------------------------------------------------------------

proof fn lemma_lateral<T: Analytic>(
    v: spec_fn(T) -> real,
    a: ConvOptions,
    b: ConvOptions,
    head: FastDptHead<T>,
    c: int,
    s: int,
    feat: Seq<T>,
    gh: int,
    gw: int,
    uv: Option<Seq<T>>,
)
    requires
        faithful(v),
        told_apart(v),
        head.wf(c),
        0 <= s < 4,
        0 <= gh,
        0 <= gw,
    ensures
        lateral_of(a, head, s, feat, gh, gw, uv) == lateral_of(b, head, s, feat, gh, gw, uv),
        0 <= lateral_of(a, head, s, feat, gh, gw, uv).h,
        0 <= lateral_of(a, head, s, feat, gh, gw, uv).w,
{
    let x = projected_of(head, s, feat, gh, gw, uv);
    let resized = if s == 0 {
        conv_t_of(head.resize0, x)
    } else if s == 1 {
        conv_t_of(head.resize1, x)
    } else if s == 2 {
        x
    } else {
        stride2_of(head.resize3, x)
    };
    assert(x.h == gh && x.w == gw);
    lemma_planes(gh, head.resize0.k as int);
    lemma_planes(gw, head.resize0.k as int);
    lemma_planes(gh, head.resize1.k as int);
    lemma_planes(gw, head.resize1.k as int);
    assert(head.layer_rn[s].wf(c));
    lemma_conv(v, a, b, head.layer_rn[s], resized, false, None, false);
}

proof fn lemma_pyramid<T: Analytic>(
    v: spec_fn(T) -> real,
    a: DptOptions,
    b: DptOptions,
    head: FastDptHead<T>,
    c: int,
    feats: Seq<Seq<T>>,
    gh: int,
    gw: int,
    uv: Option<&UvEmbeds<T>>,
)
    requires
        faithful(v),
        told_apart(v),
        head.wf(c),
        0 <= gh,
        0 <= gw,
    ensures
        main_pyramid(a, head, feats, gh, gw, uv) == main_pyramid(b, head, feats, gh, gw, uv),
        main_pyramid(a, head, feats, gh, gw, uv).h == 8 * gh,
        main_pyramid(a, head, feats, gh, gw, uv).w == 8 * gw,
{
    let lats = laterals_of(a.conv, head, feats, gh, gw, uv);
    let others = laterals_of(b.conv, head, feats, gh, gw, uv);
    assert forall|s: int| 0 <= s < 4 implies #[trigger] lats[s] == others[s] && 0 <= lats[s].h && 0
        <= lats[s].w by {
        let pe = stage_embed(uv, s);
        lemma_lateral(v, a.conv, b.conv, head, c, s, feats[s], gh, gw, pe);
    }
    assert(lats =~= others);
    let f = head.features as int;
    assert(0 <= lats[3].h && 0 <= lats[3].w && 0 <= lats[2].h && 0 <= lats[2].w);
    assert(0 <= lats[1].h && 0 <= lats[1].w && 0 <= lats[0].h && 0 <= lats[0].w);
    let out4 = fusion_of(a, head.rn4, lats[3], None, gh, gw);
    lemma_fusion(v, a, b, head.rn4, f, c, lats[3], None, gh, gw);
    let out3 = fusion_of(a, head.rn3, out4, Some(lats[2]), 2 * gh, 2 * gw);
    lemma_fusion(v, a, b, head.rn3, f, c, out4, Some(lats[2]), 2 * gh, 2 * gw);
    let out2 = fusion_of(a, head.rn2, out3, Some(lats[1]), 4 * gh, 4 * gw);
    lemma_fusion(v, a, b, head.rn2, f, c, out3, Some(lats[1]), 4 * gh, 4 * gw);
    lemma_fusion(v, a, b, head.rn1, f, c, out2, Some(lats[0]), 8 * gh, 8 * gw);
}

/// A 3x3 convolution with an upsample folded in is that of the upsampled map.
proof fn lemma_folded<T: Scalar>(
    v: spec_fn(T) -> real,
    a: ConvOptions,
    b: ConvOptions,
    w: Conv3x3W<T>,
    y: Planes<T>,
    h: int,
    wid: int,
    uv: Option<Seq<T>>,
)
    requires
        faithful(v),
        told_apart(v),
        w.weight.len() == w.oc * w.ic * 9,
        w.bias.len() == w.oc,
        y.wf(),
        y.c == w.ic,
        0 <= h,
        0 <= wid,
    ensures
        Seq::new(
            (w.oc * (h * wid)) as nat,
            |p: int|
                conv3x3_upsample_at(
                    a,
                    y.data,
                    w.weight@,
                    w.bias@,
                    w.ic as int,
                    y.h,
                    y.w,
                    h,
                    wid,
                    uv,
                    p,
                ),
        ) == conv3x3_of(b, w, upsampled_of(y, h, wid, uv), false, None, true).data,
{
    let up = upsampled_of(y, h, wid, uv);
    let (weight, bias, ic) = (w.weight@, w.bias@, w.ic as int);
    let one = Seq::new(
        (w.oc * (h * wid)) as nat,
        |p: int| conv3x3_upsample_at(a, y.data, weight, bias, ic, y.h, y.w, h, wid, uv, p),
    );
    let other = conv3x3_of(b, w, up, false, None, true).data;
    lemma_area(h, wid);
    lemma_planes(w.oc as int, h * wid);
    let tiled = ConvOptions { conv3x3: Conv3x3Mode::Wino, wino: a.wino };
    assert forall|p: int| 0 <= p < one.len() implies one[p] == other[p] by {
        if ic > 0 {
            law_fused_upsample(tiled, y, weight, bias, h, wid, uv, p);
            let x = conv3x3_at(tiled, up.data, weight, bias, ic, h, wid, false, None, true, p);
            assert(one[p] == x);
            law_convolutions_agree(
                v,
                tiled,
                b,
                up.data,
                weight,
                bias,
                1,
                ic,
                h,
                wid,
                false,
                None,
                true,
                p,
            );
            lemma_same(v, x, other[p]);
        }
    }
    assert(one =~= other);
}

/// Where nothing is rounded and numbers are told apart by what they stand for,
/// the decoder gives the same depth and sky whatever its switches: what it gives
/// with every shortcut is what it gives without any.
pub proof fn law_shortcuts_agree<T: Analytic>(
    v: spec_fn(T) -> real,
    opts: DptOptions,
    head: FastDptHead<T>,
    c: int,
    feats: Seq<Seq<T>>,
    gh: int,
    gw: int,
    h: int,
    w: int,
    stages: Option<&UvEmbeds<T>>,
    output: Option<Seq<T>>,
)
    requires
        faithful(v),
        told_apart(v),
        head.wf(c),
        0 <= gh <= 0x0fff_ffff,
        0 <= gw <= 0x0fff_ffff,
        0 <= h,
        0 <= w,
    ensures
        ({
            let fast = main_pyramid(opts, head, feats, gh, gw, stages);
            let slow = main_pyramid(plain_options(), head, feats, gh, gw, stages);
            &&& fast == slow
            &&& depth_of(opts, head, fast, h, w, output) == depth_of(
                plain_options(),
                head,
                slow,
                h,
                w,
                output,
            )
            &&& sky_of(opts, head, fast, h, w, output) == sky_of(
                plain_options(),
                head,
                slow,
                h,
                w,
                output,
            )
        }),
{
    let plain = plain_options();
    lemma_pyramid(v, opts, plain, head, c, feats, gh, gw, stages);
    let pyramid = main_pyramid(opts, head, feats, gh, gw, stages);
    lemma_conv(v, opts.conv, plain.conv, head.out1, pyramid, false, None, false);
    let y = conv3x3_of(opts.conv, head.out1, pyramid, false, None, false);
    lemma_area(y.h, y.w);
    lemma_planes(head.out1.oc as int, y.h * y.w);
    let map = output_map_of(y, h, w, output);
    lemma_conv(v, opts.conv, plain.conv, head.out2a, map, false, None, true);
    if let Some(k) = head.sky {
        lemma_conv(v, opts.conv, plain.conv, k.0, map, false, None, true);
    }
    if folds_output(opts, head, y.h != h || y.w != w) {
        lemma_folded(v, opts.conv, plain.conv, head.out2a, y, h, w, output);
    }
}

} // verus!
