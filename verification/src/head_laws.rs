//! What the ray branch and the Gaussian decoder compute, where arithmetic is exact.

use crate::cam_pose::relu_all;
use crate::decoder_laws::{
    branch, convolved, cut, law_convolution, law_pointwise, law_stretched, lemma_place,
    lemma_together, pointwise, resized, seen, shows, together,
};
use crate::dpt_head::{chain_of, channels_normalized, plain_options, ray_map_of, AuxRayHead};
use crate::fast_dpt::{
    conv3x3_of, main_pyramid, output_map_of, pyramid_of, sum_of, transposed, Conv3x3W, Planes,
    UvEmbeds,
};
use crate::gs_head::{gs_map_of, merge_step, merged_of, GsHead};
use crate::index::{lemma_split, lemma_within};
use crate::layer_laws::law_layernorm;
use crate::norm::{layernorm_row, layernorm_rows_of, row_of};
use crate::output_laws::{errors, law_error_unit};
use crate::reals::{faithful, faithful_roots, lemma_sum_agree, lemma_whole, prod, sum};
use crate::scalar::{Analytic, Gaussian, Scalar};
use crate::sort::faithful_floors;
use vstd::prelude::*;

verus! {

/// What passes of a number: half of it times one more than the error function of the
/// number times `c`.
pub open spec fn passed(er: spec_fn(real) -> real, c: real, x: real) -> real {
    prod(1 as real + er(prod(x, c)), x) / (2 as real)
}

/// What passes of a picture.
pub open spec fn passing(
    er: spec_fn(real) -> real,
    c: real,
    m: spec_fn(int, int, int) -> real,
) -> spec_fn(int, int, int) -> real {
    |ch: int, y: int, x: int| passed(er, c, m(ch, y, x))
}

/// A step of the image branch: a convolution, and what passes of it.
proof fn lemma_merge_step<T: Gaussian>(
    v: spec_fn(T) -> real,
    er: spec_fn(real) -> real,
    w: Conv3x3W<T>,
    p: Planes<T>,
    m: spec_fn(int, int, int) -> real,
)
    requires
        errors(v, er),
        shows(v, p, m),
        p.c == w.ic,
        1 <= w.ic,
        w.bias.len() == w.oc,
    ensures
        ({
            let r = merge_step(w, p);
            let c = v(T::from_bits_spec(0x3f35_04f3));
            &&& r.c == w.oc && r.h == p.h && r.w == p.w
            &&& shows(v, r, passing(er, c, convolved(v, w, m, p.h, p.w, 1)))
        }),
{
    law_convolution(v, w, p, false, None, false, m, m);
    let y = conv3x3_of(plain_options().conv, w, p, false, None, false);
    let k = convolved(v, w, m, p.h, p.w, 1);
    let r = merge_step(w, p);
    let c = v(T::from_bits_spec(0x3f35_04f3));
    assert forall|ch: int, i: int, j: int|
        0 <= ch < r.c && 0 <= i < r.h && 0 <= j < r.w implies #[trigger] seen(v, r, ch, i, j)
        == passing(er, c, k)(ch, i, j) by {
        lemma_place(r.c, r.h, r.w, ch, i, j);
        let x = y.data[(ch * r.h + i) * r.w + j];
        assert(seen(v, y, ch, i, j) == k(ch, i, j));
        law_error_unit(v, er, x, x.negated_spec());
    }
}

/// The map of the Gaussian decoder: the pyramid's first convolution at the size of the
/// image, with the image itself through three convolutions of which each passes on what
/// is likely, and with the embedding of positions; then the output branch.
pub proof fn law_gaussian_map<T: Gaussian>(
    v: spec_fn(T) -> real,
    er: spec_fn(real) -> real,
    head: GsHead<T>,
    feats: Seq<Seq<T>>,
    image: Seq<T>,
    gh: int,
    gw: int,
    h: int,
    w: int,
    uv: &UvEmbeds<T>,
    top: spec_fn(int, int, int) -> real,
    colours: spec_fn(int, int, int) -> real,
    e: spec_fn(int, int, int) -> real,
    c: int,
)
    requires
        faithful_floors(v),
        errors(v, er),
        head.wf(c),
        1 <= head.main.out1.ic && 1 <= head.main.out2a.ic,
        1 <= head.merger.1.ic && 1 <= head.merger.2.ic,
        shows(v, main_pyramid(plain_options(), head.main, feats, gh, gw, Some(uv)), top),
        ({
            let t = main_pyramid(plain_options(), head.main, feats, gh, gw, Some(uv));
            t.c == head.main.out1.ic && t.h == 8 * gh && t.w == 8 * gw
        }),
        8 * gh <= usize::MAX,
        8 * gw <= usize::MAX,
        1 <= h <= usize::MAX,
        1 <= w <= usize::MAX,
        shows(v, (Planes { data: image, c: 3, h, w }), colours),
        shows(v, (Planes { data: uv.output@, c: head.main.out1.oc as int, h, w }), e),
    ensures
        ({
            let r = gs_map_of(head, feats, image, gh, gw, h, w, uv);
            let k = v(T::from_bits_spec(0x3f35_04f3));
            let a = passing(er, k, convolved(v, head.merger.0, colours, h, w, 1));
            let b = passing(er, k, convolved(v, head.merger.1, a, h, w, 1));
            let d = passing(er, k, convolved(v, head.merger.2, b, h, w, 1));
            let deep = resized(
                convolved(v, head.main.out1, top, 8 * gh, 8 * gw, 1),
                8 * gh,
                8 * gw,
                h,
                w,
            );
            &&& r.c == head.main.out2b.oc && r.h == h && r.w == w
            &&& shows(
                v,
                r,
                branch(
                    v,
                    head.main.out2a,
                    head.main.out2b,
                    together(together(deep, d), e),
                    h,
                    w,
                ),
            )
        }),
{
    let o = plain_options();
    let t = main_pyramid(o, head.main, feats, gh, gw, Some(uv));
    let k = v(T::from_bits_spec(0x3f35_04f3));
    law_convolution(v, head.main.out1, t, false, None, false, top, top);
    let y = conv3x3_of(o.conv, head.main.out1, t, false, None, false);
    let m = convolved(v, head.main.out1, top, 8 * gh, 8 * gw, 1);
    let up = output_map_of(y, h, w, None);
    let deep = resized(m, 8 * gh, 8 * gw, h, w);
    if y.h != h || y.w != w {
        law_stretched(v, y, h, w, None, m, m);
    }
    assert(shows(v, up, deep));
    let img = Planes { data: image, c: 3, h, w };
    lemma_merge_step(v, er, head.merger.0, img, colours);
    let a = passing(er, k, convolved(v, head.merger.0, colours, h, w, 1));
    let p0 = merge_step(head.merger.0, img);
    lemma_merge_step(v, er, head.merger.1, p0, a);
    let b = passing(er, k, convolved(v, head.merger.1, a, h, w, 1));
    let p1 = merge_step(head.merger.1, p0);
    lemma_merge_step(v, er, head.merger.2, p1, b);
    let d = passing(er, k, convolved(v, head.merger.2, b, h, w, 1));
    let p2 = merge_step(head.merger.2, p1);
    assert(p2 == merged_of(head, img));
    assert((Planes { data: p2.data, ..up }) == p2);
    lemma_together(v, up, p2.data, deep, d);
    let s = Planes { data: sum_of(up.data, p2.data), ..up };
    assert((Planes { data: uv.output@, ..s }) == (Planes {
        data: uv.output@,
        c: head.main.out1.oc as int,
        h,
        w,
    }));
    lemma_together(v, s, uv.output@, together(deep, d), e);
    let all = Planes { data: sum_of(s.data, uv.output@), ..s };
    let pic = together(together(deep, d), e);
    law_convolution(v, head.main.out2a, all, false, None, true, pic, pic);
    let z = conv3x3_of(o.conv, head.main.out2a, all, false, None, true);
    law_pointwise(v, head.main.out2b, z, cut(convolved(v, head.main.out2a, pic, h, w, 1)));
}

/// Convolutions one after the other.
pub open spec fn convolved_often<T>(
    v: spec_fn(T) -> real,
    convs: Seq<Conv3x3W<T>>,
    m: spec_fn(int, int, int) -> real,
    h: int,
    w: int,
) -> spec_fn(int, int, int) -> real
    decreases convs.len(),
{
    if convs.len() == 0 {
        m
    } else {
        convolved(v, convs.last(), convolved_often(v, convs.drop_last(), m, h, w), h, w, 1)
    }
}

/// Each convolution takes what the one before it gives, the first one `c` channels.
pub open spec fn one_by_one<T>(convs: Seq<Conv3x3W<T>>, c: int) -> bool
    decreases convs.len(),
{
    convs.len() > 0 ==> {
        let before = convs.drop_last();
        &&& one_by_one(before, c)
        &&& 1 <= convs.last().ic
        &&& convs.last().ic == (if before.len() == 0 {
            c
        } else {
            before.last().oc as int
        })
        &&& convs.last().bias.len() == convs.last().oc
    }
}

proof fn lemma_chain<T: Scalar>(
    v: spec_fn(T) -> real,
    convs: Seq<Conv3x3W<T>>,
    p: Planes<T>,
    m: spec_fn(int, int, int) -> real,
)
    requires
        faithful(v),
        shows(v, p, m),
        one_by_one(convs, p.c),
    ensures
        ({
            let r = chain_of(plain_options().conv, convs, p);
            &&& r.c == (if convs.len() == 0 {
                p.c
            } else {
                convs.last().oc as int
            })
            &&& r.h == p.h && r.w == p.w
            &&& shows(v, r, convolved_often(v, convs, m, p.h, p.w))
        }),
    decreases convs.len(),
{
    if convs.len() > 0 {
        let before = convs.drop_last();
        lemma_chain(v, before, p, m);
        let a = chain_of(plain_options().conv, before, p);
        let k = convolved_often(v, before, m, p.h, p.w);
        law_convolution(v, convs.last(), a, false, None, false, k, k);
    }
}

/// The channels of each pixel are normalised together, away from all other pixels: with
/// the mean and the variance of the pixel's own channels and a root of the variance and
/// the epsilon, each channel less its bias is that root's share of the weighted distance
/// from the mean.
pub proof fn law_channel_norm<T: Analytic>(
    v: spec_fn(T) -> real,
    p: Planes<T>,
    w: Seq<T>,
    b: Seq<T>,
    eps: T,
    m: spec_fn(int, int, int) -> real,
    ch: int,
    y: int,
    x: int,
    mean: real,
    variance: real,
    root: real,
)
    requires
        faithful_roots(v),
        shows(v, p, m),
        0 < p.c <= usize::MAX,
        0 <= ch < p.c,
        0 <= y < p.h,
        0 <= x < p.w,
        prod(mean, p.c as real) == sum(|i: int| m(i, y, x), p.c as nat),
        prod(variance, p.c as real) == sum(
            |i: int| prod(m(i, y, x) - mean, m(i, y, x) - mean),
            p.c as nat,
        ),
        root > 0 as real,
        prod(root, root) == variance + v(eps),
    ensures
        channels_normalized(p, w, b, eps).c == p.c,
        channels_normalized(p, w, b, eps).h == p.h,
        channels_normalized(p, w, b, eps).w == p.w,
        channels_normalized(p, w, b, eps).data.len() == p.data.len(),
        prod(seen(v, channels_normalized(p, w, b, eps), ch, y, x) - v(b[ch]), root) == prod(
            m(ch, y, x) - mean,
            v(w[ch]),
        ),
{
    let hw = p.h * p.w;
    let rows = transposed(p.data, p.c, hw);
    let normed = layernorm_rows_of(rows, hw, p.c, w, b, eps, false);
    let px = y * p.w + x;
    lemma_place(p.c, p.h, p.w, ch, y, x);
    lemma_within(px, hw, ch, p.c);
    lemma_split(px, p.c, ch);
    assert(p.c * hw == hw * p.c) by (nonlinear_arith);
    let row = row_of(rows, p.c, px);
    assert(px * p.c + p.c <= hw * p.c) by (nonlinear_arith)
        requires
            px < hw,
            0 < p.c,
    ;
    assert(row.len() == p.c);
    assert forall|i: int| 0 <= i < p.c implies v(#[trigger] row[i]) == m(i, y, x) by {
        lemma_place(p.c, p.h, p.w, i, y, x);
        lemma_within(px, hw, i, p.c);
        lemma_split(px, p.c, i);
        assert(seen(v, p, i, y, x) == m(i, y, x));
    }
    lemma_sum_agree(|i: int| m(i, y, x), |j: int| v(row[j]), p.c as nat);
    lemma_sum_agree(
        |i: int| prod(m(i, y, x) - mean, m(i, y, x) - mean),
        |j: int| prod(v(row[j]) - mean, v(row[j]) - mean),
        p.c as nat,
    );
    law_layernorm(v, row, w, b, eps, mean, variance, root, ch);
    assert(normed[px * p.c + ch] == layernorm_row(row, w, b, eps)[ch]);
}

/// The map of the ray branch: its own pyramid on the shared maps, convolutions one after
/// the other, the embedding of positions, one more convolution, a norm over the channels
/// of each pixel, a cut at zero and a 1x1 convolution.
pub proof fn law_ray_map<T: Analytic>(
    v: spec_fn(T) -> real,
    aux: AuxRayHead<T>,
    lats: Seq<Planes<T>>,
    gh: int,
    gw: int,
    uv: Option<Seq<T>>,
    top: spec_fn(int, int, int) -> real,
    e: spec_fn(int, int, int) -> real,
)
    requires
        faithful(v),
        ({
            let t = pyramid_of(
                plain_options(),
                aux.rn.0,
                aux.rn.1,
                aux.rn.2,
                aux.rn.3,
                lats,
                gh,
                gw,
            );
            &&& shows(v, t, top)
            &&& t.h == 8 * gh && t.w == 8 * gw
            &&& one_by_one(aux.out1@, t.c)
            &&& aux.out2a.ic == (if aux.out1@.len() == 0 {
                t.c
            } else {
                aux.out1@.last().oc as int
            })
        }),
        1 <= aux.out2a.ic && 0 <= aux.out2a.oc,
        aux.out2a.bias.len() == aux.out2a.oc,
        aux.out2b.ic == aux.out2a.oc,
        aux.out2b.bias.len() == aux.out2b.oc,
        uv matches Some(a) ==> shows(
            v,
            (Planes { data: a, c: aux.out2a.ic as int, h: 8 * gh, w: 8 * gw }),
            e,
        ),
    ensures
        ({
            let r = ray_map_of(aux, lats, gh, gw, uv);
            let deep = convolved_often(v, aux.out1@, top, 8 * gh, 8 * gw);
            let placed = if uv is Some {
                together(deep, e)
            } else {
                deep
            };
            exists|a: Planes<T>|
                #![trigger channels_normalized(
                    a,
                    aux.ln.weight@,
                    aux.ln.bias@,
                    T::ratio_spec(1, 100_000),
                )]
                {
                    let n = channels_normalized(
                        a,
                        aux.ln.weight@,
                        aux.ln.bias@,
                        T::ratio_spec(1, 100_000),
                    );
                    &&& a.c == aux.out2a.oc && a.h == 8 * gh && a.w == 8 * gw
                    &&& shows(v, a, convolved(v, aux.out2a, placed, 8 * gh, 8 * gw, 1))
                    &&& r.c == aux.out2b.oc && r.h == 8 * gh && r.w == 8 * gw
                    &&& shows(
                        v,
                        r,
                        pointwise(
                            v,
                            aux.out2b,
                            cut(|ch: int, y: int, x: int| seen(v, n, ch, y, x)),
                        ),
                    )
                }
        }),
{
    lemma_whole::<T>(v, 0);
    let o = plain_options();
    let t = pyramid_of(o, aux.rn.0, aux.rn.1, aux.rn.2, aux.rn.3, lats, gh, gw);
    lemma_chain(v, aux.out1@, t, top);
    let d = chain_of(o.conv, aux.out1@, t);
    let deep = convolved_often(v, aux.out1@, top, 8 * gh, 8 * gw);
    let (p, placed) = match uv {
        Some(pe) => {
            assert((Planes { data: pe, ..d }) == (Planes {
                data: pe,
                c: aux.out2a.ic as int,
                h: 8 * gh,
                w: 8 * gw,
            }));
            lemma_together(v, d, pe, deep, e);
            (Planes { data: sum_of(d.data, pe), ..d }, together(deep, e))
        },
        None => (d, deep),
    };
    law_convolution(v, aux.out2a, p, false, None, false, placed, placed);
    let a = conv3x3_of(o.conv, aux.out2a, p, false, None, false);
    let n = channels_normalized(a, aux.ln.weight@, aux.ln.bias@, T::ratio_spec(1, 100_000));
    let pic = |ch: int, y: int, x: int| seen(v, n, ch, y, x);
    let q = Planes { data: relu_all(n.data), ..n };
    let hw = a.h * a.w;
    assert(n.data.len() == a.c * hw) by {
        assert(0 < hw) by (nonlinear_arith)
            requires
                0 < a.h,
                0 < a.w,
                hw == a.h * a.w,
        ;
        assert(0 <= a.c * hw) by (nonlinear_arith)
            requires
                0 <= a.c,
                0 < hw,
        ;
    }
    assert forall|ch: int, y: int, x: int|
        0 <= ch < q.c && 0 <= y < q.h && 0 <= x < q.w implies #[trigger] seen(v, q, ch, y, x)
        == cut(pic)(ch, y, x) by {
        lemma_place(q.c, q.h, q.w, ch, y, x);
    }
    assert(shows(v, q, cut(pic)));
    law_pointwise(v, aux.out2b, q, cut(pic));
}

} // verus!
