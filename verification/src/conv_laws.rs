//! What holds between the ways a 3x3 convolution is computed: reading an image
//! while it is upsampled is reading the upsampled image, and Winograd tiles give
//! what the direct sum gives wherever the arithmetic is exact.

use crate::exact::{
    cong, lemma_cong_equal, lemma_cong_plus, lemma_half, lemma_plus, lemma_times_unit,
    lemma_times_whole,
};
use crate::fast_conv::{
    batch_input, blend, blend_products, conv1x1_at, conv1x1_upsample_at, conv3x3_at,
    conv3x3_upsample_at, corner_scale, direct_at, direct_term, filter, image, patch, pixel, tap_at,
    upsampled_image, wino_at, wino_choice, wino_term, wino_tile, Conv3x3Mode, ConvOptions, Input,
    WinoChoice,
};
use crate::fast_dpt::{upsampled_of, Planes};
use crate::index::{
    accumulate, lemma_accumulate_agree, lemma_join, lemma_row_within, lemma_split, lemma_within,
};
use crate::scalar::{one, zero, Fixed, Scalar};
use crate::winograd::{
    column, columns_done, two_pass_spec, FiltF2, InpF2, OutpF2, Transform, WinoPolicy, F2, F4,
};
use vstd::prelude::*;

verus! {

// ---- upsampling -----------------------------------------------------------------

/// Two inputs that read alike in their channels give the same tiles.
proof fn lemma_tiles_agree<T: Scalar, W: WinoPolicy<T>>(
    a: Input<T>,
    c: Input<T>,
    w: Seq<T>,
    ic: int,
    o: int,
    ty: int,
    tx: int,
)
    requires
        0 <= ic,
        forall|ch: int, y: int, x: int|
            0 <= ch < ic ==> #[trigger] a.at(ch, y, x) == c.at(ch, y, x),
    ensures
        wino_tile::<T, W>(a, w, ic, o, ty, tx) == wino_tile::<T, W>(c, w, ic, o, ty, tx),
{
    let side = W::tile() + 2;
    let sums = |input: Input<T>|
        Seq::new(
            side * side,
            |pos: int|
                accumulate(
                    zero(),
                    wino_term::<T, W>(input, w, ic, o, ty, tx, pos),
                    ic as nat,
                ),
        );
    assert forall|pos: int| 0 <= pos < side * side implies #[trigger] sums(a)[pos] == sums(
        c,
    )[pos] by {
        let f = wino_term::<T, W>(a, w, ic, o, ty, tx, pos);
        let g = wino_term::<T, W>(c, w, ic, o, ty, tx, pos);
        assert forall|i: int| 0 <= i < ic implies #[trigger] f(i) == g(i) by {
            assert(patch(a, W::tile() as int, i, ty, tx) =~= patch(
                c,
                W::tile() as int,
                i,
                ty,
                tx,
            ));
        }
        lemma_accumulate_agree(zero(), f, g, ic as nat);
    }
    assert(sums(a) =~= sums(c));
}

/// A pixel of the stored upsampled map is what the fused reading gives.
proof fn lemma_fused_pixel<T: Scalar>(
    x: Planes<T>,
    out_h: int,
    out_w: int,
    add: Option<Seq<T>>,
    ch: int,
    y: int,
    xx: int,
)
    requires
        x.wf(),
        0 <= ch < x.c,
        0 <= y < out_h,
        0 <= xx < out_w,
    ensures
        pixel(upsampled_of(x, out_h, out_w, add).data, out_h, out_w, ch, y, xx) == (Input {
            data: x.data,
            h: x.h,
            w: x.w,
            relu: false,
            up: Some((out_h, out_w)),
            add,
        }).at(ch, y, xx),
{
    let hw = out_h * out_w;
    lemma_within(y, out_h, xx, out_w);
    lemma_split(y, out_w, xx);
    lemma_within(ch, x.c, y * out_w + xx, hw);
    lemma_split(ch, hw, y * out_w + xx);
    assert((ch * out_h + y) * out_w + xx == ch * hw + (y * out_w + xx)) by (nonlinear_arith)
        requires
            hw == out_h * out_w,
    ;
}

/// Convolving an image while it is upsampled gives what upsampling it first and
/// convolving the stored result gives.
pub proof fn law_fused_upsample<T: Scalar>(
    opts: ConvOptions,
    x: Planes<T>,
    w: Seq<T>,
    b: Seq<T>,
    out_h: int,
    out_w: int,
    add: Option<Seq<T>>,
    p: int,
)
    requires
        x.wf(),
        0 < x.c,
        opts.conv3x3 != Conv3x3Mode::Direct,
        0 < out_h,
        0 < out_w,
        0 <= p < b.len() * (out_h * out_w),
    ensures
        conv3x3_upsample_at(opts, x.data, w, b, x.c, x.h, x.w, out_h, out_w, add, p)
            == conv3x3_at(
            opts,
            upsampled_of(x, out_h, out_w, add).data,
            w,
            b,
            x.c,
            out_h,
            out_w,
            false,
            None,
            true,
            p,
        ),
{
    let hw = out_h * out_w;
    let chunk = b.len() * hw;
    let up = upsampled_of(x, out_h, out_w, add).data;
    assert(p / chunk == 0 && p % chunk == p) by (nonlinear_arith)
        requires
            0 <= p < chunk,
    ;
    assert(0 <= hw) by (nonlinear_arith)
        requires
            hw == out_h * out_w,
            0 < out_h,
            0 < out_w,
    ;
    assert(x.c * x.h * x.w == x.c * (x.h * x.w)) by (nonlinear_arith);
    assert(x.c * out_h * out_w == x.c * hw) by (nonlinear_arith)
        requires
            hw == out_h * out_w,
    ;
    assert(0 <= x.c * hw) by (nonlinear_arith)
        requires
            0 < x.c,
            0 <= hw,
    ;
    assert(image(x.data, x.c * x.h * x.w, 0) =~= x.data);
    assert(image(up, x.c * out_h * out_w, 0) =~= up);
    let fused = batch_input(x.data, x.c, x.h, x.w, false, Some((out_h, out_w)), add, 0);
    let stored = batch_input(up, x.c, out_h, out_w, false, None, None, 0);
    assert forall|ch: int, y: int, xx: int| 0 <= ch < x.c implies #[trigger] fused.at(ch, y, xx)
        == stored.at(ch, y, xx) by {
        if 0 <= y < out_h && 0 <= xx < out_w {
            lemma_fused_pixel(x, out_h, out_w, add, ch, y, xx);
        }
    }
    let o = p / hw;
    let y = (p % hw) / out_w;
    let xx = (p % hw) % out_w;
    lemma_tiles_agree::<T, F2>(fused, stored, w, x.c, o, y / 2, xx / 2);
    lemma_tiles_agree::<T, F4>(fused, stored, w, x.c, o, y / 4, xx / 4);
}

// ---- Winograd tiles ---------------------------------------------------------------

// The three transforms on integers; the filter's input is given by its halves.

spec fn filt(h0: int, h1: int, h2: int, i: int) -> int {
    if i == 0 {
        2 * h0
    } else if i == 1 {
        h0 + h1 + h2
    } else if i == 2 {
        h0 - h1 + h2
    } else {
        2 * h2
    }
}

spec fn inp(v0: int, v1: int, v2: int, v3: int, i: int) -> int {
    if i == 0 {
        v0 - v2
    } else if i == 1 {
        v1 + v2
    } else if i == 2 {
        v2 - v1
    } else {
        v1 - v3
    }
}

spec fn outp(y0: int, y1: int, y2: int, y3: int, r: int) -> int {
    if r == 0 {
        y0 + y1 + y2
    } else {
        y1 - y2 - y3
    }
}

/// Two outputs of a three-tap filter with four products.
proof fn lemma_line(h0: int, h1: int, h2: int, v0: int, v1: int, v2: int, v3: int)
    ensures
        outp(
            filt(h0, h1, h2, 0) * inp(v0, v1, v2, v3, 0),
            filt(h0, h1, h2, 1) * inp(v0, v1, v2, v3, 1),
            filt(h0, h1, h2, 2) * inp(v0, v1, v2, v3, 2),
            filt(h0, h1, h2, 3) * inp(v0, v1, v2, v3, 3),
            0,
        ) == 2 * (h0 * v0) + 2 * (h1 * v1) + 2 * (h2 * v2),
        outp(
            filt(h0, h1, h2, 0) * inp(v0, v1, v2, v3, 0),
            filt(h0, h1, h2, 1) * inp(v0, v1, v2, v3, 1),
            filt(h0, h1, h2, 2) * inp(v0, v1, v2, v3, 2),
            filt(h0, h1, h2, 3) * inp(v0, v1, v2, v3, 3),
            1,
        ) == 2 * (h0 * v1) + 2 * (h1 * v2) + 2 * (h2 * v3),
{
    assert((2 * h0) * (v0 - v2) == 2 * (h0 * v0) - 2 * (h0 * v2)) by (nonlinear_arith);
    assert((h0 + h1 + h2) * (v1 + v2) == h0 * v1 + h0 * v2 + h1 * v1 + h1 * v2 + h2 * v1 + h2 * v2)
        by (nonlinear_arith);
    assert((h0 - h1 + h2) * (v2 - v1) == h0 * v2 - h0 * v1 - h1 * v2 + h1 * v1 + h2 * v2 - h2 * v1)
        by (nonlinear_arith);
    assert((2 * h2) * (v1 - v3) == 2 * (h2 * v1) - 2 * (h2 * v3)) by (nonlinear_arith);
}

/// A quarter of the filter of channel `i` of output `o`, as integers.
#[verifier::opaque]
spec fn tap(w: Seq<Fixed>, f: int, a: int, b: int) -> int {
    w[f * 9 + (a * 3 + b)].0 as int / 4
}

/// A pixel of an input tile, as a whole number.
#[verifier::opaque]
spec fn spot(input: Input<Fixed>, ch: int, ty: int, tx: int, a: int, b: int) -> int {
    input.at(ch, ty * 2 + a - 1, tx * 2 + b - 1).0 as int / 65536
}

/// Entry `(i, b)` of the filter with its columns transformed, halved.
#[verifier::opaque]
spec fn filt_col(w: Seq<Fixed>, f: int, i: int, b: int) -> int {
    filt(tap(w, f, 0, b), tap(w, f, 1, b), tap(w, f, 2, b), i)
}

/// Entry `(i, j)` of the transformed filter.
spec fn filt_at(w: Seq<Fixed>, f: int, i: int, j: int) -> int {
    filt(filt_col(w, f, i, 0), filt_col(w, f, i, 1), filt_col(w, f, i, 2), j)
}

/// Entry `(i, b)` of the input tile with its columns transformed.
#[verifier::opaque]
spec fn inp_col(input: Input<Fixed>, ch: int, ty: int, tx: int, i: int, b: int) -> int {
    inp(
        spot(input, ch, ty, tx, 0, b),
        spot(input, ch, ty, tx, 1, b),
        spot(input, ch, ty, tx, 2, b),
        spot(input, ch, ty, tx, 3, b),
        i,
    )
}

/// Entry `(i, j)` of the transformed input tile.
spec fn inp_at(input: Input<Fixed>, ch: int, ty: int, tx: int, i: int, j: int) -> int {
    inp(
        inp_col(input, ch, ty, tx, i, 0),
        inp_col(input, ch, ty, tx, i, 1),
        inp_col(input, ch, ty, tx, i, 2),
        inp_col(input, ch, ty, tx, i, 3),
        j,
    )
}

/// One channel's share of output `(r, c)` of a tile: nine products.
#[verifier::opaque]
spec fn taps(w: Seq<Fixed>, f: int, input: Input<Fixed>, ch: int, ty: int, tx: int, r: int, c: int) -> int {
    4 * (tap(w, f, 0, 0) * spot(input, ch, ty, tx, r, c)) + 4 * (tap(w, f, 0, 1) * spot(
        input,
        ch,
        ty,
        tx,
        r,
        c + 1,
    )) + 4 * (tap(w, f, 0, 2) * spot(input, ch, ty, tx, r, c + 2)) + 4 * (tap(w, f, 1, 0) * spot(
        input,
        ch,
        ty,
        tx,
        r + 1,
        c,
    )) + 4 * (tap(w, f, 1, 1) * spot(input, ch, ty, tx, r + 1, c + 1)) + 4 * (tap(w, f, 1, 2)
        * spot(input, ch, ty, tx, r + 1, c + 2)) + 4 * (tap(w, f, 2, 0) * spot(
        input,
        ch,
        ty,
        tx,
        r + 2,
        c,
    )) + 4 * (tap(w, f, 2, 1) * spot(input, ch, ty, tx, r + 2, c + 1)) + 4 * (tap(w, f, 2, 2)
        * spot(input, ch, ty, tx, r + 2, c + 2))
}

/// One channel's product at position `pos` of the transformed tile.
#[verifier::opaque]
spec fn share(w: Seq<Fixed>, f: int, input: Input<Fixed>, ch: int, ty: int, tx: int, pos: int) -> int {
    filt_at(w, f, pos / 4, pos % 4) * inp_at(input, ch, ty, tx, pos / 4, pos % 4)
}

/// Output `(r, c)` of sixteen numbers.
spec fn outp_at(y: spec_fn(int) -> int, r: int, c: int) -> int {
    outp(
        outp(y(0), y(4), y(8), y(12), r),
        outp(y(1), y(5), y(9), y(13), r),
        outp(y(2), y(6), y(10), y(14), r),
        outp(y(3), y(7), y(11), y(15), r),
        c,
    )
}

/// Along row `i`: four products give the three taps of one output.
#[verifier::spinoff_prover]
proof fn lemma_across(w: Seq<Fixed>, f: int, input: Input<Fixed>, ch: int, ty: int, tx: int, i: int, c: int)
    requires
        0 <= i < 4,
        0 <= c < 2,
    ensures
        outp(
            share(w, f, input, ch, ty, tx, i * 4),
            share(w, f, input, ch, ty, tx, i * 4 + 1),
            share(w, f, input, ch, ty, tx, i * 4 + 2),
            share(w, f, input, ch, ty, tx, i * 4 + 3),
            c,
        ) == 2 * (filt_col(w, f, i, 0) * inp_col(input, ch, ty, tx, i, c)) + 2 * (filt_col(
            w,
            f,
            i,
            1,
        ) * inp_col(input, ch, ty, tx, i, c + 1)) + 2 * (filt_col(w, f, i, 2) * inp_col(
            input,
            ch,
            ty,
            tx,
            i,
            c + 2,
        )),
{
    reveal(share);
    lemma_split(i, 4, 0);
    lemma_split(i, 4, 1);
    lemma_split(i, 4, 2);
    lemma_split(i, 4, 3);
    lemma_line(
        filt_col(w, f, i, 0),
        filt_col(w, f, i, 1),
        filt_col(w, f, i, 2),
        inp_col(input, ch, ty, tx, i, 0),
        inp_col(input, ch, ty, tx, i, 1),
        inp_col(input, ch, ty, tx, i, 2),
        inp_col(input, ch, ty, tx, i, 3),
    );
}

/// Down column `b` of the filter, on column `d` of the tile.
proof fn lemma_down(w: Seq<Fixed>, f: int, input: Input<Fixed>, ch: int, ty: int, tx: int, b: int, d: int, r: int)
    requires
        0 <= r < 2,
    ensures
        outp(
            filt_col(w, f, 0, b) * inp_col(input, ch, ty, tx, 0, d),
            filt_col(w, f, 1, b) * inp_col(input, ch, ty, tx, 1, d),
            filt_col(w, f, 2, b) * inp_col(input, ch, ty, tx, 2, d),
            filt_col(w, f, 3, b) * inp_col(input, ch, ty, tx, 3, d),
            r,
        ) == 2 * (tap(w, f, 0, b) * spot(input, ch, ty, tx, r, d)) + 2 * (tap(w, f, 1, b) * spot(
            input,
            ch,
            ty,
            tx,
            r + 1,
            d,
        )) + 2 * (tap(w, f, 2, b) * spot(input, ch, ty, tx, r + 2, d)),
{
    reveal(filt_col);
    reveal(inp_col);
    lemma_line(
        tap(w, f, 0, b),
        tap(w, f, 1, b),
        tap(w, f, 2, b),
        spot(input, ch, ty, tx, 0, d),
        spot(input, ch, ty, tx, 1, d),
        spot(input, ch, ty, tx, 2, d),
        spot(input, ch, ty, tx, 3, d),
    );
}

/// Sixteen products of transformed numbers give the nine taps.
#[verifier::spinoff_prover]
proof fn lemma_square(w: Seq<Fixed>, f: int, input: Input<Fixed>, ch: int, ty: int, tx: int, r: int, c: int)
    requires
        0 <= r < 2,
        0 <= c < 2,
    ensures
        outp_at(|pos: int| share(w, f, input, ch, ty, tx, pos), r, c) == taps(
            w,
            f,
            input,
            ch,
            ty,
            tx,
            r,
            c,
        ),
{
    reveal(taps);
    lemma_across(w, f, input, ch, ty, tx, 0, c);
    lemma_across(w, f, input, ch, ty, tx, 1, c);
    lemma_across(w, f, input, ch, ty, tx, 2, c);
    lemma_across(w, f, input, ch, ty, tx, 3, c);
    lemma_down(w, f, input, ch, ty, tx, 0, c, r);
    lemma_down(w, f, input, ch, ty, tx, 1, c + 1, r);
    lemma_down(w, f, input, ch, ty, tx, 2, c + 2, r);
}

/// Filters whose numbers are multiples of four steps, small enough for their
/// transforms to be exact.
pub open spec fn exact_filters(w: Seq<Fixed>) -> bool {
    forall|i: int|
        0 <= i < w.len() ==> (#[trigger] w[i]).0 as int % 4 == 0 && -0x1000_0000_0000_0000 <= w[i].0
            <= 0x1000_0000_0000_0000
}

/// Pixels that are whole numbers, small enough for their transforms to be exact.
pub open spec fn exact_pixels(x: Seq<Fixed>) -> bool {
    forall|i: int|
        0 <= i < x.len() ==> (#[trigger] x[i]).0 as int % 65536 == 0 && -0x1000_0000_0000_0000
            <= x[i].0 <= 0x1000_0000_0000_0000
}

proof fn lemma_filt_row(x: Seq<Fixed>, h0: int, h1: int, h2: int)
    requires
        x.len() == 3,
        x[0].0 == 2 * h0,
        x[1].0 == 2 * h1,
        x[2].0 == 2 * h2,
        -0x1000_0000_0000_0000 <= h0 <= 0x1000_0000_0000_0000,
        -0x1000_0000_0000_0000 <= h1 <= 0x1000_0000_0000_0000,
        -0x1000_0000_0000_0000 <= h2 <= 0x1000_0000_0000_0000,
    ensures
        forall|i: int|
            0 <= i < 4 ==> (#[trigger] <FiltF2 as Transform<Fixed>>::row(x)[i]).0 == filt(
                h0,
                h1,
                h2,
                i,
            ),
{
    lemma_plus(x[0], x[1]);
    lemma_plus(x[0].plus_spec(x[1]), x[2]);
    lemma_plus(x[0].minus_spec(x[1]), x[2]);
    lemma_half(x[0].plus_spec(x[1]).plus_spec(x[2]));
    lemma_half(x[0].minus_spec(x[1]).plus_spec(x[2]));
}

proof fn lemma_inp_row(x: Seq<Fixed>, v0: int, v1: int, v2: int, v3: int)
    requires
        x.len() == 4,
        x[0].0 == 65536 * v0,
        x[1].0 == 65536 * v1,
        x[2].0 == 65536 * v2,
        x[3].0 == 65536 * v3,
        forall|i: int|
            0 <= i < 4 ==> -0x2000_0000_0000_0000 <= (#[trigger] x[i]).0 <= 0x2000_0000_0000_0000,
    ensures
        forall|i: int|
            0 <= i < 4 ==> (#[trigger] <InpF2 as Transform<Fixed>>::row(x)[i]).0 == 65536 * inp(
                v0,
                v1,
                v2,
                v3,
                i,
            ),
{
    assert(-0x2000_0000_0000_0000 <= x[0].0 <= 0x2000_0000_0000_0000);
    assert(-0x2000_0000_0000_0000 <= x[1].0 <= 0x2000_0000_0000_0000);
    assert(-0x2000_0000_0000_0000 <= x[2].0 <= 0x2000_0000_0000_0000);
    assert(-0x2000_0000_0000_0000 <= x[3].0 <= 0x2000_0000_0000_0000);
    lemma_plus(x[0], x[2]);
    lemma_plus(x[1], x[2]);
    lemma_plus(x[2], x[1]);
    lemma_plus(x[1], x[3]);
}

proof fn lemma_outp_row(x: Seq<Fixed>, y0: int, y1: int, y2: int, y3: int)
    requires
        x.len() == 4,
        cong(x[0].0 as int, y0),
        cong(x[1].0 as int, y1),
        cong(x[2].0 as int, y2),
        cong(x[3].0 as int, y3),
    ensures
        <OutpF2 as Transform<Fixed>>::row(x).len() == 2,
        cong(<OutpF2 as Transform<Fixed>>::row(x)[0].0 as int, outp(y0, y1, y2, y3, 0)),
        cong(<OutpF2 as Transform<Fixed>>::row(x)[1].0 as int, outp(y0, y1, y2, y3, 1)),
{
    lemma_cong_plus(x[0], x[1], y0, y1);
    lemma_cong_plus(x[0].plus_spec(x[1]), x[2], y0 + y1, y2);
    lemma_cong_plus(x[1], x[2], y1, y2);
    lemma_cong_plus(x[1].minus_spec(x[2]), x[3], y1 - y2, y3);
}

#[verifier::spinoff_prover]
proof fn lemma_filt_square(w: Seq<Fixed>, f: int, e: int)
    requires
        exact_filters(w),
        0 <= f,
        f * 9 + 9 <= w.len(),
        0 <= e < 16,
    ensures
        two_pass_spec::<Fixed, FiltF2>(filter(w, f))[e].0 == filt_at(w, f, e / 4, e % 4),
{
    let g = filter(w, f);
    let i = e / 4;
    let line = columns_done::<Fixed, FiltF2>(g, i);
    assert forall|b: int| 0 <= b < 3 implies (#[trigger] line[b]).0 == 2 * filt_col(w, f, i, b)
        && -0x1000_0000_0000_0000 <= filt_col(w, f, i, b) <= 0x1000_0000_0000_0000 by {
        reveal(filt_col);
        reveal(tap);
        let col = column(g, 3, b);
        assert(col[0] == w[f * 9 + (0 * 3 + b)]);
        assert(col[1] == w[f * 9 + (1 * 3 + b)]);
        assert(col[2] == w[f * 9 + (2 * 3 + b)]);
        lemma_filt_row(col, 2 * tap(w, f, 0, b), 2 * tap(w, f, 1, b), 2 * tap(w, f, 2, b));
        assert(line[b] == <FiltF2 as Transform<Fixed>>::row(col)[i]);
    }
    assert(line[0].0 == 2 * filt_col(w, f, i, 0));
    assert(line[1].0 == 2 * filt_col(w, f, i, 1));
    assert(line[2].0 == 2 * filt_col(w, f, i, 2));
    lemma_filt_row(line, filt_col(w, f, i, 0), filt_col(w, f, i, 1), filt_col(w, f, i, 2));
    let square = two_pass_spec::<Fixed, FiltF2>(g);
    assert(<FiltF2 as Transform<Fixed>>::width_out() == 4);
    assert(square.len() == 16);
    assert(square[e] == <FiltF2 as Transform<Fixed>>::row(line)[e % 4]);
}

/// The pixels of channel `ch` are whole numbers, and not too large.
spec fn exact_channel(input: Input<Fixed>, ch: int) -> bool {
    forall|y: int, x: int|
        (#[trigger] input.at(ch, y, x)).0 as int % 65536 == 0 && -0x1000_0000_0000_0000 <= input.at(
            ch,
            y,
            x,
        ).0 <= 0x1000_0000_0000_0000
}

#[verifier::spinoff_prover]
proof fn lemma_inp_square(input: Input<Fixed>, ch: int, ty: int, tx: int, e: int)
    requires
        exact_channel(input, ch),
        0 <= e < 16,
    ensures
        two_pass_spec::<Fixed, InpF2>(patch(input, 2, ch, ty, tx))[e].0 == 65536 * inp_at(
            input,
            ch,
            ty,
            tx,
            e / 4,
            e % 4,
        ),
{
    let d = patch(input, 2, ch, ty, tx);
    let i = e / 4;
    let line = columns_done::<Fixed, InpF2>(d, i);
    assert forall|b: int| 0 <= b < 4 implies (#[trigger] line[b]).0 == 65536 * inp_col(
        input,
        ch,
        ty,
        tx,
        i,
        b,
    ) && -0x2000_0000_0000_0000 <= line[b].0 <= 0x2000_0000_0000_0000 by {
        reveal(inp_col);
        reveal(spot);
        let col = column(d, 4, b);
        assert forall|a: int| 0 <= a < 4 implies (#[trigger] col[a]) == input.at(
            ch,
            ty * 2 + a - 1,
            tx * 2 + b - 1,
        ) by {
            lemma_split(a, 4, b);
        }
        assert(col[0].0 == 65536 * spot(input, ch, ty, tx, 0, b));
        assert(col[1].0 == 65536 * spot(input, ch, ty, tx, 1, b));
        assert(col[2].0 == 65536 * spot(input, ch, ty, tx, 2, b));
        assert(col[3].0 == 65536 * spot(input, ch, ty, tx, 3, b));
        lemma_inp_row(
            col,
            spot(input, ch, ty, tx, 0, b),
            spot(input, ch, ty, tx, 1, b),
            spot(input, ch, ty, tx, 2, b),
            spot(input, ch, ty, tx, 3, b),
        );
        assert(line[b] == <InpF2 as Transform<Fixed>>::row(col)[i]);
    }
    assert(line[0].0 == 65536 * inp_col(input, ch, ty, tx, i, 0));
    assert(line[1].0 == 65536 * inp_col(input, ch, ty, tx, i, 1));
    assert(line[2].0 == 65536 * inp_col(input, ch, ty, tx, i, 2));
    assert(line[3].0 == 65536 * inp_col(input, ch, ty, tx, i, 3));
    lemma_inp_row(
        line,
        inp_col(input, ch, ty, tx, i, 0),
        inp_col(input, ch, ty, tx, i, 1),
        inp_col(input, ch, ty, tx, i, 2),
        inp_col(input, ch, ty, tx, i, 3),
    );
    let square = two_pass_spec::<Fixed, InpF2>(d);
    assert(<InpF2 as Transform<Fixed>>::width_out() == 4);
    assert(square.len() == 16);
    assert(square[e] == <InpF2 as Transform<Fixed>>::row(line)[e % 4]);
}

#[verifier::spinoff_prover]
proof fn lemma_outp_square(x: Seq<Fixed>, y: spec_fn(int) -> int, r: int, c: int)
    requires
        x.len() == 16,
        forall|e: int| 0 <= e < 16 ==> cong((#[trigger] x[e]).0 as int, y(e)),
        0 <= r < 2,
        0 <= c < 2,
    ensures
        cong(two_pass_spec::<Fixed, OutpF2>(x)[r * 2 + c].0 as int, outp_at(y, r, c)),
{
    let line = columns_done::<Fixed, OutpF2>(x, r);
    assert forall|j: int| 0 <= j < 4 implies cong(
        (#[trigger] line[j]).0 as int,
        outp(y(j), y(4 + j), y(8 + j), y(12 + j), r),
    ) by {
        let col = column(x, 4, j);
        assert(col[0] == x[j]);
        assert(col[1] == x[4 + j]);
        assert(col[2] == x[8 + j]);
        assert(col[3] == x[12 + j]);
        lemma_outp_row(col, y(j), y(4 + j), y(8 + j), y(12 + j));
        assert(line[j] == <OutpF2 as Transform<Fixed>>::row(col)[r]);
    }
    assert(cong(line[0].0 as int, outp(y(0), y(4), y(8), y(12), r)));
    assert(cong(line[1].0 as int, outp(y(1), y(5), y(9), y(13), r)));
    assert(cong(line[2].0 as int, outp(y(2), y(6), y(10), y(14), r)));
    assert(cong(line[3].0 as int, outp(y(3), y(7), y(11), y(15), r)));
    lemma_outp_row(
        line,
        outp(y(0), y(4), y(8), y(12), r),
        outp(y(1), y(5), y(9), y(13), r),
        outp(y(2), y(6), y(10), y(14), r),
        outp(y(3), y(7), y(11), y(15), r),
    );
    lemma_split(r, 2, c);
    let square = two_pass_spec::<Fixed, OutpF2>(x);
    assert(<OutpF2 as Transform<Fixed>>::width_out() == 2);
    assert(square.len() == 4);
    assert(square[r * 2 + c] == <OutpF2 as Transform<Fixed>>::row(line)[c]);
    assert(c == 0 || c == 1);
}

// ---- sums over channels -------------------------------------------------------------

/// `f(0) + ... + f(n - 1)`.
spec fn total(f: spec_fn(int) -> int, n: nat) -> int
    decreases n,
{
    if n == 0 {
        0
    } else {
        total(f, (n - 1) as nat) + f(n - 1)
    }
}

/// A sum taken in 64 bits is congruent to the sum.
proof fn lemma_accumulate_cong(start: Fixed, term: spec_fn(int) -> Fixed, f: spec_fn(int) -> int, n: nat)
    requires
        forall|i: int| 0 <= i < n ==> cong((#[trigger] term(i)).0 as int, f(i)),
    ensures
        cong(accumulate(start, term, n).0 as int, start.0 + total(f, n)),
    decreases n,
{
    if n == 0 {
        reveal(cong);
    } else {
        lemma_accumulate_cong(start, term, f, (n - 1) as nat);
        assert(cong(term(n - 1).0 as int, f(n - 1)));
        lemma_cong_plus(
            accumulate(start, term, (n - 1) as nat),
            term(n - 1),
            start.0 + total(f, (n - 1) as nat),
            f(n - 1),
        );
    }
}

/// The output of sums is the sum of outputs.
#[verifier::spinoff_prover]
proof fn lemma_outp_linear(parts: spec_fn(int, int) -> int, n: nat, r: int, c: int)
    ensures
        outp_at(|pos: int| total(|i: int| parts(i, pos), n), r, c) == total(
            |i: int| outp_at(|pos: int| parts(i, pos), r, c),
            n,
        ),
    decreases n,
{
    let sums = |m: nat| |pos: int| total(|i: int| parts(i, pos), m);
    let outs = |i: int| outp_at(|pos: int| parts(i, pos), r, c);
    if n > 0 {
        lemma_outp_linear(parts, (n - 1) as nat, r, c);
        assert forall|pos: int| #[trigger] sums(n)(pos) == sums((n - 1) as nat)(pos) + parts(
            n - 1,
            pos,
        ) by {
            let at = |i: int| parts(i, pos);
            assert(total(at, n) == total(at, (n - 1) as nat) + at(n - 1));
        }
        let s = sums(n);
        let q = sums((n - 1) as nat);
        assert(s(0) == q(0) + parts(n - 1, 0) && s(1) == q(1) + parts(n - 1, 1) && s(2) == q(2)
            + parts(n - 1, 2) && s(3) == q(3) + parts(n - 1, 3));
        assert(s(4) == q(4) + parts(n - 1, 4) && s(5) == q(5) + parts(n - 1, 5) && s(6) == q(6)
            + parts(n - 1, 6) && s(7) == q(7) + parts(n - 1, 7));
        assert(s(8) == q(8) + parts(n - 1, 8) && s(9) == q(9) + parts(n - 1, 9) && s(10) == q(10)
            + parts(n - 1, 10) && s(11) == q(11) + parts(n - 1, 11));
        assert(s(12) == q(12) + parts(n - 1, 12) && s(13) == q(13) + parts(n - 1, 13) && s(14)
            == q(14) + parts(n - 1, 14) && s(15) == q(15) + parts(n - 1, 15));
        assert(outp_at(s, r, c) == outp_at(q, r, c) + outs(n - 1));
        assert(total(outs, n) == total(outs, (n - 1) as nat) + outs(n - 1));
    } else {
        let s = sums(0);
        assert forall|pos: int| #[trigger] s(pos) == 0 by {}
        assert(outp_at(s, r, c) == 0);
    }
}

/// Nine terms at a time.
proof fn lemma_total_by_nine(f: spec_fn(int) -> int, g: spec_fn(int) -> int, n: nat)
    requires
        forall|i: int|
            0 <= i < n ==> #[trigger] g(i) == f(i * 9) + f(i * 9 + 1) + f(i * 9 + 2) + f(i * 9 + 3)
                + f(i * 9 + 4) + f(i * 9 + 5) + f(i * 9 + 6) + f(i * 9 + 7) + f(i * 9 + 8),
    ensures
        total(f, n * 9) == total(g, n),
    decreases n,
{
    if n > 0 {
        let m = (n - 1) as nat;
        let k = m as int;
        lemma_total_by_nine(f, g, m);
        assert(g(k) == f(k * 9) + f(k * 9 + 1) + f(k * 9 + 2) + f(k * 9 + 3) + f(k * 9 + 4) + f(
            k * 9 + 5,
        ) + f(k * 9 + 6) + f(k * 9 + 7) + f(k * 9 + 8));
        reveal_with_fuel(total, 11);
        assert(total(f, m * 9 + 9) == total(f, m * 9) + g(k));
        assert(n * 9 == m * 9 + 9);
    }
}

proof fn lemma_total_agree(f: spec_fn(int) -> int, g: spec_fn(int) -> int, n: nat)
    requires
        forall|i: int| 0 <= i < n ==> #[trigger] f(i) == g(i),
    ensures
        total(f, n) == total(g, n),
    decreases n,
{
    if n > 0 {
        lemma_total_agree(f, g, (n - 1) as nat);
        assert(f(n - 1) == g(n - 1));
    }
}

/// The filter of channel `i` of output `o` lies within the bank.
proof fn lemma_filter_within(oc: int, ic: int, o: int, i: int)
    requires
        0 <= o < oc,
        0 <= i < ic,
    ensures
        0 <= o * ic + i,
        (o * ic + i) * 9 + 9 <= oc * ic * 9,
        o * (ic * 9) == o * ic * 9,
{
    lemma_within(o, oc, i, ic);
    assert(o * (ic * 9) == o * ic * 9) by (nonlinear_arith);
}

/// Output `(r, c)` of a tile: the taps of all channels.
#[verifier::spinoff_prover]
proof fn lemma_tile_taps(
    input: Input<Fixed>,
    w: Seq<Fixed>,
    oc: int,
    ic: int,
    o: int,
    ty: int,
    tx: int,
    r: int,
    c: int,
)
    requires
        exact_filters(w),
        w.len() == oc * ic * 9,
        0 < ic,
        0 <= o < oc,
        forall|ch: int| 0 <= ch < ic ==> #[trigger] exact_channel(input, ch),
        0 <= r < 2,
        0 <= c < 2,
    ensures
        cong(
            wino_tile::<Fixed, F2>(input, w, ic, o, ty, tx)[r * 2 + c].0 as int,
            total(|i: int| taps(w, o * ic + i, input, i, ty, tx, r, c), ic as nat),
        ),
{
    let n = ic as nat;
    let parts = |i: int, pos: int| share(w, o * ic + i, input, i, ty, tx, pos);
    let y = |pos: int| total(|i: int| parts(i, pos), n);
    let x = Seq::new(
        16,
        |pos: int| accumulate(zero(), wino_term::<Fixed, F2>(input, w, ic, o, ty, tx, pos), n),
    );
    assert forall|pos: int| 0 <= pos < 16 implies cong((#[trigger] x[pos]).0 as int, y(pos)) by {
        let term = wino_term::<Fixed, F2>(input, w, ic, o, ty, tx, pos);
        let f = |i: int| parts(i, pos);
        assert forall|i: int| 0 <= i < n implies cong((#[trigger] term(i)).0 as int, f(i)) by {
            reveal(share);
            lemma_filter_within(oc, ic, o, i);
            assert(exact_channel(input, i));
            lemma_filt_square(w, o * ic + i, pos);
            lemma_inp_square(input, i, ty, tx, pos);
            lemma_times_whole(
                two_pass_spec::<Fixed, FiltF2>(filter(w, o * ic + i))[pos],
                two_pass_spec::<Fixed, InpF2>(patch(input, 2, i, ty, tx))[pos],
                inp_at(input, i, ty, tx, pos / 4, pos % 4),
            );
        }
        lemma_accumulate_cong(zero(), term, f, n);
        assert(zero::<Fixed>().0 == 0);
    }
    assert(<F2 as WinoPolicy<Fixed>>::tile() == 2);
    let side = <F2 as WinoPolicy<Fixed>>::tile() + 2;
    assert(side * side == 16);
    assert(wino_tile::<Fixed, F2>(input, w, ic, o, ty, tx) == two_pass_spec::<Fixed, OutpF2>(x));
    lemma_outp_square(x, y, r, c);
    lemma_outp_linear(parts, n, r, c);
    let outs = |i: int| outp_at(|pos: int| parts(i, pos), r, c);
    let nine = |i: int| taps(w, o * ic + i, input, i, ty, tx, r, c);
    assert forall|i: int| 0 <= i < n implies #[trigger] outs(i) == nine(i) by {
        lemma_square(w, o * ic + i, input, i, ty, tx, r, c);
        let a = |pos: int| parts(i, pos);
        let b = |pos: int| share(w, o * ic + i, input, i, ty, tx, pos);
        assert(a =~= b);
    }
    lemma_total_agree(outs, nine, n);
}

/// Channel, row and column of a tap come back from its number.
proof fn lemma_tap_number(i: int, a: int, b: int)
    requires
        0 <= a < 3,
        0 <= b < 3,
    ensures
        (i * 9 + (a * 3 + b)) / 9 == i,
        (i * 9 + (a * 3 + b)) % 9 / 3 == a,
        (i * 9 + (a * 3 + b)) / 3 % 3 == a,
        (i * 9 + (a * 3 + b)) % 3 == b,
{
    let m = a * 3 + b;
    assert(0 <= m < 9);
    lemma_split(i, 9, m);
    assert((i * 9 + m) / 3 == i * 3 + a);
    lemma_split(i, 3, a);
    lemma_split(i * 3 + a, 3, b);
    lemma_split(a, 3, b);
}

/// One product of the direct sum, as integers.
proof fn lemma_direct_product(
    input: Input<Fixed>,
    w: Seq<Fixed>,
    oc: int,
    ic: int,
    wout: int,
    o: int,
    px: int,
    i: int,
    a: int,
    b: int,
)
    requires
        exact_filters(w),
        w.len() == oc * ic * 9,
        0 <= o < oc,
        0 <= i < ic,
        exact_channel(input, i),
        0 < wout,
        0 <= px,
        0 <= a < 3,
        0 <= b < 3,
    ensures
        cong(
            direct_term(input, w, ic, 1, wout, o, px)(i * 9 + (a * 3 + b)).0 as int,
            4 * (tap(w, o * ic + i, a, b) * spot(
                input,
                i,
                (px / wout) / 2,
                (px % wout) / 2,
                (px / wout) % 2 + a,
                (px % wout) % 2 + b,
            )),
        ),
{
    reveal(tap);
    reveal(spot);
    let kic = i * 9 + (a * 3 + b);
    lemma_filter_within(oc, ic, o, i);
    assert(o * (ic * 9) + kic == (o * ic + i) * 9 + (a * 3 + b));
    lemma_tap_number(i, a, b);
    let v = input.at(i, px / wout + a - 1, px % wout + b - 1);
    let k = spot(
        input,
        i,
        (px / wout) / 2,
        (px % wout) / 2,
        (px / wout) % 2 + a,
        (px % wout) % 2 + b,
    );
    assert(v.0 == 65536 * k);
    let t = tap(w, o * ic + i, a, b);
    let f = w[(o * ic + i) * 9 + (a * 3 + b)];
    assert(f.0 == 4 * t);
    lemma_times_whole(f, v, k);
    assert((4 * t) * k == 4 * (t * k)) by (nonlinear_arith);
}

/// Product `kic` of the direct sum of output `o` at `(y, x)`, as integers.
#[verifier::opaque]
spec fn direct_share(w: Seq<Fixed>, o: int, ic: int, input: Input<Fixed>, y: int, x: int, kic: int) -> int {
    4 * (tap(w, o * ic + kic / 9, (kic % 9) / 3, kic % 3) * spot(
        input,
        kic / 9,
        y / 2,
        x / 2,
        y % 2 + (kic % 9) / 3,
        x % 2 + kic % 3,
    ))
}

/// One of the nine products of channel `i`.
proof fn lemma_direct_share(
    w: Seq<Fixed>,
    o: int,
    ic: int,
    input: Input<Fixed>,
    y: int,
    x: int,
    i: int,
    a: int,
    b: int,
)
    requires
        0 <= a < 3,
        0 <= b < 3,
    ensures
        direct_share(w, o, ic, input, y, x, i * 9 + (a * 3 + b)) == 4 * (tap(w, o * ic + i, a, b)
            * spot(input, i, y / 2, x / 2, y % 2 + a, x % 2 + b)),
{
    reveal(direct_share);
    lemma_tap_number(i, a, b);
}

/// The nine products of channel `i`.
proof fn lemma_nine_shares(w: Seq<Fixed>, o: int, ic: int, input: Input<Fixed>, y: int, x: int, i: int)
    ensures
        ({
            let f = |k: int| direct_share(w, o, ic, input, y, x, k);
            taps(w, o * ic + i, input, i, y / 2, x / 2, y % 2, x % 2) == f(i * 9) + f(i * 9 + 1)
                + f(i * 9 + 2) + f(i * 9 + 3) + f(i * 9 + 4) + f(i * 9 + 5) + f(i * 9 + 6) + f(
                i * 9 + 7,
            ) + f(i * 9 + 8)
        }),
{
    reveal(taps);
    lemma_direct_share(w, o, ic, input, y, x, i, 0, 0);
    lemma_direct_share(w, o, ic, input, y, x, i, 0, 1);
    lemma_direct_share(w, o, ic, input, y, x, i, 0, 2);
    lemma_direct_share(w, o, ic, input, y, x, i, 1, 0);
    lemma_direct_share(w, o, ic, input, y, x, i, 1, 1);
    lemma_direct_share(w, o, ic, input, y, x, i, 1, 2);
    lemma_direct_share(w, o, ic, input, y, x, i, 2, 0);
    lemma_direct_share(w, o, ic, input, y, x, i, 2, 1);
    lemma_direct_share(w, o, ic, input, y, x, i, 2, 2);
}

/// An element of the direct sum: the bias and the taps of all channels.
#[verifier::spinoff_prover]
proof fn lemma_direct_taps(
    input: Input<Fixed>,
    w: Seq<Fixed>,
    b: Seq<Fixed>,
    ic: int,
    hout: int,
    wout: int,
    q: int,
)
    requires
        exact_filters(w),
        w.len() == b.len() * ic * 9,
        0 < ic,
        0 < hout,
        0 < wout,
        0 <= q < b.len() * (hout * wout),
        forall|ch: int| 0 <= ch < ic ==> #[trigger] exact_channel(input, ch),
    ensures
        ({
            let o = q / (hout * wout);
            let y = (q % (hout * wout)) / wout;
            let x = (q % (hout * wout)) % wout;
            cong(
                direct_at(input, w, b, ic, 1, hout, wout, q).0 as int,
                b[o].0 + total(
                    |i: int| taps(w, o * ic + i, input, i, y / 2, x / 2, y % 2, x % 2),
                    ic as nat,
                ),
            )
        }),
{
    let hw = hout * wout;
    let oc = b.len() as int;
    lemma_area(hout, wout);
    lemma_row_within(q, oc, hw);
    lemma_join(q, hw);
    let o = q / hw;
    let px = q % hw;
    lemma_join(px, wout);
    let (y, x) = (px / wout, px % wout);
    let term = direct_term(input, w, ic, 1, wout, o, px);
    let nine = |i: int| taps(w, o * ic + i, input, i, y / 2, x / 2, y % 2, x % 2);
    let f = |kic: int| direct_share(w, o, ic, input, y, x, kic);
    assert forall|kic: int| 0 <= kic < ic * 9 implies cong((#[trigger] term(kic)).0 as int, f(kic))
        by {
        let i = kic / 9;
        let (r, c) = ((kic % 9) / 3, kic % 3);
        assert(exact_channel(input, i));
        lemma_direct_product(input, w, oc, ic, wout, o, px, i, r, c);
        assert(i * 9 + (r * 3 + c) == kic);
        lemma_direct_share(w, o, ic, input, y, x, i, r, c);
    }
    lemma_accumulate_cong(b[o], term, f, (ic * 9) as nat);
    assert forall|i: int| 0 <= i < ic implies #[trigger] nine(i) == f(i * 9) + f(i * 9 + 1) + f(
        i * 9 + 2,
    ) + f(i * 9 + 3) + f(i * 9 + 4) + f(i * 9 + 5) + f(i * 9 + 6) + f(i * 9 + 7) + f(i * 9 + 8) by {
        lemma_nine_shares(w, o, ic, input, y, x, i);
    }
    lemma_total_by_nine(f, nine, ic as nat);
}

proof fn lemma_area(h: int, w: int)
    requires
        0 < h,
        0 < w,
    ensures
        0 < h * w,
{
    assert(0 < h * w) by (nonlinear_arith)
        requires
            0 < h,
            0 < w,
    ;
}

/// What is congruent to a sum beside its bias is the sum that has it.
proof fn lemma_with_bias(tile: Fixed, bias: Fixed, direct: Fixed, all: int)
    requires
        cong(tile.0 as int, all),
        cong(direct.0 as int, bias.0 + all),
    ensures
        tile.plus_spec(bias) == direct,
{
    reveal(cong);
    lemma_cong_plus(tile, bias, all, bias.0 as int);
    let tiled = tile.plus_spec(bias);
    let (m, d, s) = (tiled.0 as int, direct.0 as int, bias.0 + all);
    assert(m - d == (m - s) - (d - s));
    lemma_cong_equal(tiled.0, direct.0);
}

/// Where an element stands in its tile.
proof fn lemma_tile_element(
    input: Input<Fixed>,
    w: Seq<Fixed>,
    b: Seq<Fixed>,
    ic: int,
    hout: int,
    wout: int,
    q: int,
)
    ensures
        ({
            let o = q / (hout * wout);
            let y = (q % (hout * wout)) / wout;
            let x = (q % (hout * wout)) % wout;
            wino_at::<Fixed, F2>(input, w, b, ic, hout, wout, q) == wino_tile::<Fixed, F2>(
                input,
                w,
                ic,
                o,
                y / 2,
                x / 2,
            )[(y % 2) * 2 + x % 2].plus_spec(b[o])
        }),
{
    assert(<F2 as WinoPolicy<Fixed>>::tile() == 2);
}

/// On whole pixels and filters of quarters, Winograd tiles and the direct sum
/// agree to the last bit.
#[verifier::spinoff_prover]
#[verifier::rlimit(40)]
proof fn lemma_wino_is_direct(
    input: Input<Fixed>,
    w: Seq<Fixed>,
    b: Seq<Fixed>,
    ic: int,
    hout: int,
    wout: int,
    q: int,
)
    requires
        exact_filters(w),
        w.len() == b.len() * ic * 9,
        0 < ic,
        0 < hout,
        0 < wout,
        0 <= q < b.len() * (hout * wout),
        forall|ch: int| 0 <= ch < ic ==> #[trigger] exact_channel(input, ch),
    ensures
        wino_at::<Fixed, F2>(input, w, b, ic, hout, wout, q) == direct_at(
            input,
            w,
            b,
            ic,
            1,
            hout,
            wout,
            q,
        ),
{
    let hw = hout * wout;
    lemma_area(hout, wout);
    lemma_row_within(q, b.len() as int, hw);
    lemma_join(q, hw);
    let o = q / hw;
    let px = q % hw;
    lemma_join(px, wout);
    let (y, x) = (px / wout, px % wout);
    lemma_tile_taps(input, w, b.len() as int, ic, o, y / 2, x / 2, y % 2, x % 2);
    lemma_direct_taps(input, w, b, ic, hout, wout, q);
    lemma_tile_element(input, w, b, ic, hout, wout, q);
    lemma_with_bias(
        wino_tile::<Fixed, F2>(input, w, ic, o, y / 2, x / 2)[(y % 2) * 2 + x % 2],
        b[o],
        direct_at(input, w, b, ic, 1, hout, wout, q),
        total(|i: int| taps(w, o * ic + i, input, i, y / 2, x / 2, y % 2, x % 2), ic as nat),
    );
}

/// In fixed point, on whole pixels and on filters that are multiples of four
/// steps, all of less than `2^44`, a convolution by Winograd tiles of side two
/// gives exactly what the direct sum gives.
pub proof fn law_winograd_is_direct(
    direct: ConvOptions,
    tiled: ConvOptions,
    x: Seq<Fixed>,
    w: Seq<Fixed>,
    b: Seq<Fixed>,
    n: int,
    ic: int,
    h: int,
    wid: int,
    relu_in: bool,
    residual: Option<Seq<Fixed>>,
    relu_out: bool,
    p: int,
)
    requires
        direct.conv3x3 == Conv3x3Mode::Direct,
        tiled.conv3x3 != Conv3x3Mode::Direct,
        wino_choice(tiled.wino, h, wid) == WinoChoice::F2,
        0 < ic,
        0 < h,
        0 < wid,
        x.len() == n * (ic * h * wid),
        w.len() == b.len() * ic * 9,
        0 <= p < n * (b.len() * (h * wid)),
        exact_pixels(x),
        exact_filters(w),
    ensures
        conv3x3_at(tiled, x, w, b, ic, h, wid, relu_in, residual, relu_out, p) == conv3x3_at(
            direct,
            x,
            w,
            b,
            ic,
            h,
            wid,
            relu_in,
            residual,
            relu_out,
            p,
        ),
{
    let hw = h * wid;
    let chunk = b.len() * hw;
    lemma_area(h, wid);
    if chunk <= 0 {
        assert(b.len() * hw <= 0 && n * chunk > 0 ==> false) by (nonlinear_arith)
            requires
                chunk == b.len() * hw,
                hw > 0,
                b.len() >= 0,
        ;
    }
    lemma_row_within(p, n, chunk);
    lemma_join(p, chunk);
    let n_i = p / chunk;
    let input = batch_input(x, ic, h, wid, relu_in, None, None, n_i);
    let size = ic * h * wid;
    assert(size == ic * hw && 0 < size) by (nonlinear_arith)
        requires
            size == ic * h * wid,
            hw == h * wid,
            0 < ic,
            0 < hw,
    ;
    lemma_within(n_i, n, 0, size);
    assert forall|ch: int| 0 <= ch < ic implies #[trigger] exact_channel(input, ch) by {
        assert forall|y: int, xx: int|
            (#[trigger] input.at(ch, y, xx)).0 as int % 65536 == 0 && -0x1000_0000_0000_0000
                <= input.at(ch, y, xx).0 <= 0x1000_0000_0000_0000 by {
            assert(zero::<Fixed>().0 == 0);
            if 0 <= y < h && 0 <= xx < wid {
                lemma_within(ch, ic, y, h);
                lemma_within(ch * h + y, ic * h, xx, wid);
                let at = (ch * h + y) * wid + xx;
                assert(input.data[at] == x[n_i * size + at]);
            }
        }
    }
    lemma_wino_is_direct(input, w, b, ic, h, wid, p % chunk);
}

// ---- upsampling to the same size -----------------------------------------------------

/// A position reads itself where the sizes agree.
proof fn lemma_same_tap(n: int, o: int)
    requires
        0 <= o < n <= 0x7fff_ffff,
    ensures
        tap_at::<Fixed>(n, n, o).lo == o,
        tap_at::<Fixed>(n, n, o).weight == Fixed(0),
{
    assert(0u64 / 1u64 == 0);
    assert(zero::<Fixed>() == Fixed(0));
    let f = (n - 1) * 65536;
    let scale = corner_scale::<Fixed>(n, n);
    let at = Fixed((o * 65536) as i64);
    assert(Fixed::from_count_spec(o as usize) == at);
    if n > 1 {
        assert(Fixed::from_count_spec((n - 1) as usize) == Fixed(f as i64));
        assert((f * 65536) / f == 65536) by (nonlinear_arith)
            requires
                f > 0,
        ;
        assert(scale == Fixed(65536));
    } else {
        assert(scale == Fixed(0));
    }
    lemma_times_unit(at);
    assert(at.times_spec(scale) == at);
    assert((o * 65536) as u64 / 65536 == o);
    assert(at.floor_count_spec() == o);
    lemma_plus(at, at);
}

/// Blending without weight leaves the first neighbour.
proof fn lemma_unweighted(p00: Fixed, p01: Fixed, p10: Fixed, p11: Fixed)
    ensures
        blend(p00, p01, p10, p11, Fixed(0), Fixed(0)) == p00,
        blend_products(p00, p01, p10, p11, Fixed(0), Fixed(0)) == p00,
{
    assert(65536u64 / 1u64 == 65536);
    let (u, z) = (Fixed(65536), Fixed(0));
    assert(one::<Fixed>() == u);
    lemma_plus(u, z);
    lemma_times_unit(u);
    lemma_times_unit(z);
    lemma_times_unit(p00);
    lemma_times_unit(p01);
    lemma_times_unit(p10);
    lemma_times_unit(p11);
    lemma_plus(p00, z);
    lemma_plus(p10, z);
    let bot = p10.times_spec(u).plus_spec(p11.times_spec(z));
    lemma_times_unit(bot);
}

/// In fixed point, upsampling a map to its own size leaves it as it is.
pub proof fn law_same_size(x: Planes<Fixed>)
    requires
        x.wf(),
    ensures
        upsampled_of(x, x.h, x.w, None).data == x.data,
{
    let hw = x.h * x.w;
    let up = upsampled_of(x, x.h, x.w, None).data;
    assert forall|p: int| 0 <= p < x.data.len() implies #[trigger] up[p] == x.data[p] by {
        lemma_pixel_of(x.c, x.h, x.w, p);
        let (ch, y, xx) = (p / hw, (p % hw) / x.w, (p % hw) % x.w);
        lemma_same_tap(x.h, y);
        lemma_same_tap(x.w, xx);
        let (ty, tx) = (tap_at::<Fixed>(x.h, x.h, y), tap_at::<Fixed>(x.w, x.w, xx));
        lemma_unweighted(
            pixel(x.data, x.h, x.w, ch, ty.lo as int, tx.lo as int),
            pixel(x.data, x.h, x.w, ch, ty.lo as int, tx.hi as int),
            pixel(x.data, x.h, x.w, ch, ty.hi as int, tx.lo as int),
            pixel(x.data, x.h, x.w, ch, ty.hi as int, tx.hi as int),
        );
    }
    assert(up =~= x.data);
}

/// The channel, row and column of an element.
proof fn lemma_pixel_of(c: int, h: int, w: int, p: int)
    requires
        0 <= h,
        0 <= w,
        0 <= p < c * (h * w),
    ensures
        0 <= p / (h * w) < c,
        0 <= (p % (h * w)) / w < h,
        0 <= (p % (h * w)) % w < w,
        ((p / (h * w)) * h + (p % (h * w)) / w) * w + (p % (h * w)) % w == p,
{
    let hw = h * w;
    assert(0 < hw && 0 < w) by (nonlinear_arith)
        requires
            0 <= p < c * hw,
            hw == h * w,
            0 <= h,
            0 <= w,
    ;
    lemma_row_within(p, c, hw);
    lemma_join(p, hw);
    lemma_row_within(p % hw, h, w);
    lemma_join(p % hw, w);
    let (ch, y, x) = (p / hw, (p % hw) / w, (p % hw) % w);
    assert((ch * h + y) * w + x == ch * (h * w) + (y * w + x)) by (nonlinear_arith);
}

/// In fixed point, a 1x1 convolution that upsamples to the size its input has
/// gives what the convolution alone gives.
pub proof fn law_same_size_1x1(
    x: Seq<Fixed>,
    w: Seq<Fixed>,
    b: Seq<Fixed>,
    n: int,
    ic: int,
    h: int,
    wid: int,
    p: int,
)
    requires
        0 < ic,
        0 < h <= 0x7fff_ffff,
        0 < wid <= 0x7fff_ffff,
        0 < b.len(),
        x.len() == n * (ic * h * wid),
        0 <= p < n * (b.len() * (h * wid)),
    ensures
        conv1x1_upsample_at(x, w, b, ic, h, wid, h, wid, p) == conv1x1_at(x, w, b, ic, h * wid, p),
{
    let hw = h * wid;
    let chunk = b.len() * hw;
    lemma_area(h, wid);
    lemma_area(b.len() as int, hw);
    lemma_area(ic, hw);
    lemma_row_within(p, n, chunk);
    let size = ic * h * wid;
    assert(size == ic * hw) by (nonlinear_arith)
        requires
            size == ic * h * wid,
            hw == h * wid,
    ;
    lemma_within(p / chunk, n, 0, size);
    let img = image(x, size, p / chunk);
    let up = upsampled_image(img, ic, h, wid, h, wid);
    assert forall|r: int| 0 <= r < img.len() implies #[trigger] up[r] == img[r] by {
        lemma_pixel_of(ic, h, wid, r);
        let (ch, y, xx) = (r / hw, (r % hw) / wid, (r % hw) % wid);
        lemma_same_tap(h, y);
        lemma_same_tap(wid, xx);
        let (ty, tx) = (tap_at::<Fixed>(h, h, y), tap_at::<Fixed>(wid, wid, xx));
        lemma_unweighted(
            pixel(img, h, wid, ch, ty.lo as int, tx.lo as int),
            pixel(img, h, wid, ch, ty.lo as int, tx.hi as int),
            pixel(img, h, wid, ch, ty.hi as int, tx.lo as int),
            pixel(img, h, wid, ch, ty.hi as int, tx.hi as int),
        );
    }
    assert(up =~= img);
}

// ---- the filter that changes nothing ---------------------------------------------------

/// A filter with a one in the middle and zeros around it.
pub open spec fn middle_filter() -> Seq<Fixed> {
    let z = Fixed(0);
    seq![z, z, z, z, Fixed(65536), z, z, z, z]
}

/// In fixed point, the filter with a one in the middle gives the image back.
pub proof fn law_middle_filter(input: Input<Fixed>, b: Seq<Fixed>, q: int)
    requires
        b == seq![Fixed(0)],
        0 < input.h,
        0 < input.w,
        0 <= q < input.h * input.w,
    ensures
        direct_at(input, middle_filter(), b, 1, 1, input.h, input.w, q) == input.at(
            0,
            q / input.w,
            q % input.w,
        ),
{
    let hw = input.h * input.w;
    let w = middle_filter();
    assert(q / hw == 0 && q % hw == q) by (nonlinear_arith)
        requires
            0 <= q < hw,
    ;
    let term = direct_term(input, w, 1, 1, input.w, 0, q);
    let v = input.at(0, q / input.w, q % input.w);
    assert forall|k: int| 0 <= k < 9 implies #[trigger] term(k) == (if k == 4 {
        v
    } else {
        Fixed(0)
    }) by {
        let at = input.at(0, q / input.w + (k / 3) % 3 - 1, q % input.w + k % 3 - 1);
        lemma_times_unit(at);
        assert(k / 9 == 0);
    }
    let sum = |n: nat| accumulate(b[0], term, n);
    lemma_plus(Fixed(0), Fixed(0));
    lemma_plus(Fixed(0), v);
    lemma_plus(v, Fixed(0));
    assert(sum(0) == Fixed(0));
    assert(sum(1) == Fixed(0));
    assert(sum(2) == Fixed(0));
    assert(sum(3) == Fixed(0));
    assert(sum(4) == Fixed(0));
    assert(sum(5) == v);
    assert(sum(6) == v);
    assert(sum(7) == v);
    assert(sum(8) == v);
    assert(sum(9) == v);
}

} // verus!
