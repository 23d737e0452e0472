//! The dense prediction decoder on plain buffers: projections, resizing to a
//! pyramid, top-down fusion with residual convolution units, and the output
//! convolutions.

use crate::fast_conv::{
    contents, conv1x1, conv1x1_at, conv1x1_upsample, conv1x1_upsample_at, conv3x3_at,
    conv3x3_image, conv3x3_pad1, conv3x3_pad1_relu_in, conv3x3_pad1_relu_in_res_out,
    conv3x3_pad1_relu_out, conv3x3_pad1_relu_out_upsample, conv3x3_upsample_at, direct_at, is_on,
    lemma_sizes_nonneg, switched_on, upsampled, ConvOptions, Input, Source, UpsampleFusion,
    UpsampleSpec,
};
use crate::gguf::views;
use crate::index::{
    accumulate, lemma_accumulate_agree, lemma_factor, lemma_join, lemma_product_grows,
    lemma_row_within, lemma_split, lemma_within,
};
use crate::norm::{layernorm_matrix, layernorm_rows_of};
use crate::scalar::{relu, zero, Analytic, Scalar};
use crate::tinyblas::{gemm_nn_into, gemm_term};
use vstd::prelude::*;

verus! {

/// A feature map: `c` planes of `h x w` numbers.
pub struct Feat<T> {
    pub data: Vec<T>,
    pub c: usize,
    pub h: usize,
    pub w: usize,
}

/// The contents of a [`Feat`].
pub struct Planes<T> {
    pub data: Seq<T>,
    pub c: int,
    pub h: int,
    pub w: int,
}

impl<T> View for Feat<T> {
    type V = Planes<T>;

    open spec fn view(&self) -> Planes<T> {
        Planes { data: self.data@, c: self.c as int, h: self.h as int, w: self.w as int }
    }
}

impl<T> Planes<T> {
    /// The data has the size that the shape says.
    pub open spec fn wf(&self) -> bool {
        &&& self.data.len() == self.c * (self.h * self.w)
        &&& 0 <= self.c
        &&& 0 <= self.h <= 0x7fff_ffff
        &&& 0 <= self.w <= 0x7fff_ffff
    }
}

impl<T> Feat<T> {
    pub fn new(data: Vec<T>, c: usize, h: usize, w: usize) -> (r: Self)
        requires
            data.len() == c * (h * w),
            h <= 0x7fff_ffff,
            w <= 0x7fff_ffff,
        ensures
            r@.wf(),
            r@ == (Planes { data: data@, c: c as int, h: h as int, w: w as int }),
    {
        Feat { data, c, h, w }
    }

    /// Pixels per plane.
    pub fn hw(&self) -> (r: usize)
        requires
            self.h * self.w <= usize::MAX,
        ensures
            r == self.h * self.w,
    {
        self.h * self.w
    }
}

/// Weights of a 3x3 convolution, `[oc, ic, 3, 3]`.
pub struct Conv3x3W<T> {
    pub weight: Vec<T>,
    pub bias: Vec<T>,
    pub ic: usize,
    pub oc: usize,
}

/// Weights of a 1x1 convolution, `[oc, ic]`.
pub struct Conv1x1W<T> {
    pub weight: Vec<T>,
    pub bias: Vec<T>,
    pub ic: usize,
    pub oc: usize,
}

/// Weights of a transposed convolution whose stride is its kernel size,
/// `[in_c, k, k, out_c]`.
pub struct ConvTransposeW<T> {
    pub weight: Vec<T>,
    pub bias: Vec<T>,
    pub in_c: usize,
    pub out_c: usize,
    pub k: usize,
}

/// Weights of a residual convolution unit.
pub struct ResConvUnitW<T> {
    pub c1: Conv3x3W<T>,
    pub c2: Conv3x3W<T>,
}

/// Weights of one fusion stage.
pub struct FusionW<T> {
    pub rc1: Option<ResConvUnitW<T>>,
    pub rc2: ResConvUnitW<T>,
    pub outc: Conv1x1W<T>,
}

/// Buffers for maps of up to `c` channels and `hw` pixels can be addressed.
pub open spec fn roomy(c: int, hw: int) -> bool {
    &&& 1 <= c
    &&& 0 <= hw
    &&& c * c * 36 <= usize::MAX
    &&& (c * 9) * hw <= usize::MAX
}

impl<T> Conv3x3W<T> {
    pub open spec fn wf(&self, c: int) -> bool {
        &&& self.weight.len() == self.oc * self.ic * 9
        &&& self.bias.len() == self.oc
        &&& self.ic <= c
        &&& self.oc <= c
    }
}

impl<T> Conv1x1W<T> {
    pub open spec fn wf(&self, c: int) -> bool {
        &&& self.weight.len() == self.oc * self.ic
        &&& self.bias.len() == self.oc
        &&& self.ic <= c
        &&& self.oc <= c
    }
}

impl<T> ConvTransposeW<T> {
    pub open spec fn wf(&self, c: int) -> bool {
        &&& self.weight.len() == ((self.in_c * self.k) * self.k) * self.out_c
        &&& self.bias.len() == self.out_c
        &&& self.in_c <= c
        &&& self.out_c <= c
        &&& 1 <= self.k <= 4
    }
}

impl<T> ResConvUnitW<T> {
    /// A unit on maps of `f` channels.
    pub open spec fn wf(&self, f: int, c: int) -> bool {
        &&& self.c1.wf(c)
        &&& self.c2.wf(c)
        &&& self.c1.ic == f
        &&& self.c1.oc == self.c2.ic
        &&& self.c2.oc == f
    }
}

impl<T> FusionW<T> {
    /// A stage on maps of `f` channels.
    pub open spec fn wf(&self, f: int, c: int) -> bool {
        &&& self.rc1 matches Some(r) ==> r.wf(f, c)
        &&& self.rc2.wf(f, c)
        &&& self.outc.wf(c)
        &&& self.outc.ic == f
    }
}

/// What [`roomy`] buys for a convolution.
pub proof fn lemma_room(c: int, hw: int, ic: int, oc: int, h: int, w: int)
    requires
        roomy(c, hw),
        0 <= ic <= c,
        0 <= oc <= c,
        0 <= h,
        0 <= w,
        h * w <= hw,
    ensures
        0 <= h * w <= usize::MAX,
        ic * (h * w) <= usize::MAX,
        oc * (h * w) <= usize::MAX,
        ic * oc * 36 <= usize::MAX,
        (ic * 9) * (h * w) <= usize::MAX,
        ic * 9 <= usize::MAX,
        ic * h * w == ic * (h * w),
        oc * h * w == oc * (h * w),
        1 * (oc * (h * w)) == oc * (h * w),
        1 * (ic * h * w) == ic * (h * w),
        1 * (ic * (h * w)) == ic * (h * w),
{
    lemma_sizes_nonneg(ic, h, w);
    lemma_sizes_nonneg(oc, h, w);
    lemma_product_grows(ic * 9, c * 9, h * w, hw);
    lemma_product_grows(oc * 9, c * 9, h * w, hw);
    lemma_product_grows(ic, c, oc, c);
    assert(ic * (h * w) <= (ic * 9) * (h * w)) by (nonlinear_arith)
        requires
            0 <= ic,
            0 <= h * w,
    ;
    assert(oc * (h * w) <= (oc * 9) * (h * w)) by (nonlinear_arith)
        requires
            0 <= oc,
            0 <= h * w,
    ;
    assert(h * w <= (c * 9) * hw) by (nonlinear_arith)
        requires
            1 <= c,
            0 <= h * w <= hw,
    ;
    assert(c * 9 <= c * c * 36) by (nonlinear_arith)
        requires
            1 <= c,
    ;
}

// ---- single convolutions ---------------------------------------------------

/// A 3x3 convolution of a map.
pub open spec fn conv3x3_of<T: Scalar>(
    opts: ConvOptions,
    w: Conv3x3W<T>,
    x: Planes<T>,
    relu_in: bool,
    residual: Option<Seq<T>>,
    relu_out: bool,
) -> Planes<T> {
    Planes {
        data: Seq::new(
            (w.oc * (x.h * x.w)) as nat,
            |p: int|
                conv3x3_at(
                    opts,
                    x.data,
                    w.weight@,
                    w.bias@,
                    w.ic as int,
                    x.h,
                    x.w,
                    relu_in,
                    residual,
                    relu_out,
                    p,
                ),
        ),
        c: w.oc as int,
        h: x.h,
        w: x.w,
    }
}

/// A 1x1 convolution of a map.
pub open spec fn conv1x1_of<T: Scalar>(w: Conv1x1W<T>, x: Planes<T>) -> Planes<T> {
    Planes {
        data: Seq::new(
            (w.oc * (x.h * x.w)) as nat,
            |p: int| conv1x1_at(x.data, w.weight@, w.bias@, w.ic as int, x.h * x.w, p),
        ),
        c: w.oc as int,
        h: x.h,
        w: x.w,
    }
}

pub(crate) fn run3x3<T: Scalar>(
    opts: ConvOptions,
    w: &Conv3x3W<T>,
    x: &Feat<T>,
    relu_out: bool,
    c: Ghost<int>,
    hw: Ghost<int>,
) -> (r: Feat<T>)
    requires
        roomy(c@, hw@),
        w.wf(c@),
        x@.wf(),
        x.c == w.ic,
        x.h * x.w <= hw@,
    ensures
        r@ == conv3x3_of(opts, *w, x@, false, None, relu_out),
        r@.wf(),
{
    proof {
        lemma_room(c@, hw@, w.ic as int, w.oc as int, x.h as int, x.w as int);
    }
    let data: Vec<T> = if relu_out {
        conv3x3_pad1_relu_out(
            x.data.as_slice(),
            w.weight.as_slice(),
            w.bias.as_slice(),
            1,
            w.ic,
            x.h,
            x.w,
            w.oc,
            opts,
        )
    } else {
        conv3x3_pad1(
            x.data.as_slice(),
            w.weight.as_slice(),
            w.bias.as_slice(),
            1,
            w.ic,
            x.h,
            x.w,
            w.oc,
            opts,
        )
    };
    assert(data@ =~= conv3x3_of(opts, *w, x@, false, None, relu_out).data);
    Feat::new(data, w.oc, x.h, x.w)
}

pub(crate) fn run1x1<T: Scalar>(w: &Conv1x1W<T>, x: &Feat<T>, c: Ghost<int>, hw: Ghost<int>) -> (r: Feat<T>)
    requires
        roomy(c@, hw@),
        w.wf(c@),
        x@.wf(),
        x.c == w.ic,
        x.h * x.w <= hw@,
    ensures
        r@ == conv1x1_of(*w, x@),
        r@.wf(),
{
    proof {
        lemma_room(c@, hw@, w.ic as int, w.oc as int, x.h as int, x.w as int);
    }
    let data: Vec<T> = conv1x1(
        x.data.as_slice(),
        w.weight.as_slice(),
        w.bias.as_slice(),
        1,
        w.ic,
        x.h,
        x.w,
        w.oc,
    );
    assert(data@ =~= conv1x1_of(*w, x@).data);
    Feat::new(data, w.oc, x.h, x.w)
}

/// A residual convolution unit: cut off, convolve, cut off, convolve, add.
pub open spec fn unit_of<T: Scalar>(
    opts: ConvOptions,
    rcu: ResConvUnitW<T>,
    x: Planes<T>,
) -> Planes<T> {
    conv3x3_of(
        opts,
        rcu.c2,
        conv3x3_of(opts, rcu.c1, x, true, None, false),
        true,
        Some(x.data),
        false,
    )
}

/// Runs a residual convolution unit.
pub(crate) fn residual_conv_unit<T: Scalar>(
    opts: ConvOptions,
    x: &Feat<T>,
    rcu: &ResConvUnitW<T>,
    c: Ghost<int>,
    hw: Ghost<int>,
) -> (r: Feat<T>)
    requires
        roomy(c@, hw@),
        x@.wf(),
        rcu.wf(x.c as int, c@),
        x.h * x.w <= hw@,
    ensures
        r@ == unit_of(opts, *rcu, x@),
        r@.wf(),
        r.c == x.c,
{
    proof {
        lemma_room(c@, hw@, rcu.c1.ic as int, rcu.c1.oc as int, x.h as int, x.w as int);
        lemma_room(c@, hw@, rcu.c2.ic as int, rcu.c2.oc as int, x.h as int, x.w as int);
    }
    let mid: Vec<T> = conv3x3_pad1_relu_in(
        x.data.as_slice(),
        rcu.c1.weight.as_slice(),
        rcu.c1.bias.as_slice(),
        1,
        rcu.c1.ic,
        x.h,
        x.w,
        rcu.c1.oc,
        opts,
    );
    let ghost first = conv3x3_of(opts, rcu.c1, x@, true, None, false);
    assert(mid@ =~= first.data);
    let data: Vec<T> = conv3x3_pad1_relu_in_res_out(
        mid.as_slice(),
        rcu.c2.weight.as_slice(),
        rcu.c2.bias.as_slice(),
        1,
        rcu.c2.ic,
        x.h,
        x.w,
        rcu.c2.oc,
        x.data.as_slice(),
        opts,
    );
    assert(data@ =~= unit_of(opts, *rcu, x@).data);
    Feat::new(data, rcu.c2.oc, x.h, x.w)
}

// ---- elementwise and layout ---------------------------------------------------

/// Negative elements cut off at zero.
pub fn relu_inplace<T: Scalar>(buf: &mut Vec<T>)
    ensures
        final(buf).len() == old(buf).len(),
        forall|i: int|
            0 <= i < old(buf).len() ==> #[trigger] final(buf)[i] == (if old(buf)[i].less_spec(
                zero(),
            ) {
                zero()
            } else {
                old(buf)[i]
            }),
{
    let n: usize = buf.len();
    let mut i: usize = 0;
    while i < n
        invariant
            i <= n,
            buf.len() == n,
            old(buf).len() == n,
            forall|k: int|
                0 <= k < i ==> #[trigger] buf[k] == (if old(buf)[k].less_spec(zero()) {
                    zero()
                } else {
                    old(buf)[k]
                }),
            forall|k: int| i <= k < n ==> #[trigger] buf[k] == old(buf)[k],
        decreases n - i,
    {
        if buf[i].less(T::ratio(0, 1)) {
            buf[i] = T::ratio(0, 1);
        }
        i = i + 1;
    }
}

/// Element by element sums.
pub open spec fn sum_of<T: Scalar>(a: Seq<T>, b: Seq<T>) -> Seq<T> {
    Seq::new(a.len(), |i: int| a[i].plus_spec(b[i]))
}

pub(crate) fn add_buffers<T: Scalar>(a: &[T], b: &[T]) -> (r: Vec<T>)
    requires
        a.len() == b.len(),
    ensures
        r@ == sum_of(a@, b@),
{
    let mut r: Vec<T> = Vec::new();
    let mut i: usize = 0;
    while i < a.len()
        invariant
            i <= a.len(),
            a.len() == b.len(),
            r.len() == i,
            forall|k: int| 0 <= k < i ==> #[trigger] r[k] == a[k].plus_spec(b[k]),
        decreases a.len() - i,
    {
        r.push(a[i].plus(b[i]));
        i = i + 1;
    }
    assert(r@ =~= sum_of(a@, b@));
    r
}

/// Tokens by channels to channels by tokens.
pub open spec fn transposed<T>(src: Seq<T>, n_patch: int, c: int) -> Seq<T> {
    Seq::new((c * n_patch) as nat, |p: int| src[(p % n_patch) * c + p / n_patch])
}

/// Transposes a `[n_patch, c]` token matrix to `c` planes of patches.
pub fn transpose_npatch_chw<T: Scalar>(src: &[T], n_patch: usize, c: usize) -> (dst: Vec<T>)
    requires
        src.len() == n_patch * c,
        c * n_patch <= usize::MAX,
    ensures
        dst@ == transposed(src@, n_patch as int, c as int),
        dst.len() == c * n_patch,
{
    let total: usize = c * n_patch;
    let mut dst: Vec<T> = Vec::new();
    let mut p: usize = 0;
    while p < total
        invariant
            p <= total,
            total == c * n_patch,
            src.len() == n_patch * c,
            dst.len() == p,
            forall|k: int|
                0 <= k < p ==> #[trigger] dst[k] == src[(k % n_patch as int) * c + k
                    / n_patch as int],
        decreases total - p,
    {
        proof {
            if n_patch == 0 {
                assert(c * n_patch == 0) by (nonlinear_arith)
                    requires
                        n_patch == 0,
                ;
            }
            lemma_row_within(p as int, c as int, n_patch as int);
            lemma_join(p as int, n_patch as int);
            lemma_within((p % n_patch) as int, n_patch as int, (p / n_patch) as int, c as int);
        }
        dst.push(src[(p % n_patch) * c + p / n_patch]);
        p = p + 1;
    }
    assert(dst@ =~= transposed(src@, n_patch as int, c as int));
    dst
}

/// Transposing twice gives back the tokens.
pub proof fn law_transpose_twice<T>(src: Seq<T>, n_patch: int, c: int)
    requires
        src.len() == n_patch * c,
        0 <= n_patch,
        0 <= c,
    ensures
        transposed(transposed(src, n_patch, c), c, n_patch) == src,
{
    let once = transposed(src, n_patch, c);
    let twice = transposed(once, c, n_patch);
    assert(n_patch * c == c * n_patch) by (nonlinear_arith);
    assert forall|p: int| 0 <= p < src.len() implies twice[p] == src[p] by {
        if c == 0 {
            assert(n_patch * c == 0) by (nonlinear_arith)
                requires
                    c == 0,
            ;
        }
        lemma_row_within(p, n_patch, c);
        lemma_join(p, c);
        let q = (p % c) * n_patch + p / c;
        lemma_within(p % c, c, p / c, n_patch);
        lemma_split(p % c, n_patch, p / c);
    }
    assert(twice =~= src);
}

// ---- transposed convolution ------------------------------------------------------

/// Weights `[in_c, out_c, k, k]` to `[in_c, k, k, out_c]`: element `d` of the
/// result comes from this place.
pub open spec fn conv_t_source(d: int, out_c: int, k: int) -> int {
    let oc = d % out_c;
    let kx = (d / out_c) % k;
    let ky = ((d / out_c) / k) % k;
    let ic = ((d / out_c) / k) / k;
    ((ic * out_c + oc) * k + ky) * k + kx
}

/// Builds the weights of a transposed convolution from `[in_c, out_c, k, k]`.
pub fn conv_t_from<T: Scalar>(
    raw: &[T],
    bias: Vec<T>,
    in_c: usize,
    out_c: usize,
    k: usize,
) -> (r: ConvTransposeW<T>)
    requires
        raw.len() == ((in_c * out_c) * k) * k,
    ensures
        r.in_c == in_c,
        r.out_c == out_c,
        r.k == k,
        r.bias == bias,
        r.weight.len() == ((in_c * k) * k) * out_c,
        forall|d: int|
            0 <= d < r.weight.len() ==> #[trigger] r.weight[d] == raw[conv_t_source(
                d,
                out_c as int,
                k as int,
            )],
{
    let total: usize = raw.len();
    assert(((in_c * out_c) * k) * k == ((in_c * k) * k) * out_c) by (nonlinear_arith);
    let mut weight: Vec<T> = Vec::new();
    let mut d: usize = 0;
    while d < total
        invariant
            d <= total,
            raw.len() == total,
            total == ((in_c * k) * k) * out_c,
            total == ((in_c * out_c) * k) * k,
            weight.len() == d,
            forall|j: int|
                0 <= j < d ==> #[trigger] weight[j] == raw[conv_t_source(
                    j,
                    out_c as int,
                    k as int,
                )],
        decreases total - d,
    {
        proof {
            if out_c == 0 {
                assert(((in_c * k) * k) * out_c == 0) by (nonlinear_arith)
                    requires
                        out_c == 0,
                ;
            }
            if k == 0 {
                assert(((in_c * k) * k) * out_c == 0) by (nonlinear_arith)
                    requires
                        k == 0,
                ;
            }
            lemma_row_within(d as int, (in_c * k) * k, out_c as int);
            lemma_row_within((d / out_c) as int, in_c * k, k as int);
            lemma_row_within(((d / out_c) / k) as int, in_c as int, k as int);
        }
        let oc: usize = d % out_c;
        let kx: usize = (d / out_c) % k;
        let ky: usize = ((d / out_c) / k) % k;
        let ic: usize = ((d / out_c) / k) / k;
        proof {
            lemma_within(ic as int, in_c as int, oc as int, out_c as int);
            lemma_within(ic * out_c + oc, in_c * out_c, ky as int, k as int);
            lemma_within(
                (ic * out_c + oc) * k + ky,
                (in_c * out_c) * k,
                kx as int,
                k as int,
            );
            lemma_factor(ic * out_c + oc, k as int);
            lemma_factor((ic * out_c + oc) * k + ky, k as int);
        }
        weight.push(raw[((ic * out_c + oc) * k + ky) * k + kx]);
        d = d + 1;
    }
    ConvTransposeW { weight, bias, in_c, out_c, k }
}

/// The weight of input channel `ic` for output channel `oc` at tap `(ky, kx)`.
pub open spec fn conv_t_weight<T>(w: ConvTransposeW<T>, ic: int, ky: int, kx: int, oc: int) -> T {
    w.weight@[((ic * w.k + ky) * w.k + kx) * w.out_c + oc]
}

/// The `[out_c, in_c]` matrix of tap `(ky, kx)`.
fn tap_matrix<T: Scalar>(w: &ConvTransposeW<T>, ky: usize, kx: usize, c: Ghost<int>) -> (m: Vec<T>)
    requires
        w.wf(c@),
        c@ * c@ * 36 <= usize::MAX,
        ky < w.k,
        kx < w.k,
    ensures
        m.len() == w.out_c * w.in_c,
        forall|q: int|
            0 <= q < m.len() ==> #[trigger] m[q] == conv_t_weight(
                *w,
                q % w.in_c as int,
                ky as int,
                kx as int,
                q / w.in_c as int,
            ),
{
    proof {
        lemma_product_grows(w.out_c as int, c@, w.in_c as int, c@);
    }
    let total: usize = w.out_c * w.in_c;
    let mut m: Vec<T> = Vec::new();
    let mut q: usize = 0;
    while q < total
        invariant
            q <= total,
            total == w.out_c * w.in_c,
            w.weight.len() == ((w.in_c * w.k) * w.k) * w.out_c,
            ky < w.k,
            kx < w.k,
            m.len() == q,
            forall|j: int|
                0 <= j < q ==> #[trigger] m[j] == conv_t_weight(
                    *w,
                    j % w.in_c as int,
                    ky as int,
                    kx as int,
                    j / w.in_c as int,
                ),
        decreases total - q,
    {
        proof {
            if w.in_c == 0 {
                assert(w.out_c * w.in_c == 0) by (nonlinear_arith)
                    requires
                        w.in_c == 0,
                ;
            }
            lemma_row_within(q as int, w.out_c as int, w.in_c as int);
        }
        let ic: usize = q % w.in_c;
        let oc: usize = q / w.in_c;
        proof {
            lemma_within(ic as int, w.in_c as int, ky as int, w.k as int);
            lemma_within(ic * w.k + ky, w.in_c * w.k, kx as int, w.k as int);
            lemma_within(
                (ic * w.k + ky) * w.k + kx,
                (w.in_c * w.k) * w.k,
                oc as int,
                w.out_c as int,
            );
            lemma_factor(ic * w.k + ky, w.k as int);
            lemma_factor((ic * w.k + ky) * w.k + kx, w.out_c as int);
        }
        m.push(w.weight[((ic * w.k + ky) * w.k + kx) * w.out_c + oc]);
        q = q + 1;
    }
    m
}

/// One product of a transposed convolution.
pub open spec fn conv_t_term<T: Scalar>(
    w: ConvTransposeW<T>,
    x: Seq<T>,
    in_hw: int,
    oc: int,
    ky: int,
    kx: int,
    at: int,
) -> spec_fn(int) -> T {
    |ic: int| conv_t_weight(w, ic, ky, kx, oc).times_spec(x[ic * in_hw + at])
}

/// Element `p` of a transposed convolution: each output pixel lies under one
/// tap of one input pixel.
pub open spec fn conv_t_at<T: Scalar>(
    w: ConvTransposeW<T>,
    x: Seq<T>,
    in_h: int,
    in_w: int,
    p: int,
) -> T {
    let k = w.k as int;
    let out_w = in_w * k;
    let out_hw = (in_h * k) * out_w;
    let oc = p / out_hw;
    let oy = (p % out_hw) / out_w;
    let ox = (p % out_hw) % out_w;
    w.bias@[oc].plus_spec(
        accumulate(
            zero(),
            conv_t_term(
                w,
                x,
                in_h * in_w,
                oc,
                oy % k,
                ox % k,
                (oy / k) * in_w + ox / k,
            ),
            w.in_c as nat,
        ),
    )
}

/// The transposed convolution of a map.
pub open spec fn conv_t_of<T: Scalar>(w: ConvTransposeW<T>, x: Planes<T>) -> Planes<T> {
    Planes {
        data: Seq::new(
            (w.out_c * ((x.h * w.k) * (x.w * w.k))) as nat,
            |p: int| conv_t_at(w, x.data, x.h, x.w, p),
        ),
        c: w.out_c as int,
        h: x.h * w.k,
        w: x.w * w.k,
    }
}

/// Transposed convolution with stride `k` and kernel size `k`.
pub fn conv_transpose_k_stride<T: Scalar>(w: &ConvTransposeW<T>, x: &Feat<T>) -> (r: Feat<T>)
    requires
        x@.wf(),
        x.c == w.in_c,
        x.h * w.k <= 0x7fff_ffff,
        x.w * w.k <= 0x7fff_ffff,
        exists|c: int| #[trigger]
            roomy(c, (x.h * w.k) * (x.w * w.k)) && w.wf(c),
    ensures
        r@ == conv_t_of(*w, x@),
        r@.wf(),
{
    let ghost c: int = choose|c: int| #[trigger]
        roomy(c, (x.h * w.k) * (x.w * w.k)) && w.wf(c);
    conv_transpose_within(w, x, Ghost(c), Ghost((x.h * w.k) * (x.w * w.k)))
}

/// Transposed convolution with stride `k` and kernel size `k`: one matrix
/// product for each tap.
pub(crate) fn conv_transpose_within<T: Scalar>(
    w: &ConvTransposeW<T>,
    x: &Feat<T>,
    c: Ghost<int>,
    hw: Ghost<int>,
) -> (r: Feat<T>)
    requires
        roomy(c@, hw@),
        w.wf(c@),
        x@.wf(),
        x.c == w.in_c,
        (x.h * w.k) * (x.w * w.k) <= hw@,
        x.h * w.k <= 0x7fff_ffff,
        x.w * w.k <= 0x7fff_ffff,
    ensures
        r@ == conv_t_of(*w, x@),
        r@.wf(),
{
    let k: usize = w.k;
    proof {
        lemma_room(c@, hw@, w.in_c as int, w.out_c as int, x.h * k, x.w * k);
        lemma_factor(x.h as int, k as int);
        lemma_factor(x.w as int, k as int);
        lemma_product_grows(x.h as int, x.h * k, x.w as int, x.w * k);
        lemma_room(c@, hw@, w.in_c as int, w.out_c as int, x.h as int, x.w as int);
    }
    let in_hw: usize = x.h * x.w;
    let mut taps: Vec<Vec<T>> = Vec::new();
    let mut t: usize = 0;
    assert(k * k <= 16) by (nonlinear_arith)
        requires
            1 <= k <= 4,
    ;
    while t < k * k
        invariant
            t <= k * k,
            k * k <= 16,
            k == w.k,
            1 <= k,
            w.wf(c@),
            c@ * c@ * 36 <= usize::MAX,
            x@.wf(),
            x.c == w.in_c,
            in_hw == x.h * x.w,
            w.out_c * in_hw <= usize::MAX,
            taps.len() == t,
            forall|j: int|
                0 <= j < t ==> (#[trigger] taps[j]).len() == w.out_c * in_hw && forall|q: int|
                    0 <= q < w.out_c * in_hw ==> #[trigger] taps[j][q] == accumulate(
                        zero(),
                        conv_t_term(
                            *w,
                            x.data@,
                            in_hw as int,
                            q / in_hw as int,
                            j / k as int,
                            j % k as int,
                            q % in_hw as int,
                        ),
                        w.in_c as nat,
                    ),
        decreases k * k - t,
    {
        proof {
            lemma_row_within(t as int, k as int, k as int);
        }
        let ky: usize = t / k;
        let kx: usize = t % k;
        let m: Vec<T> = tap_matrix(w, ky, kx, c);
        let mut tmp: Vec<T> = Vec::new();
        let fill: T = T::ratio(0, 1);
        let mut z: usize = 0;
        while z < w.out_c * in_hw
            invariant
                z <= w.out_c * in_hw,
                w.out_c * in_hw <= usize::MAX,
                fill == zero::<T>(),
                tmp.len() == z,
                forall|j: int| 0 <= j < z ==> #[trigger] tmp[j] == zero::<T>(),
            decreases w.out_c * in_hw - z,
        {
            tmp.push(fill);
            z = z + 1;
        }
        let ghost blank = tmp@;
        gemm_nn_into(w.out_c, in_hw, w.in_c, m.as_slice(), x.data.as_slice(), &mut tmp);
        proof {
            assert forall|q: int| 0 <= q < w.out_c * in_hw implies #[trigger] tmp[q] == accumulate(
                zero(),
                conv_t_term(
                    *w,
                    x.data@,
                    in_hw as int,
                    q / in_hw as int,
                    ky as int,
                    kx as int,
                    q % in_hw as int,
                ),
                w.in_c as nat,
            ) by {
                if in_hw == 0 {
                    assert(w.out_c * in_hw == 0) by (nonlinear_arith)
                        requires
                            in_hw == 0,
                    ;
                }
                lemma_row_within(q, w.out_c as int, in_hw as int);
                lemma_join(q, in_hw as int);
                let oc = q / in_hw as int;
                let at = q % in_hw as int;
                let f = gemm_term(m@, x.data@, in_hw as int, w.in_c as int, oc, at);
                let g = conv_t_term(*w, x.data@, in_hw as int, oc, ky as int, kx as int, at);
                assert forall|i: int| 0 <= i < w.in_c implies #[trigger] f(i) == g(i) by {
                    lemma_within(oc, w.out_c as int, i, w.in_c as int);
                    lemma_split(oc, w.in_c as int, i);
                    assert(m[oc * w.in_c + i] == conv_t_weight(*w, i, ky as int, kx as int, oc));
                }
                lemma_accumulate_agree(zero::<T>(), f, g, w.in_c as nat);
                assert(blank[q] == zero::<T>());
            }
        }
        taps.push(tmp);
        t = t + 1;
    }
    let out_h: usize = x.h * k;
    let out_w: usize = x.w * k;
    let out_hw: usize = out_h * out_w;
    let total: usize = w.out_c * out_hw;
    let mut data: Vec<T> = Vec::new();
    let mut p: usize = 0;
    while p < total
        invariant
            p <= total,
            total == w.out_c * out_hw,
            out_hw == out_h * out_w,
            out_h == x.h * k,
            out_w == x.w * k,
            in_hw == x.h * x.w,
            k == w.k,
            1 <= k,
            k * k <= 16,
            w.bias.len() == w.out_c,
            w.out_c * in_hw <= usize::MAX,
            taps.len() == k * k,
            forall|j: int|
                0 <= j < k * k ==> (#[trigger] taps[j]).len() == w.out_c * in_hw && forall|q: int|
                    0 <= q < w.out_c * in_hw ==> #[trigger] taps[j][q] == accumulate(
                        zero(),
                        conv_t_term(
                            *w,
                            x.data@,
                            in_hw as int,
                            q / in_hw as int,
                            j / k as int,
                            j % k as int,
                            q % in_hw as int,
                        ),
                        w.in_c as nat,
                    ),
            data.len() == p,
            forall|j: int|
                0 <= j < p ==> #[trigger] data[j] == conv_t_at(
                    *w,
                    x.data@,
                    x.h as int,
                    x.w as int,
                    j,
                ),
        decreases total - p,
    {
        proof {
            if out_hw == 0 {
                assert(w.out_c * out_hw == 0) by (nonlinear_arith)
                    requires
                        out_hw == 0,
                ;
            }
            if out_w == 0 {
                assert(out_h * out_w == 0) by (nonlinear_arith)
                    requires
                        out_w == 0,
                ;
            }
            lemma_row_within(p as int, w.out_c as int, out_hw as int);
            lemma_join(p as int, out_hw as int);
            lemma_row_within((p % out_hw) as int, out_h as int, out_w as int);
            lemma_join((p % out_hw) as int, out_w as int);
        }
        let oc: usize = p / out_hw;
        let oy: usize = (p % out_hw) / out_w;
        let ox: usize = (p % out_hw) % out_w;
        proof {
            lemma_row_within(oy as int, x.h as int, k as int);
            lemma_row_within(ox as int, x.w as int, k as int);
            lemma_within((oy % k) as int, k as int, (ox % k) as int, k as int);
            lemma_split((oy % k) as int, k as int, (ox % k) as int);
            lemma_within((oy / k) as int, x.h as int, (ox / k) as int, x.w as int);
            lemma_within(
                oc as int,
                w.out_c as int,
                (oy / k) * x.w + ox / k,
                in_hw as int,
            );
            lemma_split(oc as int, in_hw as int, (oy / k) * x.w + ox / k);
        }
        let tap: usize = (oy % k) * k + ox % k;
        let at: usize = oc * in_hw + ((oy / k) * x.w + ox / k);
        assert(taps[tap as int].len() == w.out_c * in_hw);
        assert(taps[tap as int][at as int] == accumulate(
            zero(),
            conv_t_term(
                *w,
                x.data@,
                in_hw as int,
                oc as int,
                (oy % k) as int,
                (ox % k) as int,
                (oy / k) * x.w + ox / k,
            ),
            w.in_c as nat,
        ));
        let sum: T = taps[tap][at];
        data.push(w.bias[oc].plus(sum));
        p = p + 1;
    }
    assert(data@ =~= conv_t_of(*w, x@).data);
    Feat::new(data, w.out_c, out_h, out_w)
}

// ---- resizing ---------------------------------------------------------------------

/// The 3x3 convolution with stride 2 and padding 1 of a map.
pub open spec fn stride2_of<T: Scalar>(w: Conv3x3W<T>, x: Planes<T>) -> Planes<T> {
    let h = (x.h + 1) / 2;
    let wid = (x.w + 1) / 2;
    let input = Input { data: x.data, h: x.h, w: x.w, relu: false, up: None, add: None };
    Planes {
        data: Seq::new(
            (w.oc * (h * wid)) as nat,
            |q: int| direct_at(input, w.weight@, w.bias@, w.ic as int, 2, h, wid, q),
        ),
        c: w.oc as int,
        h,
        w: wid,
    }
}

/// 3x3 convolution with stride 2 and padding 1.
pub fn conv3x3_stride2_pad1<T: Scalar>(w: &Conv3x3W<T>, x: &Feat<T>) -> (r: Feat<T>)
    requires
        x@.wf(),
        x.c == w.ic,
        exists|c: int| #[trigger] roomy(c, x.h * x.w) && w.wf(c),
    ensures
        r@ == stride2_of(*w, x@),
        r@.wf(),
{
    let ghost c: int = choose|c: int| #[trigger] roomy(c, x.h * x.w) && w.wf(c);
    conv3x3_stride2_within(w, x, Ghost(c), Ghost(x.h * x.w))
}

pub(crate) fn conv3x3_stride2_within<T: Scalar>(
    w: &Conv3x3W<T>,
    x: &Feat<T>,
    c: Ghost<int>,
    hw: Ghost<int>,
) -> (r: Feat<T>)
    requires
        roomy(c@, hw@),
        w.wf(c@),
        x@.wf(),
        x.c == w.ic,
        x.h * x.w <= hw@,
    ensures
        r@ == stride2_of(*w, x@),
        r@.wf(),
{
    let out_h: usize = (x.h + 1) / 2;
    let out_w: usize = (x.w + 1) / 2;
    proof {
        lemma_room(c@, hw@, w.ic as int, w.oc as int, x.h as int, x.w as int);
        lemma_product_grows(out_h as int, x.h as int, out_w as int, x.w as int);
        lemma_room(c@, hw@, w.ic as int, w.oc as int, out_h as int, out_w as int);
        assert(w.oc * w.ic * 9 == w.oc * (w.ic * 9)) by (nonlinear_arith);
    }
    let src: Source<T> = Source {
        data: x.data.as_slice(),
        ic: w.ic,
        h: x.h,
        w: x.w,
        relu: false,
        up: None,
    };
    let data: Vec<T> = conv3x3_image(
        &src,
        w.weight.as_slice(),
        w.bias.as_slice(),
        w.oc,
        2,
        out_h,
        out_w,
    );
    assert(data@ =~= stride2_of(*w, x@).data);
    Feat::new(data, w.oc, out_h, out_w)
}

/// A map upsampled with aligned corners, with a tensor added.
pub open spec fn upsampled_of<T: Scalar>(
    x: Planes<T>,
    out_h: int,
    out_w: int,
    add: Option<Seq<T>>,
) -> Planes<T> {
    Planes {
        data: Seq::new(
            (x.c * (out_h * out_w)) as nat,
            |p: int|
                {
                    let px = p % (out_h * out_w);
                    let v = upsampled(
                        x.data,
                        x.h,
                        x.w,
                        out_h,
                        out_w,
                        p / (out_h * out_w),
                        px / out_w,
                        px % out_w,
                    );
                    match add {
                        Some(a) => v.plus_spec(a[p]),
                        None => v,
                    }
                },
        ),
        c: x.c,
        h: out_h,
        w: out_w,
    }
}

/// Bilinear upsample with aligned corners.
pub fn upsample_bilinear_ac<T: Scalar>(
    x: &Feat<T>,
    out_h: usize,
    out_w: usize,
    add: Option<&[T]>,
) -> (r: Feat<T>)
    requires
        x@.wf(),
        0 < x.h,
        0 < x.w,
        out_h <= 0x7fff_ffff,
        out_w <= 0x7fff_ffff,
        out_h * out_w <= usize::MAX,
        x.c * (out_h * out_w) <= usize::MAX,
        add matches Some(a) ==> a.len() == x.c * (out_h * out_w),
    ensures
        r@ == upsampled_of(x@, out_h as int, out_w as int, contents(add)),
        r@.wf(),
{
    let tables: UpsampleSpec<T> = UpsampleSpec::new_ac(x.h, x.w, out_h, out_w);
    let fusion: UpsampleFusion<T> = UpsampleFusion { spec: &tables, add: None };
    let src: Source<T> = Source {
        data: x.data.as_slice(),
        ic: x.c,
        h: x.h,
        w: x.w,
        relu: false,
        up: Some(&fusion),
    };
    proof {
        lemma_sizes_nonneg(x.c as int, x.h as int, x.w as int);
    }
    let out_hw: usize = out_h * out_w;
    let total: usize = x.c * out_hw;
    let ghost want = upsampled_of(x@, out_h as int, out_w as int, contents(add)).data;
    let mut data: Vec<T> = Vec::new();
    let mut p: usize = 0;
    while p < total
        invariant
            p <= total,
            total == x.c * out_hw,
            out_hw == out_h * out_w,
            out_h <= 0x7fff_ffff,
            out_w <= 0x7fff_ffff,
            src.wf(),
            src@ == (Input {
                data: x.data@,
                h: x.h as int,
                w: x.w as int,
                relu: false,
                up: Some((out_h as int, out_w as int)),
                add: None,
            }),
            src.ic == x.c,
            add matches Some(a) ==> a.len() == x.c * out_hw,
            want == upsampled_of(x@, out_h as int, out_w as int, contents(add)).data,
            data.len() == p,
            forall|j: int| 0 <= j < p ==> #[trigger] data[j] == want[j],
        decreases total - p,
    {
        proof {
            if out_hw == 0 {
                assert(x.c * out_hw == 0) by (nonlinear_arith)
                    requires
                        out_hw == 0,
                ;
            }
            if out_w == 0 {
                assert(out_h * out_w == 0) by (nonlinear_arith)
                    requires
                        out_w == 0,
                ;
            }
            lemma_row_within(p as int, x.c as int, out_hw as int);
            lemma_join(p as int, out_hw as int);
            lemma_row_within((p % out_hw) as int, out_h as int, out_w as int);
        }
        let px: usize = p % out_hw;
        let mut v: T = src.read(p / out_hw, px / out_w + 1, px % out_w + 1);
        if let Some(a) = add {
            v = v.plus(a[p]);
        }
        data.push(v);
        p = p + 1;
    }
    assert(data@ =~= want);
    Feat::new(data, x.c, out_h, out_w)
}

// ---- the decoder --------------------------------------------------------------------

/// Switches of the decoder.
#[derive(Clone, Copy, Debug, PartialEq, Eq, Structural)]
pub struct DptOptions {
    pub conv: ConvOptions,
    /// Fold the last upsample into the convolution after it.
    pub fuse_upsample: bool,
    /// Fold the upsamples of the fusion stages into their 1x1 convolutions.
    pub fuse_fusion_upsample: bool,
}

impl DptOptions {
    /// The switches that the values of `DA_FAST_FUSE_UPSAMPLE` and
    /// `DA_FAST_FUSE_FUSION_UPSAMPLE` stand for: the first is on unless it is
    /// `0`, the second off unless it is switched on.
    pub fn parse(conv: ConvOptions, upsample: Option<&str>, fusion: Option<&str>) -> (r: Self)
        ensures
            r.conv == conv,
            r.fuse_upsample == (match upsample {
                Some(s) => s@ != "0"@,
                None => true,
            }),
            r.fuse_fusion_upsample == switched_on(
                match fusion {
                    Some(s) => Some(s@),
                    None => None,
                },
            ),
    {
        let fuse_upsample: bool = match upsample {
            Some(s) => !crate::config::same_text(s, "0"),
            None => true,
        };
        DptOptions { conv, fuse_upsample, fuse_fusion_upsample: is_on(fusion) }
    }
}

/// Whether the buffer-based decoder is enabled, by the value of `DA_FAST_HEAD`.
pub fn fast_dpt_enabled(value: Option<&str>) -> (r: bool)
    ensures
        r == switched_on(
            match value {
                Some(s) => Some(s@),
                None => None,
            },
        ),
{
    is_on(value)
}

/// The tail of a fusion stage: an upsample where the size changes, and a 1x1
/// convolution.
pub open spec fn fusion_tail_of<T: Scalar>(
    opts: DptOptions,
    f: FusionW<T>,
    y: Planes<T>,
    out_h: int,
    out_w: int,
) -> Planes<T> {
    let need_up = y.h != out_h || y.w != out_w;
    if need_up && opts.fuse_fusion_upsample {
        Planes {
            data: Seq::new(
                (f.outc.oc * (out_h * out_w)) as nat,
                |p: int|
                    conv1x1_upsample_at(
                        y.data,
                        f.outc.weight@,
                        f.outc.bias@,
                        f.outc.ic as int,
                        y.h,
                        y.w,
                        out_h,
                        out_w,
                        p,
                    ),
            ),
            c: f.outc.oc as int,
            h: out_h,
            w: out_w,
        }
    } else if need_up {
        conv1x1_of(f.outc, upsampled_of(y, out_h, out_w, None))
    } else {
        conv1x1_of(f.outc, y)
    }
}

fn fusion_upsample_conv1x1<T: Scalar>(
    opts: DptOptions,
    f: &FusionW<T>,
    y: Feat<T>,
    out_h: usize,
    out_w: usize,
    c: Ghost<int>,
    hw: Ghost<int>,
) -> (r: Feat<T>)
    requires
        roomy(c@, hw@),
        y@.wf(),
        f.wf(y.c as int, c@),
        0 < y.h,
        0 < y.w,
        y.h * y.w <= hw@,
        out_h * out_w <= hw@,
        out_h <= 0x7fff_ffff,
        out_w <= 0x7fff_ffff,
    ensures
        r@ == fusion_tail_of(opts, *f, y@, out_h as int, out_w as int),
        r@.wf(),
{
    proof {
        lemma_room(c@, hw@, f.outc.ic as int, f.outc.oc as int, y.h as int, y.w as int);
        lemma_room(c@, hw@, f.outc.ic as int, f.outc.oc as int, out_h as int, out_w as int);
    }
    let need_up: bool = y.h != out_h || y.w != out_w;
    if need_up && opts.fuse_fusion_upsample {
        let data: Vec<T> = conv1x1_upsample(
            y.data.as_slice(),
            f.outc.weight.as_slice(),
            f.outc.bias.as_slice(),
            1,
            f.outc.ic,
            y.h,
            y.w,
            f.outc.oc,
            out_h,
            out_w,
        );
        assert(data@ =~= fusion_tail_of(opts, *f, y@, out_h as int, out_w as int).data);
        Feat::new(data, f.outc.oc, out_h, out_w)
    } else if need_up {
        let up: Feat<T> = upsample_bilinear_ac(&y, out_h, out_w, None);
        run1x1(&f.outc, &up, c, hw)
    } else {
        run1x1(&f.outc, &y, c, hw)
    }
}

/// A fusion stage: the lateral map through its unit added to the map from
/// above, a second unit, and the tail.
pub open spec fn fusion_of<T: Scalar>(
    opts: DptOptions,
    f: FusionW<T>,
    top: Planes<T>,
    lateral: Option<Planes<T>>,
    out_h: int,
    out_w: int,
) -> Planes<T> {
    let y = match (lateral, f.rc1) {
        (Some(lat), Some(rc1)) => Planes {
            data: sum_of(top.data, unit_of(opts.conv, rc1, lat).data),
            ..top
        },
        _ => top,
    };
    fusion_tail_of(opts, f, unit_of(opts.conv, f.rc2, y), out_h, out_w)
}

pub(crate) fn fusion_forward<T: Scalar>(
    opts: DptOptions,
    f: &FusionW<T>,
    top: Feat<T>,
    lateral: Option<&Feat<T>>,
    out_h: usize,
    out_w: usize,
    c: Ghost<int>,
    hw: Ghost<int>,
) -> (r: Feat<T>)
    requires
        roomy(c@, hw@),
        top@.wf(),
        f.wf(top.c as int, c@),
        0 < top.h,
        0 < top.w,
        top.h * top.w <= hw@,
        lateral matches Some(lat) ==> lat@.wf() && lat.c == top.c && lat.h == top.h && lat.w
            == top.w,
        out_h * out_w <= hw@,
        out_h <= 0x7fff_ffff,
        out_w <= 0x7fff_ffff,
    ensures
        r@ == fusion_of(
            opts,
            *f,
            top@,
            match lateral {
                Some(lat) => Some(lat@),
                None => None,
            },
            out_h as int,
            out_w as int,
        ),
        r@.wf(),
        r.c == f.outc.oc,
        r.h == out_h,
        r.w == out_w,
{
    let y: Feat<T> = match lateral {
        Some(lat) => match &f.rc1 {
            Some(rc1) => {
                let res: Feat<T> = residual_conv_unit(opts.conv, lat, rc1, c, hw);
                let data: Vec<T> = add_buffers(top.data.as_slice(), res.data.as_slice());
                Feat::new(data, top.c, top.h, top.w)
            },
            None => top,
        },
        None => top,
    };
    let mid: Feat<T> = residual_conv_unit(opts.conv, &y, &f.rc2, c, hw);
    fusion_upsample_conv1x1(opts, f, mid, out_h, out_w, c, hw)
}

/// The decoder's weights.
pub struct FastDptHead<T> {
    /// Norm over the channels of the input tokens.
    pub in_norm: Option<(Vec<T>, Vec<T>)>,
    pub in_channels: usize,
    pub proj: [Conv1x1W<T>; 4],
    pub resize0: ConvTransposeW<T>,
    pub resize1: ConvTransposeW<T>,
    pub resize3: Conv3x3W<T>,
    pub layer_rn: [Conv3x3W<T>; 4],
    pub rn1: FusionW<T>,
    pub rn2: FusionW<T>,
    pub rn3: FusionW<T>,
    pub rn4: FusionW<T>,
    pub out1: Conv3x3W<T>,
    pub out2a: Conv3x3W<T>,
    pub out2b: Conv1x1W<T>,
    pub sky: Option<(Conv3x3W<T>, Conv1x1W<T>)>,
    pub features: usize,
}

impl<T> FastDptHead<T> {
    /// The layers fit together, and no layer has more than `c` channels.
    pub open spec fn wf(&self, c: int) -> bool {
        let f = self.features as int;
        &&& self.in_channels <= c
        &&& self.in_norm matches Some(n) ==> n.0.len() == self.in_channels && n.1.len()
            == self.in_channels
        &&& forall|s: int|
            0 <= s < 4 ==> (#[trigger] self.proj[s]).wf(c) && self.proj[s].ic == self.in_channels
        &&& forall|s: int|
            0 <= s < 4 ==> (#[trigger] self.layer_rn[s]).wf(c) && self.layer_rn[s].oc == f
        &&& self.resize0.wf(c) && self.resize0.k == 4
        &&& self.resize0.in_c == self.proj[0].oc && self.resize0.out_c == self.layer_rn[0].ic
        &&& self.resize1.wf(c) && self.resize1.k == 2
        &&& self.resize1.in_c == self.proj[1].oc && self.resize1.out_c == self.layer_rn[1].ic
        &&& self.proj[2].oc == self.layer_rn[2].ic
        &&& self.resize3.wf(c)
        &&& self.resize3.ic == self.proj[3].oc && self.resize3.oc == self.layer_rn[3].ic
        &&& self.rn1.wf(f, c) && self.rn2.wf(f, c) && self.rn3.wf(f, c) && self.rn4.wf(f, c)
        &&& self.rn4.outc.oc == f && self.rn3.outc.oc == f && self.rn2.outc.oc == f
        &&& self.out1.wf(c) && self.out1.ic == self.rn1.outc.oc
        &&& self.out2a.wf(c) && self.out2a.ic == self.out1.oc
        &&& self.out2b.wf(c) && self.out2b.ic == self.out2a.oc
        &&& self.sky matches Some(k) ==> k.0.wf(c) && k.1.wf(c) && k.0.ic == self.out1.oc
            && k.1.ic == k.0.oc
    }
}

/// The positional embeddings that the decoder adds: one for each projected
/// stage and one for the output.
pub struct UvEmbeds<T> {
    pub stages: [Vec<T>; 4],
    pub output: Vec<T>,
}

impl<T> UvEmbeds<T> {
    /// The embeddings have the sizes of what they are added to.
    pub open spec fn wf(&self, head: FastDptHead<T>, ph: int, pw: int, h: int, w: int) -> bool {
        &&& forall|s: int|
            0 <= s < 4 ==> (#[trigger] self.stages[s]).len() == head.proj[s].oc * (ph * pw)
        &&& self.output.len() == head.out1.oc * (h * w)
    }
}

/// The epsilon of the input norm.
pub open spec fn head_norm_eps<T: Scalar>() -> T {
    T::ratio_spec(1, 100_000)
}

/// The projected tokens of stage `s`, as a map of patches.
pub open spec fn projected_of<T: Analytic>(
    head: FastDptHead<T>,
    s: int,
    feat: Seq<T>,
    ph: int,
    pw: int,
    uv: Option<Seq<T>>,
) -> Planes<T> {
    let c = head.in_channels as int;
    let tokens = match head.in_norm {
        Some(n) => layernorm_rows_of(feat, ph * pw, c, n.0@, n.1@, head_norm_eps(), false),
        None => feat,
    };
    let x = conv1x1_of(
        head.proj[s],
        Planes { data: transposed(tokens, ph * pw, c), c, h: ph, w: pw },
    );
    match uv {
        Some(pe) => Planes { data: sum_of(x.data, pe), ..x },
        None => x,
    }
}

/// The lateral map of stage `s`: the projection resized to its level of the
/// pyramid, through its 3x3 convolution.
pub open spec fn lateral_of<T: Analytic>(
    opts: ConvOptions,
    head: FastDptHead<T>,
    s: int,
    feat: Seq<T>,
    ph: int,
    pw: int,
    uv: Option<Seq<T>>,
) -> Planes<T> {
    let x = projected_of(head, s, feat, ph, pw, uv);
    let resized = if s == 0 {
        conv_t_of(head.resize0, x)
    } else if s == 1 {
        conv_t_of(head.resize1, x)
    } else if s == 2 {
        x
    } else {
        stride2_of(head.resize3, x)
    };
    conv3x3_of(opts, head.layer_rn[s], resized, false, None, false)
}

/// A buffer's copy.
pub(crate) fn copied<T: Copy>(x: &[T]) -> (r: Vec<T>)
    ensures
        r@ == x@,
{
    let mut r: Vec<T> = Vec::new();
    let mut i: usize = 0;
    while i < x.len()
        invariant
            i <= x.len(),
            r.len() == i,
            forall|k: int| 0 <= k < i ==> #[trigger] r[k] == x[k],
        decreases x.len() - i,
    {
        r.push(x[i]);
        i = i + 1;
    }
    assert(r@ =~= x@);
    r
}

/// The lateral maps fused from the smallest to the largest.
pub open spec fn pyramid_of<T: Scalar>(
    opts: DptOptions,
    rn1: FusionW<T>,
    rn2: FusionW<T>,
    rn3: FusionW<T>,
    rn4: FusionW<T>,
    lats: Seq<Planes<T>>,
    ph: int,
    pw: int,
) -> Planes<T> {
    let out4 = fusion_of(opts, rn4, lats[3], None, ph, pw);
    let out3 = fusion_of(opts, rn3, out4, Some(lats[2]), 2 * ph, 2 * pw);
    let out2 = fusion_of(opts, rn2, out3, Some(lats[1]), 4 * ph, 4 * pw);
    fusion_of(opts, rn1, out2, Some(lats[0]), 8 * ph, 8 * pw)
}

pub(crate) fn fuse_pyramid<T: Scalar>(
    opts: DptOptions,
    rn1: &FusionW<T>,
    rn2: &FusionW<T>,
    rn3: &FusionW<T>,
    rn4: &FusionW<T>,
    lateral: Vec<Feat<T>>,
    gh: usize,
    gw: usize,
    c: Ghost<int>,
    hw: Ghost<int>,
) -> (r: Feat<T>)
    requires
        roomy(c@, hw@),
        0 < gh <= 0x0fff_ffff,
        0 < gw <= 0x0fff_ffff,
        (8 * gh) * (8 * gw) <= hw@,
        lateral.len() == 4,
        forall|s: int|
            0 <= s < 4 ==> (#[trigger] lateral[s])@.wf() && lateral[s].c == lateral[0].c,
        lateral[0].h == 4 * gh && lateral[0].w == 4 * gw,
        lateral[1].h == 2 * gh && lateral[1].w == 2 * gw,
        lateral[2].h == gh && lateral[2].w == gw,
        lateral[3].h == (gh + 1) / 2 && lateral[3].w == (gw + 1) / 2,
        rn1.wf(lateral[0].c as int, c@),
        rn2.wf(lateral[0].c as int, c@) && rn2.outc.oc == lateral[0].c,
        rn3.wf(lateral[0].c as int, c@) && rn3.outc.oc == lateral[0].c,
        rn4.wf(lateral[0].c as int, c@) && rn4.outc.oc == lateral[0].c,
    ensures
        r@ == pyramid_of(
            opts,
            *rn1,
            *rn2,
            *rn3,
            *rn4,
            Seq::new(4, |s: int| lateral[s]@),
            gh as int,
            gw as int,
        ),
        r@.wf(),
        r.c == rn1.outc.oc,
        r.h == 8 * gh,
        r.w == 8 * gw,
{
    let mut lats: Vec<Feat<T>> = lateral;
    proof {
        lemma_pyramid_room(gh as int, gw as int, hw@);
        assert(lats[0]@.wf() && lats[1]@.wf() && lats[2]@.wf() && lats[3]@.wf());
        assert(lats[1].c == lats[0].c && lats[2].c == lats[0].c && lats[3].c == lats[0].c);
    }
    let lat3: Feat<T> = match lats.pop() {
        Some(f) => f,
        None => Feat { data: Vec::new(), c: 0, h: 0, w: 0 },
    };
    let out4: Feat<T> = fusion_forward(opts, rn4, lat3, None, gh, gw, c, hw);
    let out3: Feat<T> = fusion_forward(opts, rn3, out4, Some(&lats[2]), 2 * gh, 2 * gw, c, hw);
    let out2: Feat<T> = fusion_forward(opts, rn2, out3, Some(&lats[1]), 4 * gh, 4 * gw, c, hw);
    fusion_forward(opts, rn1, out2, Some(&lats[0]), 8 * gh, 8 * gw, c, hw)
}

/// Whether the last upsample is folded into the convolution after it: where
/// there is one, nothing else reads its result, and the switch is on.
pub open spec fn folds_output<T>(opts: DptOptions, head: FastDptHead<T>, up: bool) -> bool {
    up && head.sky is None && opts.fuse_upsample
}

/// The map that the output branches read, where it is stored.
pub open spec fn output_map_of<T: Scalar>(
    y: Planes<T>,
    h: int,
    w: int,
    uv: Option<Seq<T>>,
) -> Planes<T> {
    if y.h != h || y.w != w {
        upsampled_of(y, h, w, uv)
    } else {
        match uv {
            Some(pe) => Planes { data: sum_of(y.data, pe), ..y },
            None => y,
        }
    }
}

/// The depth branch: 3x3, cut off, 1x1.
pub open spec fn depth_of<T: Scalar>(
    opts: DptOptions,
    head: FastDptHead<T>,
    pyramid: Planes<T>,
    h: int,
    w: int,
    uv: Option<Seq<T>>,
) -> Planes<T> {
    let y = conv3x3_of(opts.conv, head.out1, pyramid, false, None, false);
    let a = if folds_output(opts, head, y.h != h || y.w != w) {
        Planes {
            data: Seq::new(
                (head.out2a.oc * (h * w)) as nat,
                |p: int|
                    conv3x3_upsample_at(
                        opts.conv,
                        y.data,
                        head.out2a.weight@,
                        head.out2a.bias@,
                        head.out2a.ic as int,
                        y.h,
                        y.w,
                        h,
                        w,
                        uv,
                        p,
                    ),
            ),
            c: head.out2a.oc as int,
            h,
            w,
        }
    } else {
        conv3x3_of(opts.conv, head.out2a, output_map_of(y, h, w, uv), false, None, true)
    };
    conv1x1_of(head.out2b, a)
}

/// The sky branch: 3x3, cut off, 1x1.
pub open spec fn sky_of<T: Scalar>(
    opts: DptOptions,
    head: FastDptHead<T>,
    pyramid: Planes<T>,
    h: int,
    w: int,
    uv: Option<Seq<T>>,
) -> Option<Seq<T>> {
    match head.sky {
        Some(k) => {
            let y = conv3x3_of(opts.conv, head.out1, pyramid, false, None, false);
            Some(
                conv1x1_of(
                    k.1,
                    conv3x3_of(opts.conv, k.0, output_map_of(y, h, w, uv), false, None, true),
                ).data,
            )
        },
        None => None,
    }
}

/// The embedding of stage `s`.
pub open spec fn stage_embed<T>(uv: Option<&UvEmbeds<T>>, s: int) -> Option<Seq<T>> {
    match uv {
        Some(u) => Some(u.stages[s]@),
        None => None,
    }
}

/// The embedding of the output.
pub open spec fn output_embed<T>(uv: Option<&UvEmbeds<T>>) -> Option<Seq<T>> {
    match uv {
        Some(u) => Some(u.output@),
        None => None,
    }
}

/// The four lateral maps.
pub open spec fn laterals_of<T: Analytic>(
    opts: ConvOptions,
    head: FastDptHead<T>,
    feats: Seq<Seq<T>>,
    gh: int,
    gw: int,
    uv: Option<&UvEmbeds<T>>,
) -> Seq<Planes<T>> {
    Seq::new(4, |s: int| lateral_of(opts, head, s, feats[s], gh, gw, stage_embed(uv, s)))
}

/// The fused map that the output branches start from.
pub open spec fn main_pyramid<T: Analytic>(
    opts: DptOptions,
    head: FastDptHead<T>,
    feats: Seq<Seq<T>>,
    gh: int,
    gw: int,
    uv: Option<&UvEmbeds<T>>,
) -> Planes<T> {
    pyramid_of(
        opts,
        head.rn1,
        head.rn2,
        head.rn3,
        head.rn4,
        laterals_of(opts.conv, head, feats, gh, gw, uv),
        gh,
        gw,
    )
}

impl<T: Analytic> FastDptHead<T> {
    fn compute_one_lateral(
        &self,
        opts: ConvOptions,
        s: usize,
        feat: &[T],
        ph: usize,
        pw: usize,
        uv: Option<&[T]>,
        c: Ghost<int>,
        hw: Ghost<int>,
    ) -> (r: Feat<T>)
        requires
            s < 4,
            roomy(c@, hw@),
            self.wf(c@),
            0 < ph <= 0x0fff_ffff,
            0 < pw <= 0x0fff_ffff,
            (8 * ph) * (8 * pw) <= hw@,
            feat.len() == (ph * pw) * self.in_channels,
            uv matches Some(pe) ==> pe.len() == self.proj[s as int].oc * (ph * pw),
        ensures
            r@ == lateral_of(opts, *self, s as int, feat@, ph as int, pw as int, contents(uv)),
            r@.wf(),
            r.c == self.features,
            s == 0 ==> r.h == 4 * ph && r.w == 4 * pw,
            s == 1 ==> r.h == 2 * ph && r.w == 2 * pw,
            s == 2 ==> r.h == ph && r.w == pw,
            s == 3 ==> r.h == (ph + 1) / 2 && r.w == (pw + 1) / 2,
    {
        proof {
            lemma_pyramid_room(ph as int, pw as int, hw@);
            assert(self.proj[s as int].wf(c@));
            assert(self.layer_rn[s as int].wf(c@));
            lemma_room(
                c@,
                hw@,
                self.in_channels as int,
                self.proj[s as int].oc as int,
                ph as int,
                pw as int,
            );
            assert((ph * pw) * self.in_channels == self.in_channels * (ph * pw))
                by (nonlinear_arith);
        }
        let n_patch: usize = ph * pw;
        let tokens: Vec<T> = match &self.in_norm {
            Some(n) => layernorm_matrix(
                feat,
                n_patch,
                self.in_channels,
                n.0.as_slice(),
                n.1.as_slice(),
                T::ratio(1, 100_000),
                false,
            ),
            None => copied(feat),
        };
        let chw: Vec<T> = transpose_npatch_chw(tokens.as_slice(), n_patch, self.in_channels);
        let planes: Feat<T> = Feat::new(chw, self.in_channels, ph, pw);
        let mut x: Feat<T> = run1x1(&self.proj[s], &planes, c, hw);
        if let Some(pe) = uv {
            let data: Vec<T> = add_buffers(x.data.as_slice(), pe);
            x = Feat::new(data, x.c, x.h, x.w);
        }
        let resized: Feat<T> = if s == 0 {
            conv_transpose_within(&self.resize0, &x, c, hw)
        } else if s == 1 {
            conv_transpose_within(&self.resize1, &x, c, hw)
        } else if s == 2 {
            x
        } else {
            conv3x3_stride2_within(&self.resize3, &x, c, hw)
        };
        run3x3(opts, &self.layer_rn[s], &resized, false, c, hw)
    }

    /// The lateral maps of the four stages.
    pub(crate) fn compute_laterals(
        &self,
        opts: ConvOptions,
        feats: &[Vec<T>],
        ph: usize,
        pw: usize,
        uv: Option<&UvEmbeds<T>>,
        c: Ghost<int>,
        hw: Ghost<int>,
    ) -> (r: Vec<Feat<T>>)
        requires
            roomy(c@, hw@),
            self.wf(c@),
            0 < ph <= 0x0fff_ffff,
            0 < pw <= 0x0fff_ffff,
            (8 * ph) * (8 * pw) <= hw@,
            feats.len() >= 4,
            forall|s: int|
                0 <= s < 4 ==> (#[trigger] feats[s]).len() == (ph * pw) * self.in_channels,
            uv matches Some(u) ==> forall|s: int|
                0 <= s < 4 ==> (#[trigger] u.stages[s]).len() == self.proj[s].oc * (ph * pw),
        ensures
            r.len() == 4,
            forall|s: int|
                0 <= s < 4 ==> (#[trigger] r[s])@ == lateral_of(
                    opts,
                    *self,
                    s,
                    feats[s]@,
                    ph as int,
                    pw as int,
                    stage_embed(uv, s),
                ) && r[s]@.wf() && r[s].c == self.features,
            r[0].h == 4 * ph && r[0].w == 4 * pw,
            r[1].h == 2 * ph && r[1].w == 2 * pw,
            r[2].h == ph && r[2].w == pw,
            r[3].h == (ph + 1) / 2 && r[3].w == (pw + 1) / 2,
    {
        let mut r: Vec<Feat<T>> = Vec::new();
        let mut s: usize = 0;
        while s < 4
            invariant
                s <= 4,
                roomy(c@, hw@),
                self.wf(c@),
                0 < ph <= 0x0fff_ffff,
                0 < pw <= 0x0fff_ffff,
                (8 * ph) * (8 * pw) <= hw@,
                feats.len() >= 4,
                forall|k: int|
                    0 <= k < 4 ==> (#[trigger] feats[k]).len() == (ph * pw) * self.in_channels,
                uv matches Some(u) ==> forall|k: int|
                    0 <= k < 4 ==> (#[trigger] u.stages[k]).len() == self.proj[k].oc * (ph * pw),
                r.len() == s,
                forall|k: int|
                    0 <= k < s ==> (#[trigger] r[k])@ == lateral_of(
                        opts,
                        *self,
                        k,
                        feats[k]@,
                        ph as int,
                        pw as int,
                        stage_embed(uv, k),
                    ) && r[k]@.wf() && r[k].c == self.features,
                s > 0 ==> r[0].h == 4 * ph && r[0].w == 4 * pw,
                s > 1 ==> r[1].h == 2 * ph && r[1].w == 2 * pw,
                s > 2 ==> r[2].h == ph && r[2].w == pw,
                s > 3 ==> r[3].h == (ph + 1) / 2 && r[3].w == (pw + 1) / 2,
            decreases 4 - s,
        {
            let pe: Option<&[T]> = match uv {
                Some(u) => Some(u.stages[s].as_slice()),
                None => None,
            };
            assert(feats[s as int].len() == (ph * pw) * self.in_channels);
            let lat: Feat<T> = self.compute_one_lateral(
                opts,
                s,
                feats[s].as_slice(),
                ph,
                pw,
                pe,
                c,
                hw,
            );
            r.push(lat);
            s = s + 1;
        }
        r
    }

    /// The decoder for a known bound on its maps.
    pub(crate) fn decode(
        &self,
        opts: DptOptions,
        feats: &[Vec<T>],
        gh: usize,
        gw: usize,
        h: usize,
        w: usize,
        uv: Option<&UvEmbeds<T>>,
        c: Ghost<int>,
        hw: Ghost<int>,
    ) -> (r: (Vec<T>, Option<Vec<T>>))
        requires
            roomy(c@, hw@),
            self.wf(c@),
            (8 * gh) * (8 * gw) <= hw@,
            h * w <= hw@,
            0 < gh <= 0x0fff_ffff,
            0 < gw <= 0x0fff_ffff,
            h <= 0x7fff_ffff,
            w <= 0x7fff_ffff,
            feats.len() >= 4,
            forall|s: int|
                0 <= s < 4 ==> (#[trigger] feats[s]).len() == (gh * gw) * self.in_channels,
            uv matches Some(u) ==> u.wf(*self, gh as int, gw as int, h as int, w as int),
        ensures
            ({
                let pyramid = main_pyramid(opts, *self, views(feats@), gh as int, gw as int, uv);
                &&& r.0@ == depth_of(
                    opts,
                    *self,
                    pyramid,
                    h as int,
                    w as int,
                    output_embed(uv),
                ).data
                &&& r.0.len() == self.out2b.oc * (h * w)
                &&& match r.1 {
                    Some(sky) => sky_of(
                        opts,
                        *self,
                        pyramid,
                        h as int,
                        w as int,
                        output_embed(uv),
                    ) == Some(sky@),
                    None => self.sky is None,
                }
            }),
    {
        proof {
            lemma_pyramid_room(gh as int, gw as int, hw@);
            lemma_room(c@, hw@, self.out1.oc as int, self.out2a.oc as int, h as int, w as int);
        }
        let lats: Vec<Feat<T>> = self.compute_laterals(opts.conv, feats, gh, gw, uv, c, hw);
        proof {
            assert forall|s: int| 0 <= s < 4 implies (#[trigger] lats[s])@.wf() && lats[s].c
                == lats[0].c by {
                assert(lats[0].c == self.features);
            }
            assert(Seq::new(4, |s: int| lats[s]@) =~= laterals_of(
                opts.conv,
                *self,
                views(feats@),
                gh as int,
                gw as int,
                uv,
            ));
        }
        let out: Feat<T> = fuse_pyramid(
            opts,
            &self.rn1,
            &self.rn2,
            &self.rn3,
            &self.rn4,
            lats,
            gh,
            gw,
            c,
            hw,
        );
        let y: Feat<T> = run3x3(opts.conv, &self.out1, &out, false, c, hw);
        let up: bool = y.h != h || y.w != w;
        let fold: bool = up && self.sky.is_none() && opts.fuse_upsample;
        let pe: Option<&[T]> = match uv {
            Some(u) => Some(u.output.as_slice()),
            None => None,
        };
        if fold {
            proof {
                lemma_room(
                    c@,
                    hw@,
                    self.out2a.ic as int,
                    self.out2a.oc as int,
                    y.h as int,
                    y.w as int,
                );
                lemma_room(
                    c@,
                    hw@,
                    self.out2a.ic as int,
                    self.out2a.oc as int,
                    h as int,
                    w as int,
                );
            }
            let data: Vec<T> = conv3x3_pad1_relu_out_upsample(
                y.data.as_slice(),
                self.out2a.weight.as_slice(),
                self.out2a.bias.as_slice(),
                1,
                self.out2a.ic,
                y.h,
                y.w,
                self.out2a.oc,
                h,
                w,
                pe,
                opts.conv,
            );
            let ghost want = Seq::new(
                (self.out2a.oc * (h * w)) as nat,
                |p: int|
                    conv3x3_upsample_at(
                        opts.conv,
                        y.data@,
                        self.out2a.weight@,
                        self.out2a.bias@,
                        self.out2a.ic as int,
                        y.h as int,
                        y.w as int,
                        h as int,
                        w as int,
                        output_embed(uv),
                        p,
                    ),
            );
            assert(data@ =~= want);
            let a: Feat<T> = Feat::new(data, self.out2a.oc, h, w);
            let depth: Feat<T> = run1x1(&self.out2b, &a, c, hw);
            return (depth.data, None);
        }
        let map: Feat<T> = if up {
            upsample_bilinear_ac(&y, h, w, pe)
        } else {
            match pe {
                Some(e) => {
                    let data: Vec<T> = add_buffers(y.data.as_slice(), e);
                    Feat::new(data, y.c, y.h, y.w)
                },
                None => y,
            }
        };
        let sky: Option<Vec<T>> = match &self.sky {
            Some(k) => {
                let a: Feat<T> = run3x3(opts.conv, &k.0, &map, true, c, hw);
                let b: Feat<T> = run1x1(&k.1, &a, c, hw);
                Some(b.data)
            },
            None => None,
        };
        let a: Feat<T> = run3x3(opts.conv, &self.out2a, &map, true, c, hw);
        let depth: Feat<T> = run1x1(&self.out2b, &a, c, hw);
        (depth.data, sky)
    }

    /// Runs the decoder on the tokens of four stages, each `[gh * gw, channels]`,
    /// for an image of `h x w` pixels. `uv` holds the positional embeddings of a
    /// model that uses them. Gives depth logits and, where there is a sky branch,
    /// sky logits.
    pub fn forward(
        &self,
        opts: DptOptions,
        feats: &[Vec<T>],
        gh: usize,
        gw: usize,
        h: usize,
        w: usize,
        uv: Option<&UvEmbeds<T>>,
    ) -> (r: (Vec<T>, Option<Vec<T>>))
        requires
            exists|c: int, hw: int| #[trigger]
                roomy(c, hw) && self.wf(c) && (8 * gh) * (8 * gw) <= hw && h * w <= hw,
            0 < gh <= 0x0fff_ffff,
            0 < gw <= 0x0fff_ffff,
            h <= 0x7fff_ffff,
            w <= 0x7fff_ffff,
            feats.len() >= 4,
            forall|s: int|
                0 <= s < 4 ==> (#[trigger] feats[s]).len() == (gh * gw) * self.in_channels,
            uv matches Some(u) ==> u.wf(*self, gh as int, gw as int, h as int, w as int),
        ensures
            ({
                let pyramid = main_pyramid(opts, *self, views(feats@), gh as int, gw as int, uv);
                &&& r.0@ == depth_of(
                    opts,
                    *self,
                    pyramid,
                    h as int,
                    w as int,
                    output_embed(uv),
                ).data
                &&& match r.1 {
                    Some(sky) => sky_of(
                        opts,
                        *self,
                        pyramid,
                        h as int,
                        w as int,
                        output_embed(uv),
                    ) == Some(sky@),
                    None => self.sky is None,
                }
            }),
    {
        let ghost bound: (int, int) = choose|c: int, hw: int| #[trigger]
            roomy(c, hw) && self.wf(c) && (8 * gh) * (8 * gw) <= hw && h * w <= hw;
        let c: Ghost<int> = Ghost(bound.0);
        let hw: Ghost<int> = Ghost(bound.1);
        self.decode(opts, feats, gh, gw, h, w, uv, c, hw)
    }
}

/// All levels of the pyramid are no larger than its base.
pub proof fn lemma_pyramid_room(ph: int, pw: int, hw: int)
    requires
        0 < ph,
        0 < pw,
        (8 * ph) * (8 * pw) <= hw,
    ensures
        ph * pw <= hw,
        (ph * 4) * (pw * 4) <= hw,
        (4 * ph) * (4 * pw) <= hw,
        (ph * 2) * (pw * 2) <= hw,
        (2 * ph) * (2 * pw) <= hw,
        ((ph + 1) / 2) * ((pw + 1) / 2) <= hw,
        (ph / 2) * (pw / 2) <= hw,
{
    lemma_product_grows(ph, 8 * ph, pw, 8 * pw);
    lemma_product_grows(4 * ph, 8 * ph, 4 * pw, 8 * pw);
    lemma_product_grows(2 * ph, 8 * ph, 2 * pw, 8 * pw);
    lemma_product_grows((ph + 1) / 2, 8 * ph, (pw + 1) / 2, 8 * pw);
    lemma_product_grows(ph / 2, 8 * ph, pw / 2, 8 * pw);
}

} // verus!
