//! The Gaussian decoder: a pyramid of its own, which also looks at the image and
//! gives 37 numbers and a confidence for each pixel.

use crate::config::Config;
use crate::depth_export::{sigmoid, sigmoid_of};
use crate::dpt_head::plain_options;
use crate::dpt_weights::{
    conv_loaded, load_conv1x1, load_conv3x3, load_stem, stem_loaded, ConvData, Four, Stem,
    StemData,
};
use crate::error::{Error, Fault, ModelError};
use crate::fast_attn::copy_slice;
use crate::fast_conv::{Conv3x3Mode, ConvOptions, WinoMode};
use crate::fast_dpt::{
    add_buffers, conv1x1_of, conv3x3_of, fuse_pyramid, laterals_of, lemma_pyramid_room,
    lemma_room, main_pyramid, output_map_of, roomy, run1x1, run3x3, sum_of, upsample_bilinear_ac,
    Conv1x1W, Conv3x3W, DptOptions, FastDptHead, Feat, Planes, UvEmbeds,
};
use crate::gguf::{outcome, views, GgufFile, Header};
use crate::index::{lemma_split, lemma_within};
use crate::scalar::{one, Analytic, Gaussian, Scalar};
use vstd::prelude::*;

verus! {

/// The channels of the output: 37 of a Gaussian and a confidence.
pub const GS_OUT_CHANNELS: usize = 38;

/// The decoder's output for each pixel, as it is before it is placed in the world.
pub struct RawGaussians<T> {
    /// `[h * w, 37]`.
    pub raw_gs: Vec<T>,
    pub gs_conf: Vec<T>,
    pub h: usize,
    pub w: usize,
}

/// What [`RawGaussians`] hold.
pub struct RawGaussiansData<T> {
    pub raw_gs: Seq<T>,
    pub gs_conf: Seq<T>,
    pub h: int,
    pub w: int,
}

impl<T> View for RawGaussians<T> {
    type V = RawGaussiansData<T>;

    open spec fn view(&self) -> RawGaussiansData<T> {
        RawGaussiansData {
            raw_gs: self.raw_gs@,
            gs_conf: self.gs_conf@,
            h: self.h as int,
            w: self.w as int,
        }
    }
}

/// The Gaussian decoder.
pub struct GsHead<T> {
    pub main: FastDptHead<T>,
    /// From the image to the width of the output.
    pub merger: (Conv3x3W<T>, Conv3x3W<T>, Conv3x3W<T>),
}

impl<T> GsHead<T> {
    /// The layers fit together, and no layer has more than `c` channels.
    pub open spec fn wf(&self, c: int) -> bool {
        &&& self.main.wf(c)
        &&& self.main.in_norm is None
        &&& self.main.sky is None
        &&& self.merger.0.wf(c) && self.merger.0.ic == 3
        &&& self.merger.1.wf(c) && self.merger.1.ic == self.merger.0.oc
        &&& self.merger.2.wf(c) && self.merger.2.ic == self.merger.1.oc
        &&& self.merger.2.oc == self.main.out1.oc
    }
}

/// The Gaussian error linear unit: `(erf(x / sqrt 2) + 1) / 2 * x`.
pub open spec fn gelu_exact_of<T: Gaussian>(x: T) -> T {
    x.times_spec(T::from_bits_spec(0x3f35_04f3)).error_function_spec().plus_spec(
        one(),
    ).times_spec(T::ratio_spec(1, 2)).times_spec(x)
}

/// That of all numbers.
pub open spec fn gelu_exact_all<T: Gaussian>(v: Seq<T>) -> Seq<T> {
    Seq::new(v.len(), |i: int| gelu_exact_of(v[i]))
}

fn gelu_exact<T: Gaussian>(v: Vec<T>) -> (r: Vec<T>)
    ensures
        r@ == gelu_exact_all(v@),
        r.len() == v.len(),
{
    let k: T = T::from_bits(0x3f35_04f3);
    let half: T = T::ratio(1, 2);
    let mut r: Vec<T> = Vec::new();
    let mut i: usize = 0;
    while i < v.len()
        invariant
            i <= v.len(),
            k == T::from_bits_spec(0x3f35_04f3),
            half == T::ratio_spec(1, 2),
            r.len() == i,
            forall|j: int| 0 <= j < i ==> #[trigger] r[j] == gelu_exact_of(v[j]),
        decreases v.len() - i,
    {
        let x: T = v[i];
        r.push(x.times(k).error_function().plus(T::ratio(1, 1)).times(half).times(x));
        i = i + 1;
    }
    assert(r@ =~= gelu_exact_all(v@));
    r
}

/// A convolution of the image branch.
pub open spec fn merge_step<T: Gaussian>(w: Conv3x3W<T>, x: Planes<T>) -> Planes<T> {
    let y = conv3x3_of(plain_options().conv, w, x, false, None, false);
    Planes { data: gelu_exact_all(y.data), ..y }
}

/// The image branch.
pub open spec fn merged_of<T: Gaussian>(head: GsHead<T>, image: Planes<T>) -> Planes<T> {
    merge_step(head.merger.2, merge_step(head.merger.1, merge_step(head.merger.0, image)))
}

/// The decoder's last map.
pub open spec fn gs_map_of<T: Gaussian>(
    head: GsHead<T>,
    feats: Seq<Seq<T>>,
    image: Seq<T>,
    gh: int,
    gw: int,
    h: int,
    w: int,
    uv: &UvEmbeds<T>,
) -> Planes<T> {
    let o = plain_options();
    let pyramid = main_pyramid(o, head.main, feats, gh, gw, Some(uv));
    let y = conv3x3_of(o.conv, head.main.out1, pyramid, false, None, false);
    let up = output_map_of(y, h, w, None);
    let seen = merged_of(head, Planes { data: image, c: 3, h, w });
    let all = Planes { data: sum_of(sum_of(up.data, seen.data), uv.output@), ..up };
    conv1x1_of(head.main.out2b, conv3x3_of(o.conv, head.main.out2a, all, false, None, true))
}

/// 38 planes as Gaussians with a confidence.
pub open spec fn gaussians_of<T: Analytic>(host: Seq<T>, h: int, w: int) -> RawGaussiansData<T> {
    let hw = h * w;
    RawGaussiansData {
        raw_gs: Seq::new((hw * 37) as nat, |q: int| host[(q % 37) * hw + q / 37]),
        gs_conf: Seq::new(hw as nat, |i: int| sigmoid_of(host[37 * hw + i])),
        h,
        w,
    }
}

/// Splits 38 planes into Gaussians and confidences.
pub fn split_gaussians<T: Analytic>(host: &[T], h: usize, w: usize) -> (r: RawGaussians<T>)
    requires
        host.len() == 38 * (h * w),
    ensures
        r@ == gaussians_of(host@, h as int, w as int),
{
    assert(0 <= h * w) by (nonlinear_arith)
        requires
            0 <= h,
            0 <= w,
    ;
    assert(host.len() <= usize::MAX);
    let hw: usize = h * w;
    let total: usize = hw * 37;
    let mut raw_gs: Vec<T> = Vec::new();
    let mut q: usize = 0;
    while q < total
        invariant
            q <= total,
            total == hw * 37,
            hw == h * w,
            host.len() == 38 * hw,
            raw_gs.len() == q,
            forall|j: int|
                0 <= j < q ==> #[trigger] raw_gs[j] == gaussians_of(
                    host@,
                    h as int,
                    w as int,
                ).raw_gs[j],
        decreases total - q,
    {
        proof {
            lemma_within((q % 37) as int, 37, (q / 37) as int, hw as int);
        }
        raw_gs.push(host[(q % 37) * hw + q / 37]);
        q = q + 1;
    }
    let mut gs_conf: Vec<T> = Vec::new();
    let mut i: usize = 0;
    while i < hw
        invariant
            i <= hw,
            hw == h * w,
            host.len() == 38 * hw,
            gs_conf.len() == i,
            forall|j: int|
                0 <= j < i ==> #[trigger] gs_conf[j] == gaussians_of(
                    host@,
                    h as int,
                    w as int,
                ).gs_conf[j],
        decreases hw - i,
    {
        gs_conf.push(sigmoid(host[37 * hw + i]));
        i = i + 1;
    }
    assert(raw_gs@ =~= gaussians_of(host@, h as int, w as int).raw_gs);
    assert(gs_conf@ =~= gaussians_of(host@, h as int, w as int).gs_conf);
    RawGaussians { raw_gs, gs_conf, h, w }
}

/// Channel `c` of pixel `i` stands at place `c` of the pixel's 37 numbers.
pub proof fn law_gaussian_layout<T: Analytic>(host: Seq<T>, h: int, w: int, i: int, c: int)
    requires
        0 <= i < h * w,
        0 <= c < 37,
    ensures
        gaussians_of(host, h, w).raw_gs[i * 37 + c] == host[c * (h * w) + i],
{
    lemma_split(i, 37, c);
    lemma_within(i, h * w, c, 37);
}

/// What running the decoder gives. Refused where it has other than 38 outputs.
pub open spec fn gs_result<T: Gaussian>(
    head: GsHead<T>,
    feats: Seq<Seq<T>>,
    image: Seq<T>,
    gh: int,
    gw: int,
    h: int,
    w: int,
    uv: &UvEmbeds<T>,
) -> Result<RawGaussiansData<T>, Fault> {
    if head.main.out2b.oc != 38 {
        Err(
            Fault::GaussianOutput {
                channels: head.main.out2b.oc as nat,
                height: h as nat,
                width: w as nat,
            },
        )
    } else {
        Ok(gaussians_of(gs_map_of(head, feats, image, gh, gw, h, w, uv).data, h, w))
    }
}

fn merge<T: Gaussian>(w: &Conv3x3W<T>, x: &Feat<T>, c: Ghost<int>, hw: Ghost<int>) -> (r: Feat<T>)
    requires
        roomy(c@, hw@),
        w.wf(c@),
        x@.wf(),
        x.c == w.ic,
        x.h * x.w <= hw@,
    ensures
        r@ == merge_step(*w, x@),
        r@.wf(),
{
    let o: ConvOptions = ConvOptions { conv3x3: Conv3x3Mode::Direct, wino: WinoMode::Auto };
    let y: Feat<T> = run3x3(o, w, x, false, c, hw);
    let (yc, yh, yw): (usize, usize, usize) = (y.c, y.h, y.w);
    Feat::new(gelu_exact(y.data), yc, yh, yw)
}

impl<T: Gaussian> GsHead<T> {
    /// Runs the decoder on the tokens of four stages and the image, colour by
    /// colour, of `h` by `w` pixels.
    ///
    /// Refused where the decoder has other than 38 outputs.
    pub fn forward(
        &self,
        feats: &[Vec<T>],
        image: &[T],
        gh: usize,
        gw: usize,
        h: usize,
        w: usize,
        uv: &UvEmbeds<T>,
    ) -> (r: Result<RawGaussians<T>, Error>)
        requires
            exists|c: int, hw: int| #[trigger]
                roomy(c, hw) && self.wf(c) && (8 * gh) * (8 * gw) <= hw && h * w <= hw,
            0 < gh <= 0x0fff_ffff,
            0 < gw <= 0x0fff_ffff,
            h <= 0x7fff_ffff,
            w <= 0x7fff_ffff,
            feats.len() >= 4,
            forall|s: int|
                0 <= s < 4 ==> (#[trigger] feats[s]).len() == (gh * gw) * self.main.in_channels,
            image.len() == 3 * (h * w),
            uv.wf(self.main, gh as int, gw as int, h as int, w as int),
        ensures
            outcome(r) == gs_result(
                *self,
                views(feats@),
                image@,
                gh as int,
                gw as int,
                h as int,
                w as int,
                uv,
            ),
    {
        let ghost bound: (int, int) = choose|c: int, hw: int| #[trigger]
            roomy(c, hw) && self.wf(c) && (8 * gh) * (8 * gw) <= hw && h * w <= hw;
        let c: Ghost<int> = Ghost(bound.0);
        let hw: Ghost<int> = Ghost(bound.1);
        let o: DptOptions = DptOptions {
            conv: ConvOptions { conv3x3: Conv3x3Mode::Direct, wino: WinoMode::Auto },
            fuse_upsample: false,
            fuse_fusion_upsample: false,
        };
        let m: &FastDptHead<T> = &self.main;
        if m.out2b.oc != 38 {
            return Err(
                Error::Model(
                    ModelError::GaussianOutput { channels: m.out2b.oc, height: h, width: w },
                ),
            );
        }
        proof {
            lemma_pyramid_room(gh as int, gw as int, hw@);
            lemma_room(c@, hw@, m.out1.oc as int, m.out2a.oc as int, h as int, w as int);
        }
        let lats: Vec<Feat<T>> = m.compute_laterals(o.conv, feats, gh, gw, Some(uv), c, hw);
        proof {
            assert forall|s: int| 0 <= s < 4 implies (#[trigger] lats[s])@.wf() && lats[s].c
                == lats[0].c by {
                assert(lats[0].c == m.features);
            }
            assert(Seq::new(4, |s: int| lats[s]@) =~= laterals_of(
                o.conv,
                *m,
                views(feats@),
                gh as int,
                gw as int,
                Some(uv),
            ));
        }
        let top: Feat<T> = fuse_pyramid(
            o,
            &m.rn1,
            &m.rn2,
            &m.rn3,
            &m.rn4,
            lats,
            gh,
            gw,
            c,
            hw,
        );
        let y: Feat<T> = run3x3(o.conv, &m.out1, &top, false, c, hw);
        let up: Feat<T> = if y.h != h || y.w != w {
            upsample_bilinear_ac(&y, h, w, None)
        } else {
            y
        };
        let seen0: Feat<T> = merge(
            &self.merger.0,
            &Feat::new(copy_slice(image), 3, h, w),
            c,
            hw,
        );
        let seen1: Feat<T> = merge(&self.merger.1, &seen0, c, hw);
        let seen: Feat<T> = merge(&self.merger.2, &seen1, c, hw);
        let both: Vec<T> = add_buffers(up.data.as_slice(), seen.data.as_slice());
        let placed: Vec<T> = add_buffers(both.as_slice(), uv.output.as_slice());
        let all: Feat<T> = Feat::new(placed, up.c, h, w);
        let a: Feat<T> = run3x3(o.conv, &m.out2a, &all, true, c, hw);
        let b: Feat<T> = run1x1(&m.out2b, &a, c, hw);
        assert(b@ == gs_map_of(
            *self,
            views(feats@),
            image@,
            gh as int,
            gw as int,
            h as int,
            w as int,
            uv,
        ));
        Ok(split_gaussians(b.data.as_slice(), h, w))
    }
}

// ---- loading ------------------------------------------------------------------

/// What a [`GsHead`] holds.
pub struct GsHeadData<T> {
    pub stem: StemData<T>,
    pub out1: ConvData<T>,
    pub out2a: ConvData<T>,
    pub out2b: ConvData<T>,
    pub merger: (ConvData<T>, ConvData<T>, ConvData<T>),
}

impl<T> View for GsHead<T> {
    type V = GsHeadData<T>;

    open spec fn view(&self) -> GsHeadData<T> {
        let m = self.main;
        GsHeadData {
            stem: StemData {
                proj: Four(m.proj[0]@, m.proj[1]@, m.proj[2]@, m.proj[3]@),
                resize0: m.resize0@,
                resize1: m.resize1@,
                resize3: m.resize3@,
                layer_rn: Four(
                    m.layer_rn[0]@,
                    m.layer_rn[1]@,
                    m.layer_rn[2]@,
                    m.layer_rn[3]@,
                ),
                rn: Four(m.rn1@, m.rn2@, m.rn3@, m.rn4@),
            },
            out1: m.out1@,
            out2a: m.out2a@,
            out2b: m.out2b@,
            merger: (self.merger.0@, self.merger.1@, self.merger.2@),
        }
    }
}

/// The output channels of the projections.
pub open spec fn gs_widths() -> [usize; 4] {
    [256, 512, 1024, 1024]
}

/// The Gaussian decoder of a file.
#[verifier::opaque]
pub open spec fn gs_head_loaded<T: Scalar>(bytes: Seq<u8>, header: Header, ins: usize) -> Result<
    GsHeadData<T>,
    Fault,
> {
    match stem_loaded::<T>(bytes, header, "gs."@, ins, gs_widths(), 256) {
        Err(e) => Err(e),
        Ok(stem) => match conv_loaded::<T>(bytes, header, "gs.scratch.out1"@, 128, 256, 3) {
            Err(e) => Err(e),
            Ok(out1) => match conv_loaded::<T>(bytes, header, "gs.scratch.out2a"@, 32, 128, 3) {
                Err(e) => Err(e),
                Ok(out2a) => match conv_loaded::<T>(
                    bytes,
                    header,
                    "gs.scratch.out2b"@,
                    38,
                    32,
                    1,
                ) {
                    Err(e) => Err(e),
                    Ok(out2b) => match conv_loaded::<T>(
                        bytes,
                        header,
                        "gs.merger.0"@,
                        32,
                        3,
                        3,
                    ) {
                        Err(e) => Err(e),
                        Ok(a) => match conv_loaded::<T>(
                            bytes,
                            header,
                            "gs.merger.1"@,
                            64,
                            32,
                            3,
                        ) {
                            Err(e) => Err(e),
                            Ok(b) => match conv_loaded::<T>(
                                bytes,
                                header,
                                "gs.merger.2"@,
                                128,
                                64,
                                3,
                            ) {
                                Err(e) => Err(e),
                                Ok(c) => Ok(
                                    GsHeadData { stem, out1, out2a, out2b, merger: (a, b, c) },
                                ),
                            },
                        },
                    },
                },
            },
        },
    }
}

impl<T: Scalar> GsHead<T> {
    /// Reads the decoder from a file.
    pub fn load(cfg: &Config<T>, f: &GgufFile) -> (r: Result<Self, Error>)
        requires
            f.wf(),
            2 * cfg.embed_dim <= usize::MAX,
        ensures
            outcome(r) == gs_head_loaded::<T>(
                f.contents(),
                f@,
                crate::cam_pose::token_width(*cfg) as usize,
            ),
            r matches Ok(h) ==> {
                &&& h.wf(crate::cam_pose::token_width(*cfg) + 2048)
                &&& h.main.in_channels == crate::cam_pose::token_width(*cfg)
                &&& h.main.features == 256
                &&& h.main.out2b.oc == 38
            },
    {
        reveal(gs_head_loaded);
        let ins: usize = if cfg.cat_token {
            2 * cfg.embed_dim as usize
        } else {
            cfg.embed_dim as usize
        };
        let oc: [usize; 4] = [256, 512, 1024, 1024];
        assert(oc =~= gs_widths());
        let stem: Stem<T> = match load_stem(f, "gs.", ins, oc, 256) {
            Err(e) => {
                return Err(e);
            },
            Ok(s) => s,
        };
        let out1: Conv3x3W<T> = match load_conv3x3(f, "gs.scratch.out1", 128, 256) {
            Err(e) => {
                return Err(e);
            },
            Ok(w) => w,
        };
        let out2a: Conv3x3W<T> = match load_conv3x3(f, "gs.scratch.out2a", 32, 128) {
            Err(e) => {
                return Err(e);
            },
            Ok(w) => w,
        };
        let out2b: Conv1x1W<T> = match load_conv1x1(f, "gs.scratch.out2b", GS_OUT_CHANNELS, 32) {
            Err(e) => {
                return Err(e);
            },
            Ok(w) => w,
        };
        let a: Conv3x3W<T> = match load_conv3x3(f, "gs.merger.0", 32, 3) {
            Err(e) => {
                return Err(e);
            },
            Ok(w) => w,
        };
        let b: Conv3x3W<T> = match load_conv3x3(f, "gs.merger.1", 64, 32) {
            Err(e) => {
                return Err(e);
            },
            Ok(w) => w,
        };
        let c: Conv3x3W<T> = match load_conv3x3(f, "gs.merger.2", 128, 64) {
            Err(e) => {
                return Err(e);
            },
            Ok(w) => w,
        };
        let Four(p0, p1, p2, p3) = stem.proj;
        let Four(l0, l1, l2, l3) = stem.layer_rn;
        let Four(rn1, rn2, rn3, rn4) = stem.rn;
        let main: FastDptHead<T> = FastDptHead {
            in_norm: None,
            in_channels: ins,
            proj: [p0, p1, p2, p3],
            resize0: stem.resize0,
            resize1: stem.resize1,
            resize3: stem.resize3,
            layer_rn: [l0, l1, l2, l3],
            rn1,
            rn2,
            rn3,
            rn4,
            out1,
            out2a,
            out2b,
            sky: None,
            features: 256,
        };
        Ok(GsHead { main, merger: (a, b, c) })
    }
}

/// Whether a file holds a Gaussian decoder.
pub fn has_gs_head(f: &GgufFile) -> (r: bool)
    requires
        f.wf(),
    ensures
        r == f@.tensors.contains_key("gs.proj.0.weight"@),
{
    f.tensor_info("gs.proj.0.weight").is_some()
}

} // verus!
