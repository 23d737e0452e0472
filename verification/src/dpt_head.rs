//! The depth decoder of a model file, and its second branch, which gives a ray
//! for each pixel.

use crate::cam_pose::{cut_off, relu_all};
use crate::config::Config;
use crate::dpt_weights::{
    conv_loaded, fusions_loaded, load_conv1x1, load_conv3x3, load_fusions, load_optional_pair,
    load_stem, optional_pair_loaded, stem_loaded, ConvData, Four, FusionData, Stem, StemData,
};
use crate::error::{Error, Fault, ModelError};
use crate::fast_attn::copy_slice;
use crate::fast_conv::{Conv3x3Mode, ConvOptions, WinoMode};
use crate::fast_dpt::{
    add_buffers, conv1x1_of, conv3x3_of, depth_of, fuse_pyramid, laterals_of, lemma_pyramid_room,
    lemma_room, main_pyramid, output_embed, pyramid_of, roomy, run1x1, run3x3, sky_of, sum_of,
    transpose_npatch_chw, transposed, Conv1x1W, Conv3x3W, DptOptions, FastDptHead, Feat, FusionW,
    Planes, UvEmbeds,
};
use crate::gguf::{outcome, views, GgufFile, Header, TensorInfo};
use crate::index::{lemma_split, lemma_within};
use crate::norm::{layernorm_matrix, layernorm_rows_of};
use crate::scalar::{one, Analytic, Scalar};
use crate::weights::{joined, lemma_sizes, load_pair, pair_loaded, Pair, PairData};
use vstd::prelude::*;
use vstd::string::*;

verus! {

/// The ray branch: a pyramid of its own on the shared lateral maps, five 3x3
/// convolutions, a norm over the channels and a last convolution to six ray
/// numbers and a confidence.
pub struct AuxRayHead<T> {
    pub rn: Four<FusionW<T>>,
    pub out1: Vec<Conv3x3W<T>>,
    pub out2a: Conv3x3W<T>,
    pub ln: Pair<T>,
    pub out2b: Conv1x1W<T>,
}

/// The depth decoder.
pub struct DptHead<T> {
    pub main: FastDptHead<T>,
    pub aux: Option<AuxRayHead<T>>,
    /// Whether positional embeddings are added.
    pub head_pos_embed: bool,
}

/// A field of rays: six numbers and a confidence for each pixel.
pub struct Rays<T> {
    pub ray: Vec<T>,
    pub conf: Vec<T>,
    pub h: usize,
    pub w: usize,
}

/// What [`Rays`] hold.
pub struct RaysData<T> {
    pub ray: Seq<T>,
    pub conf: Seq<T>,
    pub h: int,
    pub w: int,
}

impl<T> View for Rays<T> {
    type V = RaysData<T>;

    open spec fn view(&self) -> RaysData<T> {
        RaysData { ray: self.ray@, conf: self.conf@, h: self.h as int, w: self.w as int }
    }
}

/// Convolutions without shortcuts.
pub open spec fn plain_options() -> DptOptions {
    DptOptions {
        conv: ConvOptions { conv3x3: Conv3x3Mode::Direct, wino: WinoMode::Auto },
        fuse_upsample: false,
        fuse_fusion_upsample: false,
    }
}

fn plain() -> (r: DptOptions)
    ensures
        r == plain_options(),
{
    DptOptions {
        conv: ConvOptions { conv3x3: Conv3x3Mode::Direct, wino: WinoMode::Auto },
        fuse_upsample: false,
        fuse_fusion_upsample: false,
    }
}

/// The embeddings that a head uses.
pub open spec fn used<T>(head: DptHead<T>, uv: Option<&UvEmbeds<T>>) -> Option<&UvEmbeds<T>> {
    if head.head_pos_embed {
        uv
    } else {
        None
    }
}

/// Each pixel's channels normalised together.
pub open spec fn channels_normalized<T: Analytic>(
    x: Planes<T>,
    w: Seq<T>,
    b: Seq<T>,
    eps: T,
) -> Planes<T> {
    let hw = x.h * x.w;
    let rows = transposed(x.data, x.c, hw);
    let normed = layernorm_rows_of(rows, hw, x.c, w, b, eps, false);
    Planes { data: transposed(normed, hw, x.c), ..x }
}

/// Normalises each pixel's channels together.
pub fn layernorm_channels_last<T: Analytic>(x: &Feat<T>, w: &[T], b: &[T], eps: T) -> (r: Feat<T>)
    requires
        x@.wf(),
        x.h * x.w <= usize::MAX,
        w.len() == x.c,
        b.len() == x.c,
    ensures
        r@ == channels_normalized(x@, w@, b@, eps),
        r@.wf(),
{
    let hw: usize = x.h * x.w;
    proof {
        assert(x.c * hw == hw * x.c) by (nonlinear_arith);
        assert(x.data.len() <= usize::MAX);
    }
    let rows: Vec<T> = transpose_npatch_chw(x.data.as_slice(), x.c, hw);
    let normed: Vec<T> = layernorm_matrix(rows.as_slice(), hw, x.c, w, b, eps, false);
    let data: Vec<T> = transpose_npatch_chw(normed.as_slice(), hw, x.c);
    Feat::new(data, x.c, x.h, x.w)
}

/// 3x3 convolutions one after the other.
pub open spec fn chain_of<T: Scalar>(
    opts: ConvOptions,
    convs: Seq<Conv3x3W<T>>,
    x: Planes<T>,
) -> Planes<T>
    decreases convs.len(),
{
    if convs.len() == 0 {
        x
    } else {
        conv3x3_of(
            opts,
            convs.last(),
            chain_of(opts, convs.drop_last(), x),
            false,
            None,
            false,
        )
    }
}

/// The convolutions take what the one before gives, `ins` channels at first, and
/// give `outs` at last.
pub open spec fn chained<T>(convs: Seq<Conv3x3W<T>>, ins: int) -> bool {
    &&& convs.len() > 0 ==> convs[0].ic == ins
    &&& forall|i: int| 1 <= i < convs.len() ==> (#[trigger] convs[i]).ic == convs[i - 1].oc
}

/// The channels after `n` convolutions.
pub open spec fn chain_width<T>(convs: Seq<Conv3x3W<T>>, ins: int) -> int {
    if convs.len() == 0 {
        ins
    } else {
        convs.last().oc as int
    }
}

/// The ray branch on given lateral maps.
pub open spec fn ray_map_of<T: Analytic>(
    aux: AuxRayHead<T>,
    lats: Seq<Planes<T>>,
    gh: int,
    gw: int,
    uv: Option<Seq<T>>,
) -> Planes<T> {
    let o = plain_options();
    let top = pyramid_of(o, aux.rn.0, aux.rn.1, aux.rn.2, aux.rn.3, lats, gh, gw);
    let deep = chain_of(o.conv, aux.out1@, top);
    let placed = match uv {
        Some(pe) => Planes { data: sum_of(deep.data, pe), ..deep },
        None => deep,
    };
    let a = conv3x3_of(o.conv, aux.out2a, placed, false, None, false);
    let n = channels_normalized(
        a,
        aux.ln.weight@,
        aux.ln.bias@,
        T::ratio_spec(1, 100_000),
    );
    conv1x1_of(aux.out2b, Planes { data: relu_all(n.data), ..n })
}

/// Seven planes of `hw` numbers as rays with a confidence.
pub open spec fn rays_of<T: Analytic>(host: Seq<T>, h: int, w: int) -> RaysData<T> {
    let hw = h * w;
    RaysData {
        ray: Seq::new((hw * 6) as nat, |q: int| host[(q % 6) * hw + q / 6]),
        conf: Seq::new(
            hw as nat,
            |p: int| host[6 * hw + p].exponential_spec().plus_spec(one()),
        ),
        h,
        w,
    }
}

/// Splits seven planes into rays and confidences.
pub fn split_rays<T: Analytic>(host: &[T], h: usize, w: usize) -> (r: Rays<T>)
    requires
        host.len() == 7 * (h * w),
    ensures
        r@ == rays_of(host@, h as int, w as int),
{
    assert(0 <= h * w) by (nonlinear_arith)
        requires
            0 <= h,
            0 <= w,
    ;
    assert(host.len() <= usize::MAX);
    let hw: usize = h * w;
    let total: usize = hw * 6;
    let mut ray: Vec<T> = Vec::new();
    let mut q: usize = 0;
    while q < total
        invariant
            q <= total,
            total == hw * 6,
            hw == h * w,
            host.len() == 7 * hw,
            ray.len() == q,
            forall|j: int|
                0 <= j < q ==> #[trigger] ray[j] == rays_of(host@, h as int, w as int).ray[j],
        decreases total - q,
    {
        proof {
            lemma_within((q % 6) as int, 6, (q / 6) as int, hw as int);
        }
        ray.push(host[(q % 6) * hw + q / 6]);
        q = q + 1;
    }
    let mut conf: Vec<T> = Vec::new();
    let mut p: usize = 0;
    while p < hw
        invariant
            p <= hw,
            hw == h * w,
            host.len() == 7 * hw,
            conf.len() == p,
            forall|j: int|
                0 <= j < p ==> #[trigger] conf[j] == rays_of(host@, h as int, w as int).conf[j],
        decreases hw - p,
    {
        conf.push(host[6 * hw + p].exponential().plus(T::ratio(1, 1)));
        p = p + 1;
    }
    assert(ray@ =~= rays_of(host@, h as int, w as int).ray);
    assert(conf@ =~= rays_of(host@, h as int, w as int).conf);
    Rays { ray, conf, h, w }
}

/// Number `c` of the ray of pixel `p` is pixel `p` of plane `c`.
pub proof fn law_ray_layout<T: Analytic>(host: Seq<T>, h: int, w: int, p: int, c: int)
    requires
        0 <= p < h * w,
        0 <= c < 6,
    ensures
        rays_of(host, h, w).ray[p * 6 + c] == host[c * (h * w) + p],
{
    lemma_split(p, 6, c);
    lemma_within(p, h * w, c, 6);
}

impl<T> AuxRayHead<T> {
    /// The weights have their sizes, and no layer has more than `c` channels.
    pub open spec fn wf(&self, f: int, c: int) -> bool {
        &&& self.rn.0.wf(f, c) && self.rn.0.outc.oc == f
        &&& self.rn.1.wf(f, c) && self.rn.1.outc.oc == f
        &&& self.rn.2.wf(f, c) && self.rn.2.outc.oc == f
        &&& self.rn.3.wf(f, c) && self.rn.3.outc.oc == f
        &&& forall|i: int| 0 <= i < self.out1.len() ==> (#[trigger] self.out1[i]).wf(c)
        &&& self.out2a.wf(c)
        &&& self.ln.weight.len() == 32
        &&& self.ln.bias.len() == 32
        &&& self.out2b.wf(c)
    }

    /// The layers fit together.
    pub open spec fn fits(&self, f: int) -> bool {
        &&& chained(self.out1@, f)
        &&& self.out2a.ic == chain_width(self.out1@, f)
        &&& self.out2a.oc == 32
        &&& self.out2b.ic == 32
        &&& self.out2b.oc == 7
    }

    fn check(&self, f: usize) -> (r: bool)
        ensures
            r == self.fits(f as int),
    {
        let mut width: usize = f;
        let mut i: usize = 0;
        while i < self.out1.len()
            invariant
                i <= self.out1.len(),
                width == chain_width(self.out1@.take(i as int), f as int),
                i > 0 ==> self.out1[0].ic == f,
                forall|j: int|
                    1 <= j < i ==> (#[trigger] self.out1[j]).ic == self.out1[j - 1].oc,
            decreases self.out1.len() - i,
        {
            proof {
                let t = self.out1@.take(i as int);
                if i > 0 {
                    assert(t.last() == self.out1[i - 1]);
                }
                assert(self.out1@.take(i + 1).last() == self.out1[i as int]);
            }
            if self.out1[i].ic != width {
                return false;
            }
            width = self.out1[i].oc;
            i = i + 1;
        }
        assert(self.out1@.take(i as int) =~= self.out1@);
        width == self.out2a.ic && self.out2a.oc == 32 && self.out2b.ic == 32 && self.out2b.oc == 7
    }
}

impl<T> DptHead<T> {
    /// The weights have their sizes, and no layer has more than `c` channels.
    pub open spec fn wf(&self, c: int) -> bool {
        &&& self.main.wf(c)
        &&& self.aux matches Some(a) ==> a.wf(self.main.features as int, c)
    }

    /// The number of output channels.
    pub fn output_dim(&self) -> (r: usize)
        ensures
            r == self.main.out2b.oc,
    {
        self.main.out2b.oc
    }

    pub fn has_sky(&self) -> (r: bool)
        ensures
            r == self.main.sky is Some,
    {
        self.main.sky.is_some()
    }

    /// Whether there is a ray branch.
    pub fn has_aux(&self) -> (r: bool)
        ensures
            r == self.aux is Some,
    {
        self.aux.is_some()
    }
}

/// What running the ray branch gives. Refused where there is none and where its
/// layers do not fit together.
pub open spec fn rays_result<T: Analytic>(
    head: DptHead<T>,
    feats: Seq<Seq<T>>,
    gh: int,
    gw: int,
    uv: Option<&UvEmbeds<T>>,
    ray_uv: Option<Seq<T>>,
) -> Result<RaysData<T>, Fault> {
    match head.aux {
        None => Err(Fault::Unimplemented("aux ray head (rebuild GGUF with --with-aux)"@)),
        Some(aux) => if !aux.fits(head.main.features as int) {
            Err(Fault::BadOutput)
        } else {
            let lats = laterals_of(
                plain_options().conv,
                head.main,
                feats,
                gh,
                gw,
                used(head, uv),
            );
            let pe = if head.head_pos_embed {
                ray_uv
            } else {
                None
            };
            Ok(rays_of(ray_map_of(aux, lats, gh, gw, pe).data, 8 * gh, 8 * gw))
        },
    }
}

impl<T: Analytic> DptHead<T> {
    /// Runs the decoder on the tokens of four stages, each `[gh * gw, channels]`,
    /// for an image of `h` by `w` pixels: depth logits and, where there is a sky
    /// branch, sky logits.
    pub fn forward(
        &self,
        feats: &[Vec<T>],
        gh: usize,
        gw: usize,
        h: usize,
        w: usize,
        uv: Option<&UvEmbeds<T>>,
    ) -> (r: (Vec<T>, Option<Vec<T>>))
        requires
            exists|c: int, hw: int| #[trigger]
                roomy(c, hw) && self.wf(c) && (8 * gh) * (8 * gw) <= hw && h * w <= hw,
            0 < gh <= 0x0fff_ffff,
            0 < gw <= 0x0fff_ffff,
            h <= 0x7fff_ffff,
            w <= 0x7fff_ffff,
            feats.len() >= 4,
            forall|s: int|
                0 <= s < 4 ==> (#[trigger] feats[s]).len() == (gh * gw) * self.main.in_channels,
            self.head_pos_embed ==> uv is Some,
            uv matches Some(u) ==> u.wf(self.main, gh as int, gw as int, h as int, w as int),
        ensures
            ({
                let o = plain_options();
                let pe = used(*self, uv);
                let pyramid = main_pyramid(o, self.main, views(feats@), gh as int, gw as int, pe);
                &&& r.0@ == depth_of(
                    o,
                    self.main,
                    pyramid,
                    h as int,
                    w as int,
                    output_embed(pe),
                ).data
                &&& r.0.len() == self.main.out2b.oc * (h * w)
                &&& match r.1 {
                    Some(sky) => sky_of(
                        o,
                        self.main,
                        pyramid,
                        h as int,
                        w as int,
                        output_embed(pe),
                    ) == Some(sky@),
                    None => self.main.sky is None,
                }
            }),
    {
        let ghost bound: (int, int) = choose|c: int, hw: int| #[trigger]
            roomy(c, hw) && self.wf(c) && (8 * gh) * (8 * gw) <= hw && h * w <= hw;
        let pe: Option<&UvEmbeds<T>> = if self.head_pos_embed {
            uv
        } else {
            None
        };
        self.main.decode(plain(), feats, gh, gw, h, w, pe, Ghost(bound.0), Ghost(bound.1))
    }

    /// Runs the ray branch on the tokens of four stages. `ray_uv` is the
    /// positional embedding of its last map.
    ///
    /// Refused where there is no ray branch and where its layers do not fit
    /// together.
    pub fn forward_rays(
        &self,
        feats: &[Vec<T>],
        gh: usize,
        gw: usize,
        uv: Option<&UvEmbeds<T>>,
        ray_uv: Option<&[T]>,
    ) -> (r: Result<Rays<T>, Error>)
        requires
            exists|c: int, hw: int| #[trigger]
                roomy(c, hw) && self.wf(c) && (8 * gh) * (8 * gw) <= hw && 7 <= c,
            0 < gh <= 0x0fff_ffff,
            0 < gw <= 0x0fff_ffff,
            feats.len() >= 4,
            forall|s: int|
                0 <= s < 4 ==> (#[trigger] feats[s]).len() == (gh * gw) * self.main.in_channels,
            self.head_pos_embed ==> uv is Some && ray_uv is Some,
            uv matches Some(u) ==> forall|s: int|
                0 <= s < 4 ==> (#[trigger] u.stages[s]).len() == self.main.proj[s].oc * (gh * gw),
            ray_uv matches Some(pe) ==> (self.aux matches Some(a) ==> pe.len() == chain_width(
                a.out1@,
                self.main.features as int,
            ) * ((8 * gh) * (8 * gw))),
        ensures
            outcome(r) == rays_result(
                *self,
                views(feats@),
                gh as int,
                gw as int,
                uv,
                crate::fast_conv::contents(ray_uv),
            ),
    {
        let ghost bound: (int, int) = choose|c: int, hw: int| #[trigger]
            roomy(c, hw) && self.wf(c) && (8 * gh) * (8 * gw) <= hw && 7 <= c;
        let c: Ghost<int> = Ghost(bound.0);
        let hw: Ghost<int> = Ghost(bound.1);
        let aux: &AuxRayHead<T> = match &self.aux {
            None => {
                return Err(
                    Error::Unimplemented("aux ray head (rebuild GGUF with --with-aux)".to_owned()),
                );
            },
            Some(a) => a,
        };
        if !aux.check(self.main.features) {
            return Err(Error::Model(ModelError::BadOutput));
        }
        let o: DptOptions = plain();
        let pe: Option<&UvEmbeds<T>> = if self.head_pos_embed {
            uv
        } else {
            None
        };
        proof {
            lemma_pyramid_room(gh as int, gw as int, hw@);
        }
        let lats: Vec<Feat<T>> = self.main.compute_laterals(o.conv, feats, gh, gw, pe, c, hw);
        proof {
            assert forall|s: int| 0 <= s < 4 implies (#[trigger] lats[s])@.wf() && lats[s].c
                == lats[0].c by {
                assert(lats[0].c == self.main.features);
            }
            assert(Seq::new(4, |s: int| lats[s]@) =~= laterals_of(
                o.conv,
                self.main,
                views(feats@),
                gh as int,
                gw as int,
                pe,
            ));
        }
        let top: Feat<T> = fuse_pyramid(
            o,
            &aux.rn.0,
            &aux.rn.1,
            &aux.rn.2,
            &aux.rn.3,
            lats,
            gh,
            gw,
            c,
            hw,
        );
        let ghost top_view = top@;
        let mut a: Feat<T> = top;
        let mut i: usize = 0;
        assert(aux.out1@.take(0) =~= Seq::empty());
        while i < aux.out1.len()
            invariant
                i <= aux.out1.len(),
                roomy(c@, hw@),
                aux.wf(self.main.features as int, c@),
                aux.fits(self.main.features as int),
                (8 * gh) * (8 * gw) <= hw@,
                a@ == chain_of(o.conv, aux.out1@.take(i as int), top_view),
                a@.wf(),
                a.h == 8 * gh,
                a.w == 8 * gw,
                a.c == chain_width(aux.out1@.take(i as int), self.main.features as int),
            decreases aux.out1.len() - i,
        {
            proof {
                assert(aux.out1[i as int].wf(c@));
                assert(aux.out1@.take(i + 1).drop_last() =~= aux.out1@.take(i as int));
                assert(aux.out1@.take(i + 1).last() == aux.out1[i as int]);
                if i > 0 {
                    assert(aux.out1@.take(i as int).last() == aux.out1[i - 1]);
                    assert(aux.out1[i as int].ic == aux.out1[i - 1].oc);
                }
            }
            a = run3x3(o.conv, &aux.out1[i], &a, false, c, hw);
            i = i + 1;
        }
        assert(aux.out1@.take(i as int) =~= aux.out1@);
        if self.head_pos_embed {
            if let Some(pe) = ray_uv {
                let data: Vec<T> = add_buffers(a.data.as_slice(), pe);
                a = Feat::new(data, a.c, a.h, a.w);
            }
        }
        let b: Feat<T> = run3x3(o.conv, &aux.out2a, &a, false, c, hw);
        proof {
            lemma_room(c@, hw@, b.c as int, 7, b.h as int, b.w as int);
        }
        let n: Feat<T> = layernorm_channels_last(
            &b,
            aux.ln.weight.as_slice(),
            aux.ln.bias.as_slice(),
            T::ratio(1, 100_000),
        );
        let (nh, nw): (usize, usize) = (n.h, n.w);
        let cut: Feat<T> = Feat::new(cut_off(n.data), n.c, nh, nw);
        let m: Feat<T> = run1x1(&aux.out2b, &cut, c, hw);
        Ok(split_rays(m.data.as_slice(), 8 * gh, 8 * gw))
    }
}

// ---- loading ------------------------------------------------------------------

/// What an [`AuxRayHead`] holds.
pub struct AuxRayData<T> {
    pub rn: Four<FusionData<T>>,
    pub out1: Seq<ConvData<T>>,
    pub out2a: ConvData<T>,
    pub ln: PairData<T>,
    pub out2b: ConvData<T>,
}

impl<T> View for AuxRayHead<T> {
    type V = AuxRayData<T>;

    open spec fn view(&self) -> AuxRayData<T> {
        AuxRayData {
            rn: self.rn@,
            out1: views(self.out1@),
            out2a: self.out2a@,
            ln: self.ln@,
            out2b: self.out2b@,
        }
    }
}

/// What a [`DptHead`] holds.
pub struct DptHeadData<T> {
    pub in_norm: Option<PairData<T>>,
    pub stem: StemData<T>,
    pub outs: OutsData<T>,
    pub aux: Option<AuxRayData<T>>,
}

impl<T> View for DptHead<T> {
    type V = DptHeadData<T>;

    open spec fn view(&self) -> DptHeadData<T> {
        let m = self.main;
        DptHeadData {
            in_norm: match m.in_norm {
                Some(n) => Some(PairData { weight: n.0@, bias: n.1@ }),
                None => None,
            },
            stem: StemData {
                proj: Four(m.proj[0]@, m.proj[1]@, m.proj[2]@, m.proj[3]@),
                resize0: m.resize0@,
                resize1: m.resize1@,
                resize3: m.resize3@,
                layer_rn: Four(
                    m.layer_rn[0]@,
                    m.layer_rn[1]@,
                    m.layer_rn[2]@,
                    m.layer_rn[3]@,
                ),
                rn: Four(m.rn1@, m.rn2@, m.rn3@, m.rn4@),
            },
            outs: OutsData {
                out1: m.out1@,
                out2a: m.out2a@,
                out2b: m.out2b@,
                sky: sky_view(m.sky),
            },
            aux: match self.aux {
                Some(a) => Some(a@),
                None => None,
            },
        }
    }
}

/// The convolution `name` of the ray branch with as many channels as it is stored
/// with.
#[verifier::opaque]
pub open spec fn dyn_loaded<T: Scalar>(
    bytes: Seq<u8>,
    header: Header,
    at: Seq<char>,
    name: Seq<char>,
    k: usize,
) -> Result<ConvData<T>, Fault> {
    let base = at + "scratch."@ + name;
    let full = base + ".weight"@;
    if !header.tensors.contains_key(full) {
        Err(Fault::MissingRays(name))
    } else {
        let ne = header.tensors[full].ne;
        if ne.len() != 4 {
            Err(Fault::ConvDims { name: full, shape: ne })
        } else if ne[2] > usize::MAX || ne[3] > usize::MAX {
            Err(Fault::BadShape(full))
        } else {
            conv_loaded(bytes, header, base, ne[3] as usize, ne[2] as usize, k)
        }
    }
}

/// The output and input channels of a stored convolution.
fn dyn_channels(f: &GgufFile, name: &str, full: &str) -> (r: Result<(usize, usize), Error>)
    requires
        f.wf(),
    ensures
        match r {
            Ok(p) => {
                &&& f@.tensors.contains_key(full@)
                &&& f@.tensors[full@].ne.len() == 4
                &&& f@.tensors[full@].ne[3] == p.0
                &&& f@.tensors[full@].ne[2] == p.1
            },
            Err(e) => if !f@.tensors.contains_key(full@) {
                e@ == Fault::MissingRays(name@)
            } else if f@.tensors[full@].ne.len() != 4 {
                e@ == (Fault::ConvDims { name: full@, shape: f@.tensors[full@].ne })
            } else {
                &&& e@ == Fault::BadShape(full@)
                &&& f@.tensors[full@].ne[2] > usize::MAX || f@.tensors[full@].ne[3] > usize::MAX
            },
        },
{
    let info: &TensorInfo = match f.tensor_info(full) {
        None => {
            return Err(Error::Model(ModelError::MissingRays(name.to_owned())));
        },
        Some(i) => i,
    };
    if info.ne.len() != 4 {
        let shape: Vec<u64> = copy_slice(info.ne.as_slice());
        return Err(Error::Model(ModelError::ConvDims { name: full.to_owned(), shape }));
    }
    if info.ne[2] > usize::MAX as u64 || info.ne[3] > usize::MAX as u64 {
        return Err(Error::Model(ModelError::BadShape(full.to_owned())));
    }
    Ok((info.ne[3] as usize, info.ne[2] as usize))
}

fn load_dyn3x3<T: Scalar>(f: &GgufFile, at: &str, name: &str) -> (r: Result<Conv3x3W<T>, Error>)
    requires
        f.wf(),
    ensures
        outcome(r) == dyn_loaded::<T>(f.contents(), f@, at@, name@, 3),
        r matches Ok(w) ==> w.wf(w.ic + w.oc),
{
    reveal(dyn_loaded);
    let base: String = joined(joined(at, "scratch.").as_str(), name);
    match dyn_channels(f, name, joined(base.as_str(), ".weight").as_str()) {
        Err(e) => Err(e),
        Ok(p) => load_conv3x3(f, base.as_str(), p.0, p.1),
    }
}

fn load_dyn1x1<T: Scalar>(f: &GgufFile, at: &str, name: &str) -> (r: Result<Conv1x1W<T>, Error>)
    requires
        f.wf(),
    ensures
        outcome(r) == dyn_loaded::<T>(f.contents(), f@, at@, name@, 1),
        r matches Ok(w) ==> w.wf(w.ic + w.oc),
{
    reveal(dyn_loaded);
    let base: String = joined(joined(at, "scratch.").as_str(), name);
    match dyn_channels(f, name, joined(base.as_str(), ".weight").as_str()) {
        Err(e) => Err(e),
        Ok(p) => load_conv1x1(f, base.as_str(), p.0, p.1),
    }
}

/// The name of ray convolution `i`.
pub open spec fn ray_conv_name(i: int) -> Seq<char> {
    if i == 0 {
        "out1_aux.0"@
    } else if i == 1 {
        "out1_aux.1"@
    } else if i == 2 {
        "out1_aux.2"@
    } else if i == 3 {
        "out1_aux.3"@
    } else {
        "out1_aux.4"@
    }
}

/// The first `n` ray convolutions.
#[verifier::opaque]
pub open spec fn ray_convs_loaded<T: Scalar>(
    bytes: Seq<u8>,
    header: Header,
    at: Seq<char>,
    n: nat,
) -> Result<Seq<ConvData<T>>, Fault>
    decreases n,
{
    if n == 0 {
        Ok(Seq::empty())
    } else {
        match ray_convs_loaded::<T>(bytes, header, at, (n - 1) as nat) {
            Err(e) => Err(e),
            Ok(before) => match dyn_loaded::<T>(bytes, header, at, ray_conv_name(n - 1), 3) {
                Err(e) => Err(e),
                Ok(c) => Ok(before.push(c)),
            },
        }
    }
}

proof fn lemma_ray_convs_stop<T: Scalar>(
    bytes: Seq<u8>,
    header: Header,
    at: Seq<char>,
    n: nat,
    m: nat,
)
    requires
        n <= m,
        ray_convs_loaded::<T>(bytes, header, at, n) is Err,
    ensures
        ray_convs_loaded::<T>(bytes, header, at, m) == ray_convs_loaded::<T>(
            bytes,
            header,
            at,
            n,
        ),
    decreases m - n,
{
    reveal(ray_convs_loaded);
    if n < m {
        lemma_ray_convs_stop::<T>(bytes, header, at, n, (m - 1) as nat);
    }
}

/// More channels than any of the convolutions has.
pub open spec fn widths<T>(convs: Seq<Conv3x3W<T>>) -> int
    decreases convs.len(),
{
    if convs.len() == 0 {
        0
    } else {
        widths(convs.drop_last()) + convs.last().ic + convs.last().oc
    }
}

proof fn lemma_widths<T>(convs: Seq<Conv3x3W<T>>, i: int)
    ensures
        0 <= widths(convs),
        0 <= i < convs.len() ==> convs[i].ic + convs[i].oc <= widths(convs),
    decreases convs.len(),
{
    if convs.len() > 0 {
        lemma_widths(convs.drop_last(), i);
    }
}

/// The ray branch below `at`.
#[verifier::opaque]
pub open spec fn aux_loaded<T: Scalar>(
    bytes: Seq<u8>,
    header: Header,
    at: Seq<char>,
    features: usize,
) -> Result<AuxRayData<T>, Fault> {
    match fusions_loaded::<T>(bytes, header, at, "_aux"@, features) {
        Err(e) => Err(e),
        Ok(rn) => match ray_convs_loaded::<T>(bytes, header, at, 5) {
            Err(e) => Err(e),
            Ok(out1) => match dyn_loaded::<T>(bytes, header, at, "out2a_aux"@, 3) {
                Err(e) => Err(e),
                Ok(out2a) => match pair_loaded::<T>(
                    bytes,
                    header,
                    at + "scratch.out2_aux_ln"@,
                    seq![32],
                    32,
                ) {
                    Err(e) => Err(e),
                    Ok(ln) => match dyn_loaded::<T>(bytes, header, at, "out2b_aux"@, 1) {
                        Err(e) => Err(e),
                        Ok(out2b) => Ok(AuxRayData { rn, out1, out2a, ln, out2b }),
                    },
                },
            },
        },
    }
}

impl<T> AuxRayHead<T> {
    /// More channels than any layer has.
    pub open spec fn width(&self, f: int) -> int {
        2 * f + widths(self.out1@) + self.out2a.ic + self.out2a.oc + self.out2b.ic + self.out2b.oc
    }
}

/// Reads the ray branch below `at`.
fn load_aux_ray_head<T: Scalar>(f: &GgufFile, at: &str, features: usize) -> (r: Result<
    AuxRayHead<T>,
    Error,
>)
    requires
        f.wf(),
    ensures
        outcome(r) == aux_loaded::<T>(f.contents(), f@, at@, features),
        r matches Ok(a) ==> a.wf(features as int, a.width(features as int)),
{
    reveal(ray_convs_loaded);
    reveal(aux_loaded);
    let rn: Four<FusionW<T>> = match load_fusions(f, at, "_aux", features) {
        Err(e) => {
            return Err(e);
        },
        Ok(rn) => rn,
    };
    let mut out1: Vec<Conv3x3W<T>> = Vec::new();
    assert(views(out1@) =~= Seq::empty());
    let mut i: usize = 0;
    while i < 5
        invariant
            i <= 5,
            f.wf(),
            out1.len() == i,
            ray_convs_loaded::<T>(f.contents(), f@, at@, i as nat) == Ok::<
                Seq<ConvData<T>>,
                Fault,
            >(views(out1@)),
            fusions_loaded::<T>(f.contents(), f@, at@, "_aux"@, features) is Ok,
            forall|j: int|
                0 <= j < i ==> (#[trigger] out1[j]).wf(out1[j].ic + out1[j].oc),
        decreases 5 - i,
    {
        reveal(ray_convs_loaded);
        reveal(aux_loaded);
        let name: &str = if i == 0 {
            "out1_aux.0"
        } else if i == 1 {
            "out1_aux.1"
        } else if i == 2 {
            "out1_aux.2"
        } else if i == 3 {
            "out1_aux.3"
        } else {
            "out1_aux.4"
        };
        match load_dyn3x3::<T>(f, at, name) {
            Err(e) => {
                proof {
                    lemma_ray_convs_stop::<T>(f.contents(), f@, at@, (i + 1) as nat, 5);
                }
                return Err(e);
            },
            Ok(c) => {
                let ghost before = out1@;
                out1.push(c);
                assert(views(out1@) =~= views(before).push(c@));
            },
        }
        i = i + 1;
    }
    let out2a: Conv3x3W<T> = match load_dyn3x3(f, at, "out2a_aux") {
        Err(e) => {
            return Err(e);
        },
        Ok(c) => c,
    };
    let row: [usize; 1] = [32];
    proof {
        assert(row@ =~= seq![32usize]);
        lemma_sizes(row@);
    }
    let ln: Pair<T> = match load_pair(
        f,
        joined(at, "scratch.out2_aux_ln").as_str(),
        row.as_slice(),
        32,
    ) {
        Err(e) => {
            return Err(e);
        },
        Ok(p) => p,
    };
    let out2b: Conv1x1W<T> = match load_dyn1x1(f, at, "out2b_aux") {
        Err(e) => {
            return Err(e);
        },
        Ok(c) => c,
    };
    let r: AuxRayHead<T> = AuxRayHead { rn, out1, out2a, ln, out2b };
    proof {
        let c = r.width(features as int);
        lemma_widths(r.out1@, 0);
        assert forall|i: int| 0 <= i < r.out1.len() implies (#[trigger] r.out1[i]).wf(c) by {
            lemma_widths(r.out1@, i);
        }
    }
    Ok(r)
}

/// The sky branch below `at` where there is one.
#[verifier::opaque]
pub open spec fn sky_loaded<T: Scalar>(
    bytes: Seq<u8>,
    header: Header,
    at: Seq<char>,
    half: usize,
) -> Result<Option<(ConvData<T>, ConvData<T>)>, Fault> {
    match optional_pair_loaded::<T>(
        bytes,
        header,
        at + "scratch.sky_out2a"@,
        seq![32, half, 3, 3],
        32,
    ) {
        Err(e) => Err(e),
        Ok(None) => Ok(None),
        Ok(Some(a)) => match conv_loaded::<T>(
            bytes,
            header,
            at + "scratch.sky_out2b"@,
            1,
            32,
            1,
        ) {
            Err(e) => Err(e),
            Ok(b) => Ok(
                Some(
                    (
                        ConvData { weight: a.weight, bias: a.bias, ic: half as int, oc: 32 },
                        b,
                    ),
                ),
            ),
        },
    }
}

/// What a sky branch holds.
pub open spec fn sky_view<T>(s: Option<(Conv3x3W<T>, Conv1x1W<T>)>) -> Option<
    (ConvData<T>, ConvData<T>),
> {
    match s {
        Some(k) => Some((k.0@, k.1@)),
        None => None,
    }
}

fn load_sky<T: Scalar>(f: &GgufFile, at: &str, half: usize) -> (r: Result<
    Option<(Conv3x3W<T>, Conv1x1W<T>)>,
    Error,
>)
    requires
        f.wf(),
    ensures
        match r {
            Err(e) => sky_loaded::<T>(f.contents(), f@, at@, half) == Err::<
                Option<(ConvData<T>, ConvData<T>)>,
                Fault,
            >(e@),
            Ok(s) => {
                &&& sky_loaded::<T>(f.contents(), f@, at@, half) == Ok::<
                    Option<(ConvData<T>, ConvData<T>)>,
                    Fault,
                >(sky_view(s))
                &&& s matches Some(k) ==> k.0.wf(half + 32) && k.1.wf(33) && k.0.ic == half
                    && k.0.oc == 32 && k.1.ic == 32 && k.1.oc == 1
            },
        },
{
    reveal(sky_loaded);
    let shape: [usize; 4] = [32, half, 3, 3];
    proof {
        assert(shape@ =~= seq![32usize, half, 3usize, 3usize]);
        lemma_sizes(shape@);
        let (a, b) = (shape@[2] as int, shape@[3] as int);
        let n = shape@[0] * shape@[1];
        assert((n * a) * b == n * 9) by (nonlinear_arith)
            requires
                a == 3,
                b == 3,
        ;
    }
    let a: Pair<T> = match load_optional_pair(
        f,
        joined(at, "scratch.sky_out2a").as_str(),
        shape.as_slice(),
        32,
    ) {
        Err(e) => {
            return Err(e);
        },
        Ok(None) => {
            return Ok(None);
        },
        Ok(Some(p)) => p,
    };
    match load_conv1x1(f, joined(at, "scratch.sky_out2b").as_str(), 1, 32) {
        Err(e) => Err(e),
        Ok(b) => Ok(
            Some((Conv3x3W { weight: a.weight, bias: a.bias, ic: half, oc: 32 }, b)),
        ),
    }
}

/// The number of output channels that a file holds weights for.
#[verifier::opaque]
pub open spec fn outputs_stored(header: Header, at: Seq<char>) -> Result<usize, Fault> {
    let full = at + "scratch.out2b.weight"@;
    if !header.tensors.contains_key(full) || header.tensors[full].ne.len() == 0 {
        Err(Fault::Missing(full))
    } else if header.tensors[full].ne.last() > usize::MAX {
        Err(Fault::BadShape(full))
    } else {
        Ok(header.tensors[full].ne.last() as usize)
    }
}

/// The output layers of a decoder.
pub struct Outs<T> {
    pub out1: Conv3x3W<T>,
    pub out2a: Conv3x3W<T>,
    pub out2b: Conv1x1W<T>,
    pub sky: Option<(Conv3x3W<T>, Conv1x1W<T>)>,
}

/// What [`Outs`] hold.
pub struct OutsData<T> {
    pub out1: ConvData<T>,
    pub out2a: ConvData<T>,
    pub out2b: ConvData<T>,
    pub sky: Option<(ConvData<T>, ConvData<T>)>,
}

impl<T> View for Outs<T> {
    type V = OutsData<T>;

    open spec fn view(&self) -> OutsData<T> {
        OutsData {
            out1: self.out1@,
            out2a: self.out2a@,
            out2b: self.out2b@,
            sky: sky_view(self.sky),
        }
    }
}

impl<T> Outs<T> {
    /// The layers fit together.
    pub open spec fn wf(&self, features: int, half: int) -> bool {
        &&& self.out1.wf(features + half) && self.out1.ic == features && self.out1.oc == half
        &&& self.out2a.wf(half + 32) && self.out2a.ic == half && self.out2a.oc == 32
        &&& self.out2b.wf(self.out2b.oc + 32) && self.out2b.ic == 32
        &&& self.sky matches Some(k) ==> k.0.wf(half + 32) && k.1.wf(33) && k.0.ic == half
            && k.0.oc == 32 && k.1.ic == 32
    }
}

/// The output layers below `at`.
#[verifier::opaque]
pub open spec fn outs_loaded<T: Scalar>(
    bytes: Seq<u8>,
    header: Header,
    at: Seq<char>,
    features: usize,
    half: usize,
) -> Result<OutsData<T>, Fault> {
    match conv_loaded::<T>(bytes, header, at + "scratch.out1"@, half, features, 3) {
        Err(e) => Err(e),
        Ok(out1) => match conv_loaded::<T>(bytes, header, at + "scratch.out2a"@, 32, half, 3) {
            Err(e) => Err(e),
            Ok(out2a) => match outputs_stored(header, at) {
                Err(e) => Err(e),
                Ok(n) => match conv_loaded::<T>(
                    bytes,
                    header,
                    at + "scratch.out2b"@,
                    n,
                    32,
                    1,
                ) {
                    Err(e) => Err(e),
                    Ok(out2b) => match sky_loaded::<T>(bytes, header, at, half) {
                        Err(e) => Err(e),
                        Ok(sky) => Ok(OutsData { out1, out2a, out2b, sky }),
                    },
                },
            },
        },
    }
}

fn load_outs<T: Scalar>(f: &GgufFile, at: &str, features: usize, half: usize) -> (r: Result<
    Outs<T>,
    Error,
>)
    requires
        f.wf(),
    ensures
        outcome(r) == outs_loaded::<T>(f.contents(), f@, at@, features, half),
        r matches Ok(o) ==> o.wf(features as int, half as int),
{
    reveal(outs_loaded);
    let out1: Conv3x3W<T> = match load_conv3x3(
        f,
        joined(at, "scratch.out1").as_str(),
        half,
        features,
    ) {
        Err(e) => {
            return Err(e);
        },
        Ok(w) => w,
    };
    let out2a: Conv3x3W<T> = match load_conv3x3(
        f,
        joined(at, "scratch.out2a").as_str(),
        32,
        half,
    ) {
        Err(e) => {
            return Err(e);
        },
        Ok(w) => w,
    };
    let outs: usize = match load_outputs(f, at) {
        Err(e) => {
            return Err(e);
        },
        Ok(n) => n,
    };
    let out2b: Conv1x1W<T> = match load_conv1x1(
        f,
        joined(at, "scratch.out2b").as_str(),
        outs,
        32,
    ) {
        Err(e) => {
            return Err(e);
        },
        Ok(w) => w,
    };
    match load_sky(f, at, half) {
        Err(e) => Err(e),
        Ok(sky) => Ok(Outs { out1, out2a, out2b, sky }),
    }
}

/// The decoder below `at`, with `ins` channels a token.
#[verifier::opaque]
pub open spec fn head_loaded<T: Scalar>(
    bytes: Seq<u8>,
    header: Header,
    at: Seq<char>,
    ins: usize,
    oc: [usize; 4],
    features: usize,
    half: usize,
) -> Result<DptHeadData<T>, Fault> {
    match optional_pair_loaded::<T>(bytes, header, at + "norm"@, seq![ins], ins) {
        Err(e) => Err(e),
        Ok(in_norm) => match stem_loaded::<T>(bytes, header, at, ins, oc, features) {
            Err(e) => Err(e),
            Ok(stem) => match outs_loaded::<T>(bytes, header, at, features, half) {
                Err(e) => Err(e),
                Ok(outs) => if header.tensors.contains_key(
                    at + "scratch.rn1_aux.out.weight"@,
                ) {
                    match aux_loaded::<T>(bytes, header, at, features) {
                        Err(e) => Err(e),
                        Ok(aux) => Ok(DptHeadData { in_norm, stem, outs, aux: Some(aux) }),
                    }
                } else {
                    Ok(DptHeadData { in_norm, stem, outs, aux: None })
                },
            },
        },
    }
}

fn load_outputs(f: &GgufFile, at: &str) -> (r: Result<usize, Error>)
    requires
        f.wf(),
    ensures
        match r {
            Ok(n) => outputs_stored(f@, at@) == Ok::<usize, Fault>(n),
            Err(e) => outputs_stored(f@, at@) == Err::<usize, Fault>(e@),
        },
{
    reveal(outputs_stored);
    let full: String = joined(at, "scratch.out2b.weight");
    match f.tensor_info(full.as_str()) {
        None => Err(Error::Model(ModelError::Missing(full))),
        Some(info) => {
            let n: usize = info.ne.len();
            if n == 0 {
                Err(Error::Model(ModelError::Missing(full)))
            } else if info.ne[n - 1] > usize::MAX as u64 {
                Err(Error::Model(ModelError::BadShape(full)))
            } else {
                Ok(info.ne[n - 1] as usize)
            }
        },
    }
}

/// The width of a decoder's pyramid: 128 where it is not given.
pub open spec fn pyramid_width<T>(cfg: Config<T>) -> u32 {
    if cfg.head_features > 0 {
        cfg.head_features
    } else {
        128
    }
}

/// The output channels of the projections.
pub open spec fn projection_widths<T: Scalar>(cfg: Config<T>) -> [usize; 4] {
    [
        cfg.out_channels(0) as usize,
        cfg.out_channels(1) as usize,
        cfg.out_channels(2) as usize,
        cfg.out_channels(3) as usize,
    ]
}

impl<T> DptHead<T> {
    /// More channels than any layer has.
    pub open spec fn width(&self) -> int {
        let m = self.main;
        m.in_channels + m.proj[0].oc + m.proj[1].oc + m.proj[2].oc + 2 * m.proj[3].oc + 2
            * m.features + m.out1.oc + 65 + m.out2b.oc + match self.aux {
            Some(a) => a.width(m.features as int),
            None => 0,
        }
    }
}

impl<T: Analytic> DptHead<T> {
    /// Reads the decoder whose names begin with `at`.
    pub fn load(cfg: &Config<T>, f: &GgufFile, at: &str) -> (r: Result<Self, Error>)
        requires
            f.wf(),
            2 * cfg.embed_dim <= usize::MAX,
        ensures
            outcome(r) == head_loaded::<T>(
                f.contents(),
                f@,
                at@,
                crate::cam_pose::token_width(*cfg) as usize,
                projection_widths(*cfg),
                pyramid_width(*cfg) as usize,
                cfg.half_width() as usize,
            ),
            r matches Ok(h) ==> h.wf(h.width()) && h.head_pos_embed == cfg.head_pos_embed
                && h.main.in_channels == crate::cam_pose::token_width(*cfg) && h.main.features
                == pyramid_width(*cfg),
    {
        reveal(head_loaded);
        let ins: usize = if cfg.cat_token {
            2 * cfg.embed_dim as usize
        } else {
            cfg.embed_dim as usize
        };
        let features: usize = if cfg.head_features > 0 {
            cfg.head_features as usize
        } else {
            128
        };
        let half: usize = cfg.feat_half() as usize;
        let oc4: [u32; 4] = cfg.head_out_channels_arr();
        let oc: [usize; 4] = [
            oc4[0] as usize,
            oc4[1] as usize,
            oc4[2] as usize,
            oc4[3] as usize,
        ];
        assert(oc =~= projection_widths(*cfg));
        let row: [usize; 1] = [ins];
        proof {
            assert(row@ =~= seq![ins]);
            lemma_sizes(row@);
        }
        let in_norm: Option<(Vec<T>, Vec<T>)> = match load_optional_pair(
            f,
            joined(at, "norm").as_str(),
            row.as_slice(),
            ins,
        ) {
            Err(e) => {
                return Err(e);
            },
            Ok(None) => None,
            Ok(Some(p)) => Some((p.weight, p.bias)),
        };
        let stem: Stem<T> = match load_stem(f, at, ins, oc, features) {
            Err(e) => {
                return Err(e);
            },
            Ok(s) => s,
        };
        let outs: Outs<T> = match load_outs(f, at, features, half) {
            Err(e) => {
                return Err(e);
            },
            Ok(o) => o,
        };
        let aux: Option<AuxRayHead<T>> = match f.tensor_info(
            joined(at, "scratch.rn1_aux.out.weight").as_str(),
        ) {
            None => None,
            Some(_) => match load_aux_ray_head(f, at, features) {
                Err(e) => {
                    return Err(e);
                },
                Ok(a) => Some(a),
            },
        };
        Ok(assemble(in_norm, ins, oc, stem, outs, aux, features, half, cfg.head_pos_embed))
    }
}

fn assemble<T>(
    in_norm: Option<(Vec<T>, Vec<T>)>,
    ins: usize,
    oc: [usize; 4],
    stem: Stem<T>,
    outs: Outs<T>,
    aux: Option<AuxRayHead<T>>,
    features: usize,
    half: usize,
    head_pos_embed: bool,
) -> (r: DptHead<T>)
    requires
        in_norm matches Some(n) ==> n.0.len() == ins && n.1.len() == ins,
        stem.wf(ins as int, oc, features as int),
        outs.wf(features as int, half as int),
        aux matches Some(a) ==> a.wf(features as int, a.width(features as int)),
    ensures
        r@ == (DptHeadData {
            in_norm: match in_norm {
                Some(n) => Some(PairData { weight: n.0@, bias: n.1@ }),
                None => None,
            },
            stem: stem@,
            outs: outs@,
            aux: match aux {
                Some(a) => Some(a@),
                None => None,
            },
        }),
        r.wf(r.width()),
        r.head_pos_embed == head_pos_embed,
        r.main.in_channels == ins,
        r.main.features == features,
{
    let Four(p0, p1, p2, p3) = stem.proj;
    let Four(l0, l1, l2, l3) = stem.layer_rn;
    let Four(rn1, rn2, rn3, rn4) = stem.rn;
    let main: FastDptHead<T> = FastDptHead {
        in_norm,
        in_channels: ins,
        proj: [p0, p1, p2, p3],
        resize0: stem.resize0,
        resize1: stem.resize1,
        resize3: stem.resize3,
        layer_rn: [l0, l1, l2, l3],
        rn1,
        rn2,
        rn3,
        rn4,
        out1: outs.out1,
        out2a: outs.out2a,
        out2b: outs.out2b,
        sky: outs.sky,
        features,
    };
    let r: DptHead<T> = DptHead { main, aux, head_pos_embed };
    proof {
        if r.aux is Some {
            lemma_widths(r.aux->0.out1@, 0);
        }
    }
    r
}

} // verus!
