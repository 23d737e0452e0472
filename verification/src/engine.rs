//! The engine: a model's parts put together, from a preprocessed image to depth,
//! camera, Gaussians and exports.

use crate::backbone::{
    around_loaded, core_of, forward_mv_result, forward_result, law_one_view, opt_tables,
    tables_fit, Backbone,
    BackboneFeatures, BackboneFeaturesMv, FeaturesData, FeaturesMvData, FrameData, RopeTables,
};
use crate::cam_pose::{
    cam_pose_loaded, decode_pose, pose_extrinsics, pose_intrinsics, pose_of, token_width, CamPose,
    CamPoseData,
};
use crate::colmap_export::{is_model, write_colmap, Frame, Model};
use crate::config::Config;
use crate::depth_export::{activate, maps_of, DepthMaps, MapsData};
use crate::dpt_head::{
    head_loaded, plain_options, projection_widths, pyramid_width, rays_result, used, DptHead,
    DptHeadData, Rays, RaysData,
};
use crate::error::{Error, Fault, ModelError};
use crate::fast_attn::copy_slice;
use crate::fast_block::FastVitBlock;
use crate::fast_dpt::{depth_of, main_pyramid, output_embed, roomy, sky_of, UvEmbeds};
use crate::gguf::{outcome, views, GgufFile, Header};
use crate::glb_export::{default_options, is_glb, write_glb, Camera, GlbOptions};
use crate::gs_adapter::{built_of, default_adapter, Gaussians, GaussiansData, GsAdapter};
use crate::gs_head::{gs_head_loaded, gs_result, has_gs_head, GsHead, GsHeadData, RawGaussians};
use crate::index::lemma_factor;
use crate::message::message_of;
use crate::nested::{
    aligned_of, clear, mono_sky, AnyviewData, AnyviewOut, MetricData, MetricOut, NestedAligner,
    NestedData, NestedOut,
};
use crate::reconstruct::WorldPoints;
use crate::scalar::{one, zero, Analytic, Circular, Gaussian, Scalar, Stored, Widens};
use vstd::prelude::*;
use vstd::string::*;

verus! {

/// Depth with what the model says besides, row by row; what it lacks is empty.
pub struct DepthOutput<T> {
    pub depth: Vec<T>,
    pub conf: Vec<T>,
    pub sky: Vec<T>,
    pub h: usize,
    pub w: usize,
}

/// What a [`DepthOutput`] holds.
pub struct DepthData<T> {
    pub maps: MapsData<T>,
    pub h: int,
    pub w: int,
}

impl<T> View for DepthOutput<T> {
    type V = DepthData<T>;

    open spec fn view(&self) -> DepthData<T> {
        DepthData {
            maps: MapsData { depth: self.depth@, conf: self.conf@, sky: self.sky@ },
            h: self.h as int,
            w: self.w as int,
        }
    }
}

/// A camera.
pub struct PoseOutput<T> {
    /// Translation, quaternion and field of view.
    pub pose_enc: Vec<T>,
    /// World to camera, 3x4.
    pub ext: [T; 12],
    /// 3x3.
    pub intr: [T; 9],
}

/// What a [`PoseOutput`] holds.
pub struct PoseData<T> {
    pub pose_enc: Seq<T>,
    pub ext: Seq<T>,
    pub intr: Seq<T>,
}

impl<T> View for PoseOutput<T> {
    type V = PoseData<T>;

    open spec fn view(&self) -> PoseData<T> {
        PoseData { pose_enc: self.pose_enc@, ext: self.ext@, intr: self.intr@ }
    }
}

/// Depth and camera of one of several views.
pub struct ViewResult<T> {
    pub depth: Vec<T>,
    pub conf: Vec<T>,
    pub ext: [T; 12],
    pub intr: [T; 9],
}

/// What a [`ViewResult`] holds.
pub struct ViewData<T> {
    pub depth: Seq<T>,
    pub conf: Seq<T>,
    pub ext: Seq<T>,
    pub intr: Seq<T>,
}

impl<T> View for ViewResult<T> {
    type V = ViewData<T>;

    open spec fn view(&self) -> ViewData<T> {
        ViewData { depth: self.depth@, conf: self.conf@, ext: self.ext@, intr: self.intr@ }
    }
}

/// Depth and camera of several views, in the order of the input.
pub struct MultiViewOutput<T> {
    pub views: Vec<ViewResult<T>>,
    pub h: usize,
    pub w: usize,
    /// The view that the others were seen against.
    pub ref_view: usize,
}

/// What a [`MultiViewOutput`] holds.
pub struct MultiViewData<T> {
    pub views: Seq<ViewData<T>>,
    pub h: int,
    pub w: int,
    pub ref_view: int,
}

impl<T> View for MultiViewOutput<T> {
    type V = MultiViewData<T>;

    open spec fn view(&self) -> MultiViewData<T> {
        MultiViewData {
            views: views(self.views@),
            h: self.h as int,
            w: self.w as int,
            ref_view: self.ref_view as int,
        }
    }
}

/// Gaussians in the world, one for each pixel.
pub struct ReconstructOutput<T> {
    pub gaussians: Gaussians<T>,
    pub h: usize,
    pub w: usize,
}

/// What a [`ReconstructOutput`] holds.
pub struct ReconstructData<T> {
    pub gaussians: GaussiansData<T>,
    pub h: int,
    pub w: int,
}

impl<T> View for ReconstructOutput<T> {
    type V = ReconstructData<T>;

    open spec fn view(&self) -> ReconstructData<T> {
        ReconstructData { gaussians: self.gaussians@, h: self.h as int, w: self.w as int }
    }
}

/// A camera solved from rays.
#[derive(Debug)]
pub struct RayPoseOutput<T, D> {
    /// Camera to world, 3x4.
    pub ext: [T; 12],
    /// 3x3.
    pub intr: [T; 9],
    pub diag: RayPoseDiag<D>,
}

/// How the camera was solved.
#[derive(Debug)]
pub struct RayPoseDiag<D> {
    /// The inliers of the best hypothesis.
    pub n_inlier_best: usize,
    pub focal: [D; 2],
    pub pp: [D; 2],
}

/// Milliseconds of the stages of a pass.
#[derive(Debug)]
pub struct Timings<D> {
    pub load_ms: D,
    pub preprocess_ms: D,
    pub backbone_ms: D,
    pub head_ms: D,
    pub pose_ms: D,
    pub activate_ms: D,
    pub total_ms: D,
}

/// No time at all.
pub open spec fn no_time<D: Scalar>() -> Timings<D> {
    Timings {
        load_ms: zero(),
        preprocess_ms: zero(),
        backbone_ms: zero(),
        head_ms: zero(),
        pose_ms: zero(),
        activate_ms: zero(),
        total_ms: zero(),
    }
}

impl<D: Scalar> Default for Timings<D> {
    fn default() -> (r: Self)
        ensures
            r == no_time::<D>(),
    {
        let nil: D = D::ratio(0, 1);
        Timings {
            load_ms: nil,
            preprocess_ms: nil,
            backbone_ms: nil,
            head_ms: nil,
            pose_ms: nil,
            activate_ms: nil,
            total_ms: nil,
        }
    }
}

/// Timings with their stages added up.
pub open spec fn totalled<D: Scalar>(t: Timings<D>) -> Timings<D> {
    Timings {
        total_ms: t.preprocess_ms.plus_spec(t.backbone_ms).plus_spec(t.head_ms).plus_spec(
            t.pose_ms,
        ).plus_spec(t.activate_ms),
        ..t
    }
}

impl<D: Scalar> Timings<D> {
    /// The stages that run once for `s` views, shared out among them.
    pub fn per_view(self, s: usize) -> (r: Self)
        ensures
            ({
                let n = D::from_count_spec(s);
                r == Timings {
                    backbone_ms: self.backbone_ms.over_spec(n),
                    head_ms: self.head_ms.over_spec(n),
                    activate_ms: self.activate_ms.over_spec(n),
                    ..self
                }
            }),
    {
        let n: D = D::from_count(s);
        Timings {
            load_ms: self.load_ms,
            preprocess_ms: self.preprocess_ms,
            backbone_ms: self.backbone_ms.over(n),
            head_ms: self.head_ms.over(n),
            pose_ms: self.pose_ms,
            activate_ms: self.activate_ms.over(n),
            total_ms: self.total_ms,
        }
    }
}

/// The timings of the last pass, where they are wanted.
pub struct Clock<D> {
    pub enabled: bool,
    pub last: Timings<D>,
}

/// A clock after a pass.
pub open spec fn recorded<D: Scalar>(c: Clock<D>, t: Timings<D>) -> Clock<D> {
    Clock {
        enabled: c.enabled,
        last: if c.enabled {
            totalled(t)
        } else {
            c.last
        },
    }
}

impl<D: Scalar> Clock<D> {
    pub fn new(enabled: bool) -> (r: Self)
        ensures
            r.enabled == enabled,
            r.last == no_time::<D>(),
    {
        Clock { enabled, last: Timings::default() }
    }

    /// Keeps the timings of a pass with their total.
    pub fn record(&mut self, t: Timings<D>)
        ensures
            *final(self) == recorded(*old(self), t),
    {
        if self.enabled {
            self.last = Timings {
                load_ms: t.load_ms,
                preprocess_ms: t.preprocess_ms,
                backbone_ms: t.backbone_ms,
                head_ms: t.head_ms,
                pose_ms: t.pose_ms,
                activate_ms: t.activate_ms,
                total_ms: t.preprocess_ms.plus(t.backbone_ms).plus(t.head_ms).plus(
                    t.pose_ms,
                ).plus(t.activate_ms),
            };
        }
    }

    /// The timings of the last pass; zero before the first one.
    pub fn last_timings(&self) -> (r: Timings<D>)
        ensures
            r == self.last,
    {
        let t: &Timings<D> = &self.last;
        Timings {
            load_ms: t.load_ms,
            preprocess_ms: t.preprocess_ms,
            backbone_ms: t.backbone_ms,
            head_ms: t.head_ms,
            pose_ms: t.pose_ms,
            activate_ms: t.activate_ms,
            total_ms: t.total_ms,
        }
    }
}

/// Without timing, what is recorded stays zero.
pub proof fn law_no_timing<D: Scalar>(c: Clock<D>, t: Timings<D>)
    requires
        !c.enabled,
        c.last == no_time::<D>(),
    ensures
        recorded(c, t) == c,
        recorded(c, t).last == no_time::<D>(),
{
}

// ---- inputs -------------------------------------------------------------------

/// An image made ready: three planes of `h` by `w` normalised numbers, the bytes
/// that are shown, and the size of the image as it was.
pub struct Preprocessed<T> {
    pub chw: Vec<T>,
    pub h: usize,
    pub w: usize,
    pub rgb_u8: Vec<u8>,
    pub orig_h: usize,
    pub orig_w: usize,
}

/// What depends on sizes alone: rotary tables and positional embeddings.
pub struct Aids<T> {
    pub rope: Option<RopeTables<T>>,
    /// For the depth decoder.
    pub uv: Option<UvEmbeds<T>>,
    /// For the last map of the ray branch.
    pub ray_uv: Option<Vec<T>>,
    /// For the Gaussian decoder.
    pub gs_uv: Option<UvEmbeds<T>>,
}

/// A reference where there is something.
pub open spec fn uv_of<T>(uv: &Option<UvEmbeds<T>>) -> Option<&UvEmbeds<T>> {
    match uv {
        Some(u) => Some(u),
        None => None,
    }
}

fn uv_ref<T>(uv: &Option<UvEmbeds<T>>) -> (r: Option<&UvEmbeds<T>>)
    ensures
        r == uv_of(uv),
{
    match uv {
        Some(u) => Some(u),
        None => None,
    }
}

fn rope_ref<T>(rope: &Option<RopeTables<T>>) -> (r: Option<&RopeTables<T>>)
    ensures
        opt_tables(r) == *rope,
        r is Some == *rope is Some,
{
    match rope {
        Some(t) => Some(t),
        None => None,
    }
}

// ---- one branch ---------------------------------------------------------------

/// A backbone and a decoder.
pub struct Branch<T> {
    pub backbone: Backbone<T>,
    pub head: DptHead<T>,
}

/// The stages of a request that are timed.
#[derive(Clone, Copy, Debug, PartialEq, Eq, Structural)]
pub enum Stage {
    Backbone,
    Head,
    Pose,
    Activate,
}

/// Someone who is told when a part of a stage has ended.
pub trait Watch {
    fn ended(&mut self, stage: Stage);
}

/// Nobody.
pub struct Unwatched;

impl Watch for Unwatched {
    fn ended(&mut self, stage: Stage) {
    }
}

impl<T: Analytic> Branch<T> {
    /// The rows of patches of an image of `h` rows.
    pub open spec fn rows(&self, h: int) -> int {
        h / self.backbone.cfg.patch_size as int
    }

    /// The parts fit together.
    pub open spec fn wf(&self) -> bool {
        &&& self.backbone.wf()
        &&& self.head.main.in_channels == token_width(self.backbone.cfg)
        &&& self.backbone.cfg.out_layers.len() >= 4
        &&& self.head.main.out2b.oc >= 1
        &&& self.head.main.sky matches Some(k) ==> k.1.oc >= 1
    }

    /// `s` images of `h` by `w` pixels can be run.
    pub open spec fn takes(&self, h: int, w: int, s: int, aids: Aids<T>) -> bool {
        let patch = self.backbone.cfg.patch_size as int;
        let (gh, gw) = (self.rows(h), self.rows(w));
        &&& h % patch == 0
        &&& w % patch == 0
        &&& 0 < gh <= 0x0fff_ffff
        &&& 0 < gw <= 0x0fff_ffff
        &&& h <= 0x7fff_ffff
        &&& w <= 0x7fff_ffff
        &&& self.backbone.fits(s * (1 + gh * gw))
        &&& self.backbone.cfg.rope_start >= 0 ==> aids.rope is Some
        &&& aids.rope matches Some(t) ==> tables_fit(
            t,
            1 + gh * gw,
            s * (1 + gh * gw),
            self.backbone.cfg.head_dim as int,
        )
        &&& exists|c: int, hw: int| #[trigger]
            roomy(c, hw) && self.head.wf(c) && (8 * gh) * (8 * gw) <= hw && h * w <= hw && 7 <= c
        &&& self.head.head_pos_embed ==> aids.uv is Some
        &&& aids.uv matches Some(u) ==> u.wf(self.head.main, gh, gw, h, w)
    }

    /// The maps of the decoder on given features.
    pub open spec fn maps(
        &self,
        feats: Seq<Seq<T>>,
        h: int,
        w: int,
        uv: Option<UvEmbeds<T>>,
        with_sky: bool,
    ) -> MapsData<T> {
        let o = plain_options();
        let pe = used(self.head, uv_of(&uv));
        let pyramid = main_pyramid(
            o,
            self.head.main,
            feats,
            self.rows(h),
            self.rows(w),
            pe,
        );
        let sky = if with_sky {
            sky_of(o, self.head.main, pyramid, h, w, output_embed(pe))
        } else {
            None
        };
        maps_of(
            depth_of(o, self.head.main, pyramid, h, w, output_embed(pe)).data,
            sky,
            h * w,
            self.head.main.out2b.oc as int,
            self.backbone.cfg.head_max_depth,
        )
    }

    /// The features of one image.
    pub open spec fn features(
        &self,
        chw: Seq<T>,
        h: int,
        w: int,
        aids: Aids<T>,
        flash: bool,
    ) -> Result<FeaturesData<T>, Fault> {
        forward_result(
            self.backbone,
            aids.rope,
            chw,
            self.rows(h),
            self.rows(w),
            core_of(flash),
        )
    }

    fn run_head<W: Watch>(
        &self,
        feats: &[Vec<T>],
        h: usize,
        w: usize,
        s: Ghost<int>,
        aids: &Aids<T>,
        with_sky: bool,
        watch: &mut W,
    ) -> (m: DepthMaps<T>)
        requires
            self.wf(),
            self.takes(h as int, w as int, s@, *aids),
            feats.len() >= 4,
            forall|o: int|
                0 <= o < feats.len() ==> (#[trigger] feats[o]).len() == (self.rows(h as int)
                    * self.rows(w as int)) * token_width(self.backbone.cfg),
        ensures
            m@ == self.maps(views(feats@), h as int, w as int, aids.uv, with_sky),
            m.depth.len() == h * w,
            m.conf.len() == (if self.head.main.out2b.oc >= 2 {
                h * w
            } else {
                0
            }),
    {
        let patch: usize = self.backbone.cfg.patch_size as usize;
        let (gh, gw): (usize, usize) = (h / patch, w / patch);
        let ghost bound: (int, int) = choose|c: int, hw: int| #[trigger]
            roomy(c, hw) && self.head.wf(c) && (8 * gh) * (8 * gw) <= hw && h * w <= hw && 7 <= c;
        proof {
            assert(roomy(bound.0, bound.1));
            crate::fast_dpt::lemma_room(
                bound.0,
                bound.1,
                self.head.main.out2b.ic as int,
                self.head.main.out2b.oc as int,
                h as int,
                w as int,
            );
        }
        let (logits, sky): (Vec<T>, Option<Vec<T>>) = self.head.forward(
            feats,
            gh,
            gw,
            h,
            w,
            uv_ref(&aids.uv),
        );
        watch.ended(Stage::Head);
        let hw: usize = h * w;
        let dim: usize = self.head.output_dim();
        proof {
            lemma_factor(hw as int, dim as int);
            assert(dim >= 2 ==> 2 * hw <= dim * hw) by (nonlinear_arith)
                requires
                    0 <= hw,
            ;
        }
        let seen: Option<&[T]> = if with_sky {
            match &sky {
                Some(s) => {
                    proof {
                        let k = self.head.main.sky->0;
                        let n = k.1.oc as int;
                        assert(s@.len() == n * hw);
                        lemma_factor(hw as int, n);
                    }
                    Some(s.as_slice())
                },
                None => None,
            }
        } else {
            None
        };
        let m: DepthMaps<T> = activate(
            logits.as_slice(),
            seen,
            hw,
            dim,
            self.backbone.cfg.head_max_depth,
        );
        watch.ended(Stage::Activate);
        m
    }

    fn run_backbone<W: Watch>(
        &self,
        chw: &[T],
        h: usize,
        w: usize,
        aids: &Aids<T>,
        flash: bool,
        watch: &mut W,
    ) -> (r: Result<BackboneFeatures<T>, Error>)
        requires
            self.wf(),
            self.takes(h as int, w as int, 1, *aids),
            chw.len() == (3 * h) * w,
        ensures
            outcome(r) == self.features(chw@, h as int, w as int, *aids, flash),
            r matches Ok(f) ==> {
                &&& f.feats.len() >= 4
                &&& forall|o: int|
                    0 <= o < f.feats.len() ==> (#[trigger] f.feats[o]).len() == (self.rows(
                        h as int,
                    ) * self.rows(w as int)) * token_width(self.backbone.cfg)
                &&& f.cam_token.len() == token_width(self.backbone.cfg)
            },
    {
        let patch: usize = self.backbone.cfg.patch_size as usize;
        let (gh, gw): (usize, usize) = (h / patch, w / patch);
        proof {
            lemma_whole(h as int, patch as int);
            lemma_whole(w as int, patch as int);
            assert(1 * (1 + gh * gw) == 1 + gh * gw);
        }
        let r: Result<BackboneFeatures<T>, Error> = self.backbone.forward(
            chw,
            gh,
            gw,
            rope_ref(&aids.rope),
            flash,
        );
        watch.ended(Stage::Backbone);
        r
    }
}

proof fn lemma_whole(h: int, patch: int)
    requires
        h % patch == 0,
        1 <= patch,
        0 <= h,
    ensures
        h / patch * patch == h,
{
    crate::index::lemma_join(h, patch);
}

// ---- the engine -----------------------------------------------------------------

/// A model: the main branch, the parts that some models have, and the metric
/// branch of a nested model.
pub struct Engine<T> {
    pub main: Branch<T>,
    pub pose: Option<CamPose<T>>,
    pub gs_head: Option<GsHead<T>>,
    pub metric: Option<Branch<T>>,
    /// Whether attention is computed tile by tile.
    pub flash: bool,
}

/// The camera of a token.
pub open spec fn camera_data<T: Circular>(p: CamPose<T>, token: Seq<T>, h: int, w: int) -> PoseData<
    T,
> {
    let enc = pose_of(p@, token);
    PoseData { pose_enc: enc, ext: pose_extrinsics(enc), intr: pose_intrinsics(enc, w, h) }
}

fn run_pose<T: Circular>(p: &CamPose<T>, token: &[T], h: usize, w: usize) -> (r: Result<
    PoseOutput<T>,
    Error,
>)
    requires
        p.wf(token.len() as int),
    ensures
        outcome(r) == Ok::<PoseData<T>, Fault>(camera_data(*p, token@, h as int, w as int)),
{
    let enc: Vec<T> = p.forward_enc(token);
    match decode_pose(enc.as_slice(), w, h) {
        Err(e) => Err(e),
        Ok(m) => Ok(PoseOutput { pose_enc: enc, ext: m.0, intr: m.1 }),
    }
}

/// The first view from `i` on whose size is not `(h, w)`.
pub open spec fn size_mismatch<T>(pres: Seq<Preprocessed<T>>, h: usize, w: usize, i: int) -> Option<
    int,
>
    decreases pres.len() - i,
{
    if i >= pres.len() {
        None
    } else if pres[i].h != h || pres[i].w != w {
        Some(i)
    } else {
        size_mismatch(pres, h, w, i + 1)
    }
}

fn find_mismatch<T>(pres: &[Preprocessed<T>], h: usize, w: usize) -> (r: Option<usize>)
    requires
        1 <= pres.len(),
        pres[0].h == h,
        pres[0].w == w,
    ensures
        match r {
            Some(i) => i < pres.len() && size_mismatch(pres@, h, w, 1) == Some(i as int),
            None => {
                &&& size_mismatch(pres@, h, w, 1) is None
                &&& forall|i: int|
                    0 <= i < pres.len() ==> (#[trigger] pres[i]).h == h && pres[i].w == w
            },
        },
{
    let mut i: usize = 1;
    while i < pres.len()
        invariant
            1 <= i <= pres.len(),
            size_mismatch(pres@, h, w, 1) == size_mismatch(pres@, h, w, i as int),
            forall|j: int| 0 <= j < i ==> (#[trigger] pres[j]).h == h && pres[j].w == w,
        decreases pres.len() - i,
    {
        if pres[i].h != h || pres[i].w != w {
            return Some(i);
        }
        i = i + 1;
    }
    None
}

/// What a request without a part of the model is answered.
pub open spec fn lacking(what: &str) -> Fault {
    Fault::Unimplemented(what@)
}

fn refuse(what: &str) -> (e: Error)
    ensures
        e@ == lacking(what),
{
    Error::Unimplemented(what.to_owned())
}

impl<T: Circular + Gaussian> Engine<T> {
    /// The parts fit together.
    pub open spec fn wf(&self) -> bool {
        &&& self.main.wf()
        &&& self.pose matches Some(p) ==> p.wf(token_width(self.main.backbone.cfg))
        &&& self.metric matches Some(m) ==> m.wf()
        &&& self.gs_head matches Some(g) ==> g.main.in_channels == token_width(
            self.main.backbone.cfg,
        )
    }

    /// An image that the engine can run.
    pub open spec fn takes(&self, pre: Preprocessed<T>, aids: Aids<T>) -> bool {
        &&& self.main.takes(pre.h as int, pre.w as int, 1, aids)
        &&& pre.chw.len() == (3 * pre.h) * pre.w
    }

    /// Whether there is a metric branch.
    pub fn is_nested(&self) -> (r: bool)
        ensures
            r == self.metric is Some,
    {
        self.metric.is_some()
    }

    pub fn metric_config(&self) -> (r: Option<&Config<T>>)
        ensures
            match r {
                Some(c) => self.metric is Some && *c == self.metric->0.backbone.cfg,
                None => self.metric is None,
            },
    {
        match &self.metric {
            Some(m) => Some(&m.backbone.cfg),
            None => None,
        }
    }

    pub fn config(&self) -> (r: &Config<T>)
        ensures
            *r == self.main.backbone.cfg,
    {
        &self.main.backbone.cfg
    }

    pub fn has_pose_head(&self) -> (r: bool)
        ensures
            r == self.pose is Some,
    {
        self.pose.is_some()
    }

    /// Whether the model gives rays.
    pub fn has_aux_head(&self) -> (r: bool)
        ensures
            r == self.main.head.aux is Some,
    {
        self.main.head.has_aux()
    }

    /// Whether the model gives Gaussians.
    pub fn has_gs_head(&self) -> (r: bool)
        ensures
            r == self.gs_head is Some,
    {
        self.gs_head.is_some()
    }

    /// Whether `n` images can be asked for: what `depth_pose_multi_image` refuses
    /// before it looks at them.
    pub fn ready_for_views(&self, n: usize) -> (r: Result<(), Error>)
        ensures
            match r {
                Err(e) => n == 0 && e@ == Fault::NoImages || n > 0 && self.pose is None && e@
                    == lacking(
                    "depth_pose_multi: this model has no camera-pose head (cam.*); use depth_image per view instead",
                ),
                Ok(_) => n > 0 && self.pose is Some,
            },
    {
        if n == 0 {
            Err(Error::Model(ModelError::NoImages))
        } else if self.pose.is_none() {
            Err(
                refuse(
                    "depth_pose_multi: this model has no camera-pose head (cam.*); use depth_image per view instead",
                ),
            )
        } else {
            Ok(())
        }
    }

    /// Whether metric depth can be asked for: what `depth_metric_image` refuses
    /// before it looks at the image.
    pub fn ready_for_metric(&self) -> (r: Result<(), Error>)
        ensures
            match r {
                Err(e) => self.metric is None && e@ == lacking(
                    "nested metric: engine not loaded via load_nested; no metric branch",
                ),
                Ok(_) => self.metric is Some,
            },
    {
        if self.metric.is_none() {
            Err(refuse("nested metric: engine not loaded via load_nested; no metric branch"))
        } else {
            Ok(())
        }
    }

    /// Whether Gaussians can be asked for: what `reconstruct_image` refuses before
    /// it looks at the image.
    pub fn ready_for_gaussians(&self) -> (r: Result<(), Error>)
        ensures
            match r {
                Err(e) => self.gs_head is None && e@ == lacking(
                    "reconstruct: this model has no GSDPT head (gs.*); load a DA3-Giant GGUF",
                ) || self.gs_head is Some && self.pose is None && e@ == lacking(
                    "reconstruct: this model has no camera-pose head (cam.*); required for world-space Gaussians",
                ),
                Ok(_) => self.gs_head is Some && self.pose is Some,
            },
    {
        if self.gs_head.is_none() {
            Err(refuse("reconstruct: this model has no GSDPT head (gs.*); load a DA3-Giant GGUF"))
        } else if self.pose.is_none() {
            Err(
                refuse(
                    "reconstruct: this model has no camera-pose head (cam.*); required for world-space Gaussians",
                ),
            )
        } else {
            Ok(())
        }
    }

    /// Whether rays can be asked for: what `depth_rays_image` refuses before it
    /// looks at the image.
    pub fn ready_for_rays(&self) -> (r: Result<(), Error>)
        ensures
            match r {
                Err(e) => self.main.head.aux is None && e@ == lacking(
                    "ray-pose: this GGUF has no aux ray head (rebuild with --with-aux)",
                ),
                Ok(_) => self.main.head.aux is Some,
            },
    {
        if self.main.head.has_aux() {
            Ok(())
        } else {
            Err(refuse("ray-pose: this GGUF has no aux ray head (rebuild with --with-aux)"))
        }
    }

    /// Depth of an image.
    pub open spec fn depth_result(&self, pre: Preprocessed<T>, aids: Aids<T>) -> Result<
        DepthData<T>,
        Fault,
    > {
        let (h, w) = (pre.h as int, pre.w as int);
        match self.main.features(pre.chw@, h, w, aids, self.flash) {
            Err(e) => Err(e),
            Ok(f) => Ok(
                DepthData { maps: self.main.maps(f.feats, h, w, aids.uv, true), h, w },
            ),
        }
    }

    /// Depth of an image.
    ///
    /// Refused where the backbone refuses it.
    pub fn depth_image(&self, pre: &Preprocessed<T>, aids: &Aids<T>) -> (r: Result<
        DepthOutput<T>,
        Error,
    >)
        requires
            self.wf(),
            self.takes(*pre, *aids),
        ensures
            outcome(r) == self.depth_result(*pre, *aids),
    {
        self.depth_image_watched(pre, aids, &mut Unwatched)
    }

    /// As [`Engine::depth_image`], with each stage told to `watch` as it ends.
    pub fn depth_image_watched<W: Watch>(
        &self,
        pre: &Preprocessed<T>,
        aids: &Aids<T>,
        watch: &mut W,
    ) -> (r: Result<DepthOutput<T>, Error>)
        requires
            self.wf(),
            self.takes(*pre, *aids),
        ensures
            outcome(r) == self.depth_result(*pre, *aids),
    {
        let f: BackboneFeatures<T> = match self.main.run_backbone(
            pre.chw.as_slice(),
            pre.h,
            pre.w,
            aids,
            self.flash,
            watch,
        ) {
            Err(e) => {
                return Err(e);
            },
            Ok(f) => f,
        };
        let m: DepthMaps<T> = self.main.run_head(
            f.feats.as_slice(),
            pre.h,
            pre.w,
            Ghost(1),
            aids,
            true,
            watch,
        );
        Ok(DepthOutput { depth: m.depth, conf: m.conf, sky: m.sky, h: pre.h, w: pre.w })
    }

    /// Depth and camera of an image; `lack` answers where the model has no camera
    /// head.
    pub open spec fn depth_pose_result(
        &self,
        pre: Preprocessed<T>,
        aids: Aids<T>,
        lack: Fault,
    ) -> Result<(DepthData<T>, PoseData<T>), Fault> {
        let (h, w) = (pre.h as int, pre.w as int);
        match self.main.features(pre.chw@, h, w, aids, self.flash) {
            Err(e) => Err(e),
            Ok(f) => match self.pose {
                None => Err(lack),
                Some(p) => Ok(
                    (
                        DepthData { maps: self.main.maps(f.feats, h, w, aids.uv, true), h, w },
                        camera_data(p, f.cam_token, h, w),
                    ),
                ),
            },
        }
    }

    fn depth_pose_or<W: Watch>(
        &self,
        pre: &Preprocessed<T>,
        aids: &Aids<T>,
        lack: &str,
        watch: &mut W,
    ) -> (r: Result<(DepthOutput<T>, PoseOutput<T>), Error>)
        requires
            self.wf(),
            self.takes(*pre, *aids),
        ensures
            match r {
                Err(e) => self.depth_pose_result(*pre, *aids, lacking(lack)) == Err::<
                    (DepthData<T>, PoseData<T>),
                    Fault,
                >(e@),
                Ok(o) => self.depth_pose_result(*pre, *aids, lacking(lack)) == Ok::<
                    (DepthData<T>, PoseData<T>),
                    Fault,
                >((o.0@, o.1@)),
            },
    {
        let f: BackboneFeatures<T> = match self.main.run_backbone(
            pre.chw.as_slice(),
            pre.h,
            pre.w,
            aids,
            self.flash,
            watch,
        ) {
            Err(e) => {
                return Err(e);
            },
            Ok(f) => f,
        };
        let m: DepthMaps<T> = self.main.run_head(
            f.feats.as_slice(),
            pre.h,
            pre.w,
            Ghost(1),
            aids,
            true,
            watch,
        );
        let p: &CamPose<T> = match &self.pose {
            None => {
                return Err(refuse(lack));
            },
            Some(p) => p,
        };
        let pose: PoseOutput<T> = match run_pose(p, f.cam_token.as_slice(), pre.h, pre.w) {
            Err(e) => {
                return Err(e);
            },
            Ok(o) => o,
        };
        watch.ended(Stage::Pose);
        Ok((DepthOutput { depth: m.depth, conf: m.conf, sky: m.sky, h: pre.h, w: pre.w }, pose))
    }

    /// Depth and camera of an image.
    ///
    /// Refused where the backbone refuses it, and for a model without a camera
    /// head.
    pub fn depth_pose_image(&self, pre: &Preprocessed<T>, aids: &Aids<T>) -> (r: Result<
        (DepthOutput<T>, PoseOutput<T>),
        Error,
    >)
        requires
            self.wf(),
            self.takes(*pre, *aids),
        ensures
            ({
                let want = self.depth_pose_result(
                    *pre,
                    *aids,
                    lacking(
                        "this model has no camera-pose head (cam.*); use depth_path instead",
                    ),
                );
                match r {
                    Err(e) => want == Err::<(DepthData<T>, PoseData<T>), Fault>(e@),
                    Ok(o) => want == Ok::<(DepthData<T>, PoseData<T>), Fault>((o.0@, o.1@)),
                }
            }),
    {
        self.depth_pose_image_watched(pre, aids, &mut Unwatched)
    }

    /// As [`Engine::depth_pose_image`], with each stage told to `watch` as it ends.
    pub fn depth_pose_image_watched<W: Watch>(
        &self,
        pre: &Preprocessed<T>,
        aids: &Aids<T>,
        watch: &mut W,
    ) -> (r: Result<(DepthOutput<T>, PoseOutput<T>), Error>)
        requires
            self.wf(),
            self.takes(*pre, *aids),
        ensures
            ({
                let want = self.depth_pose_result(
                    *pre,
                    *aids,
                    lacking(
                        "this model has no camera-pose head (cam.*); use depth_path instead",
                    ),
                );
                match r {
                    Err(e) => want == Err::<(DepthData<T>, PoseData<T>), Fault>(e@),
                    Ok(o) => want == Ok::<(DepthData<T>, PoseData<T>), Fault>((o.0@, o.1@)),
                }
            }),
    {
        self.depth_pose_or(
            pre,
            aids,
            "this model has no camera-pose head (cam.*); use depth_path instead",
            watch,
        )
    }

    // ---- several views ----------------------------------------------------------

    /// View `v` of several.
    pub open spec fn view_data(
        &self,
        f: FeaturesMvData<T>,
        p: CamPose<T>,
        h: int,
        w: int,
        uv: Option<UvEmbeds<T>>,
        v: int,
    ) -> ViewData<T> {
        let maps = self.main.maps(
            Seq::new(f.feats.len(), |o: int| f.feats[o][v]),
            h,
            w,
            uv,
            true,
        );
        let pose = camera_data(p, f.cam_tokens.last()[v], h, w);
        ViewData { depth: maps.depth, conf: maps.conf, ext: pose.ext, intr: pose.intr }
    }

    /// Depth and cameras of several images.
    pub open spec fn multi_result<D: Widens<T> + Analytic>(
        &self,
        pres: Seq<Preprocessed<T>>,
        aids: Aids<T>,
    ) -> Result<MultiViewData<T>, Fault> {
        if pres.len() == 0 {
            Err(Fault::NoImages)
        } else {
            let (h, w) = (pres[0].h as int, pres[0].w as int);
            match self.pose {
                None => Err(
                    lacking(
                        "depth_pose_multi: this model has no camera-pose head (cam.*); use depth_image per view instead",
                    ),
                ),
                Some(p) => match size_mismatch(pres, pres[0].h, pres[0].w, 1) {
                    Some(i) => Err(
                        Fault::ViewSizeMismatch {
                            index: i as nat,
                            height: pres[i].h as nat,
                            width: pres[i].w as nat,
                            first_height: pres[0].h as nat,
                            first_width: pres[0].w as nat,
                        },
                    ),
                    None => match forward_mv_result::<T, D>(
                        self.main.backbone,
                        aids.rope,
                        Seq::new(pres.len(), |i: int| pres[i].chw@),
                        self.main.rows(h),
                        self.main.rows(w),
                        core_of(self.flash),
                    ) {
                        Err(e) => Err(e),
                        Ok(f) => Ok(
                            MultiViewData {
                                views: Seq::new(
                                    pres.len(),
                                    |v: int| self.view_data(f, p, h, w, aids.uv, v),
                                ),
                                h,
                                w,
                                ref_view: f.ref_view,
                            },
                        ),
                    },
                },
            }
        }
    }

    /// Depth and cameras of several images of one size, run together.
    ///
    /// Refused without images, for a model without a camera head, where the images
    /// differ in size, and where the backbone refuses them.
    pub fn depth_pose_multi_image<D: Widens<T> + Analytic>(
        &self,
        pres: &[Preprocessed<T>],
        aids: &Aids<T>,
    ) -> (r: Result<MultiViewOutput<T>, Error>)
        requires
            self.wf(),
            pres.len() > 0 ==> self.main.takes(
                pres[0].h as int,
                pres[0].w as int,
                pres.len() as int,
                *aids,
            ),
            forall|i: int|
                0 <= i < pres.len() ==> (#[trigger] pres[i]).chw.len() == (3 * pres[i].h)
                    * pres[i].w,
        ensures
            outcome(r) == self.multi_result::<D>(pres@, *aids),
    {
        self.depth_pose_multi_image_watched::<D, Unwatched>(pres, aids, &mut Unwatched)
    }

    /// As [`Engine::depth_pose_multi_image`], with each stage told to `watch` as it
    /// ends; cameras count as a part of the head.
    pub fn depth_pose_multi_image_watched<D: Widens<T> + Analytic, W: Watch>(
        &self,
        pres: &[Preprocessed<T>],
        aids: &Aids<T>,
        watch: &mut W,
    ) -> (r: Result<MultiViewOutput<T>, Error>)
        requires
            self.wf(),
            pres.len() > 0 ==> self.main.takes(
                pres[0].h as int,
                pres[0].w as int,
                pres.len() as int,
                *aids,
            ),
            forall|i: int|
                0 <= i < pres.len() ==> (#[trigger] pres[i]).chw.len() == (3 * pres[i].h)
                    * pres[i].w,
        ensures
            outcome(r) == self.multi_result::<D>(pres@, *aids),
    {
        if pres.len() == 0 {
            return Err(Error::Model(ModelError::NoImages));
        }
        let p: &CamPose<T> = match &self.pose {
            None => {
                return Err(
                    refuse(
                        "depth_pose_multi: this model has no camera-pose head (cam.*); use depth_image per view instead",
                    ),
                );
            },
            Some(p) => p,
        };
        let (h, w): (usize, usize) = (pres[0].h, pres[0].w);
        if let Some(i) = find_mismatch(pres, h, w) {
            return Err(
                Error::Model(
                    ModelError::ViewSizeMismatch {
                        index: i,
                        height: pres[i].h,
                        width: pres[i].w,
                        first_height: h,
                        first_width: w,
                    },
                ),
            );
        }
        let patch: usize = self.main.backbone.cfg.patch_size as usize;
        let (gh, gw): (usize, usize) = (h / patch, w / patch);
        proof {
            lemma_whole(h as int, patch as int);
            lemma_whole(w as int, patch as int);
        }
        let mut images: Vec<Vec<T>> = Vec::new();
        let mut i: usize = 0;
        while i < pres.len()
            invariant
                i <= pres.len(),
                images.len() == i,
                forall|j: int| 0 <= j < i ==> (#[trigger] images[j])@ == pres[j].chw@,
            decreases pres.len() - i,
        {
            images.push(copy_slice(pres[i].chw.as_slice()));
            i = i + 1;
        }
        proof {
            assert(views(images@) =~= Seq::new(pres@.len(), |i: int| pres@[i].chw@));
            assert forall|v: int| 0 <= v < images.len() implies self.main.backbone.is_image(
                (#[trigger] images[v])@,
                gh as int,
                gw as int,
            ) by {
                assert(pres[v].chw.len() == (3 * pres[v].h) * pres[v].w);
            }
        }
        let f: BackboneFeaturesMv<T> = match self.main.backbone.forward_mv::<D>(
            images.as_slice(),
            gh,
            gw,
            rope_ref(&aids.rope),
            self.flash,
        ) {
            Err(e) => {
                return Err(e);
            },
            Ok(f) => f,
        };
        watch.ended(Stage::Backbone);
        let ghost fd = f@;
        let layers: usize = f.feats.len();
        let mut out: Vec<ViewResult<T>> = Vec::new();
        let mut v: usize = 0;
        while v < pres.len()
            invariant
                v <= pres.len(),
                self.wf(),
                self.pose == Some(*p),
                self.main.takes(h as int, w as int, pres.len() as int, *aids),
                gh == self.main.rows(h as int),
                gw == self.main.rows(w as int),
                fd == f@,
                layers == f.feats.len(),
                layers >= 4,
                f.cam_tokens.len() == layers,
                forall|o: int|
                    0 <= o < layers ==> (#[trigger] f.feats[o]).len() == pres.len(),
                forall|o: int|
                    0 <= o < layers ==> (#[trigger] f.cam_tokens[o]).len() == pres.len(),
                forall|o: int, v: int|
                    0 <= o < layers && 0 <= v < pres.len() ==> (#[trigger] f.feats[o][v]).len()
                        == (gh * gw) * token_width(self.main.backbone.cfg),
                forall|o: int, v: int|
                    0 <= o < layers && 0 <= v < pres.len() ==> (
                    #[trigger] f.cam_tokens[o][v]).len() == token_width(self.main.backbone.cfg),
                out.len() == v,
                forall|j: int|
                    0 <= j < v ==> (#[trigger] out[j])@ == self.view_data(
                        fd,
                        *p,
                        h as int,
                        w as int,
                        aids.uv,
                        j,
                    ),
            decreases pres.len() - v,
        {
            let mut fv: Vec<Vec<T>> = Vec::new();
            let mut o: usize = 0;
            while o < layers
                invariant
                    o <= layers,
                    layers == f.feats.len(),
                    v < pres.len(),
                    forall|o: int|
                        0 <= o < layers ==> (#[trigger] f.feats[o]).len() == pres.len(),
                    fv.len() == o,
                    forall|j: int| 0 <= j < o ==> (#[trigger] fv[j])@ == f.feats[j][v as int]@,
                decreases layers - o,
            {
                assert(f.feats[o as int].len() == pres.len());
                let row: &Vec<Vec<T>> = &f.feats[o];
                fv.push(copy_slice(row[v].as_slice()));
                o = o + 1;
            }
            proof {
                assert(views(fv@) =~= Seq::new(
                    fd.feats.len(),
                    |o: int| fd.feats[o][v as int],
                ));
                assert forall|o: int| 0 <= o < fv.len() implies (#[trigger] fv[o]).len() == (gh
                    * gw) * token_width(self.main.backbone.cfg) by {
                    assert(fv[o]@ == f.feats[o][v as int]@);
                }
            }
            let m: DepthMaps<T> = self.main.run_head(
                fv.as_slice(),
                h,
                w,
                Ghost(pres.len() as int),
                aids,
                true,
                watch,
            );
            assert(f.cam_tokens[layers - 1].len() == pres.len());
            assert(f.cam_tokens[layers - 1][v as int].len() == token_width(
                self.main.backbone.cfg,
            ));
            let tokens: &Vec<Vec<T>> = &f.cam_tokens[layers - 1];
            assert(fd.cam_tokens.last()[v as int] == tokens[v as int]@);
            let pose: PoseOutput<T> = match run_pose(p, tokens[v].as_slice(), h, w) {
                Err(e) => {
                    return Err(e);
                },
                Ok(o) => o,
            };
            watch.ended(Stage::Head);
            out.push(
                ViewResult { depth: m.depth, conf: m.conf, ext: pose.ext, intr: pose.intr },
            );
            v = v + 1;
        }
        let r: MultiViewOutput<T> = MultiViewOutput { views: out, h, w, ref_view: f.ref_view };
        proof {
            assert(views(r.views@) =~= Seq::new(
                pres@.len(),
                |v: int| self.view_data(fd, *p, h as int, w as int, aids.uv, v),
            ));
        }
        Ok(r)
    }

    // ---- metric depth -------------------------------------------------------------

    /// The maps of the metric branch.
    pub open spec fn metric_maps(
        &self,
        m: Branch<T>,
        f: FeaturesData<T>,
        pre: Preprocessed<T>,
        aids: Aids<T>,
    ) -> MapsData<T> {
        m.maps(f.feats, pre.h as int, pre.w as int, aids.uv, true)
    }

    /// Depth in metric scale.
    pub open spec fn metric_result<D: Widens<T> + Analytic>(
        &self,
        pre: Preprocessed<T>,
        aids: Aids<T>,
        metric_aids: Aids<T>,
    ) -> Result<NestedData<T>, Fault> {
        let (h, w) = (pre.h as int, pre.w as int);
        match self.metric {
            None => Err(
                lacking("nested metric: engine not loaded via load_nested; no metric branch"),
            ),
            Some(m) => match self.main.features(pre.chw@, h, w, aids, self.flash) {
                Err(e) => Err(e),
                Ok(f) => match self.pose {
                    None => Err(
                        lacking(
                            "nested metric: anyview model has no camera-pose head (cam.*); load a DA3-GIANT anyview GGUF",
                        ),
                    ),
                    Some(p) => {
                        let patch = m.backbone.cfg.patch_size as int;
                        if h % patch != 0 || w % patch != 0 {
                            Err(
                                Fault::NotPatchAligned {
                                    height: h as nat,
                                    width: w as nat,
                                    patch: patch as nat,
                                },
                            )
                        } else {
                            match m.features(pre.chw@, h, w, metric_aids, self.flash) {
                                Err(e) => Err(e),
                                Ok(mf) => {
                                    let mm = self.metric_maps(m, mf, pre, metric_aids);
                                    if mm.sky.len() == 0 {
                                        Err(Fault::NoSky)
                                    } else {
                                        let am = self.main.maps(f.feats, h, w, aids.uv, false);
                                        let cam = camera_data(p, f.cam_token, h, w);
                                        Ok(
                                            aligned_of::<T, D>(
                                                AnyviewData {
                                                    depth: am.depth,
                                                    depth_conf: am.conf,
                                                    extrinsics: cam.ext,
                                                    intrinsics: cam.intr,
                                                },
                                                MetricData {
                                                    depth: mono_sky::<T, D>(mm.depth, mm.sky),
                                                    sky: mm.sky,
                                                },
                                                h,
                                                w,
                                            ),
                                        )
                                    }
                                },
                            }
                        }
                    },
                },
            },
        }
    }

    /// Depth in metric scale with its camera: the main branch brought to the scale
    /// of the metric branch.
    ///
    /// Refused without a metric branch, where a backbone refuses the image, without
    /// a camera head, where the size is no multiple of the metric branch's patch,
    /// and where that branch gives no sky map.
    pub fn depth_metric_image<D: Widens<T> + Analytic>(
        &self,
        pre: &Preprocessed<T>,
        aids: &Aids<T>,
        metric_aids: &Aids<T>,
    ) -> (r: Result<NestedOut<T>, Error>)
        requires
            self.wf(),
            self.takes(*pre, *aids),
            self.metric matches Some(m) ==> {
                let patch = m.backbone.cfg.patch_size as int;
                pre.h as int % patch == 0 && pre.w as int % patch == 0 ==> m.takes(
                    pre.h as int,
                    pre.w as int,
                    1,
                    *metric_aids,
                )
            },
            // a model without confidences cannot be aligned under a clear sky
            self.main.head.main.out2b.oc >= 2 || (self.metric matches Some(m) ==> (m.features(
                pre.chw@,
                pre.h as int,
                pre.w as int,
                *metric_aids,
                self.flash,
            ) matches Ok(f) ==> forall|i: int|
                0 <= i < self.metric_maps(m, f, *pre, *metric_aids).sky.len() ==> !clear(
                    #[trigger] self.metric_maps(m, f, *pre, *metric_aids).sky[i],
                ))),
        ensures
            outcome(r) == self.metric_result::<D>(*pre, *aids, *metric_aids),
    {
        let (h, w): (usize, usize) = (pre.h, pre.w);
        let m: &Branch<T> = match &self.metric {
            None => {
                return Err(
                    refuse(
                        "nested metric: engine not loaded via load_nested; no metric branch",
                    ),
                );
            },
            Some(m) => m,
        };
        let f: BackboneFeatures<T> = match self.main.run_backbone(
            pre.chw.as_slice(),
            h,
            w,
            aids,
            self.flash,
            &mut Unwatched,
        ) {
            Err(e) => {
                return Err(e);
            },
            Ok(f) => f,
        };
        let p: &CamPose<T> = match &self.pose {
            None => {
                return Err(
                    refuse(
                        "nested metric: anyview model has no camera-pose head (cam.*); load a DA3-GIANT anyview GGUF",
                    ),
                );
            },
            Some(p) => p,
        };
        let cam: PoseOutput<T> = match run_pose(p, f.cam_token.as_slice(), h, w) {
            Err(e) => {
                return Err(e);
            },
            Ok(o) => o,
        };
        let am: DepthMaps<T> = self.main.run_head(
            f.feats.as_slice(),
            h,
            w,
            Ghost(1),
            aids,
            false,
            &mut Unwatched,
        );
        let patch: usize = m.backbone.cfg.patch_size as usize;
        if h % patch != 0 || w % patch != 0 {
            return Err(
                Error::Model(ModelError::NotPatchAligned { height: h, width: w, patch }),
            );
        }
        let mf: BackboneFeatures<T> = match m.run_backbone(
            pre.chw.as_slice(),
            h,
            w,
            metric_aids,
            self.flash,
            &mut Unwatched,
        ) {
            Err(e) => {
                return Err(e);
            },
            Ok(f) => f,
        };
        let mm: DepthMaps<T> = m.run_head(
            mf.feats.as_slice(),
            h,
            w,
            Ghost(1),
            metric_aids,
            true,
            &mut Unwatched,
        );
        if mm.sky.len() == 0 {
            return Err(Error::Model(ModelError::NoSky));
        }
        let ghost md = mm@;
        let mut depth: Vec<T> = mm.depth;
        let sky: Vec<T> = mm.sky;
        NestedAligner::process_mono_sky::<T, D>(&mut depth, sky.as_slice());
        let any: AnyviewOut<T> = AnyviewOut {
            depth: am.depth,
            depth_conf: am.conf,
            extrinsics: cam.ext,
            intrinsics: cam.intr,
        };
        let metric: MetricOut<T> = MetricOut { depth, sky };
        proof {
            assert(md == self.metric_maps(*m, mf@, *pre, *metric_aids));
        }
        Ok(NestedAligner::align::<T, D>(&any, &metric, h, w))
    }

    // ---- Gaussians ------------------------------------------------------------------

    /// Gaussians in the world.
    pub open spec fn reconstruct_result<D: Circular + Widens<T>>(
        &self,
        pre: Preprocessed<T>,
        aids: Aids<T>,
    ) -> Result<ReconstructData<T>, Fault> {
        let (h, w) = (pre.h as int, pre.w as int);
        match self.gs_head {
            None => Err(
                lacking(
                    "reconstruct: this model has no GSDPT head (gs.*); load a DA3-Giant GGUF",
                ),
            ),
            Some(g) => match self.pose {
                None => Err(
                    lacking(
                        "reconstruct: this model has no camera-pose head (cam.*); required for world-space Gaussians",
                    ),
                ),
                Some(p) => match self.main.features(pre.chw@, h, w, aids, self.flash) {
                    Err(e) => Err(e),
                    Ok(f) => match gs_result(
                        g,
                        f.feats,
                        pre.chw@,
                        self.main.rows(h),
                        self.main.rows(w),
                        h,
                        w,
                        &aids.gs_uv->0,
                    ) {
                        Err(e) => Err(e),
                        Ok(raw) => {
                            let cam = camera_data(p, f.cam_token, h, w);
                            Ok(
                                ReconstructData {
                                    gaussians: built_of::<T, D>(
                                        default_adapter(),
                                        raw.raw_gs,
                                        self.main.maps(f.feats, h, w, aids.uv, true).depth,
                                        raw.gs_conf,
                                        cam.ext,
                                        cam.intr,
                                        h,
                                        w,
                                    ),
                                    h,
                                    w,
                                },
                            )
                        },
                    },
                },
            },
        }
    }

    /// Gaussians in the world, one for each pixel.
    ///
    /// Refused for a model without a Gaussian or without a camera head, where the
    /// backbone refuses the image, and where the Gaussian head has other than 38
    /// outputs.
    pub fn reconstruct_image<D: Circular + Widens<T>>(
        &self,
        pre: &Preprocessed<T>,
        aids: &Aids<T>,
    ) -> (r: Result<ReconstructOutput<T>, Error>)
        requires
            self.wf(),
            self.takes(*pre, *aids),
            pre.h * pre.w * 37 <= usize::MAX,
            self.gs_head matches Some(g) ==> {
                let (gh, gw) = (self.main.rows(pre.h as int), self.main.rows(pre.w as int));
                &&& exists|c: int, hw: int| #[trigger]
                    roomy(c, hw) && g.wf(c) && (8 * gh) * (8 * gw) <= hw && pre.h * pre.w <= hw
                &&& aids.gs_uv matches Some(u) && u.wf(
                    g.main,
                    gh,
                    gw,
                    pre.h as int,
                    pre.w as int,
                )
            },
        ensures
            outcome(r) == self.reconstruct_result::<D>(*pre, *aids),
    {
        self.reconstruct_image_watched::<D, Unwatched>(pre, aids, &mut Unwatched)
    }

    /// As [`Engine::reconstruct_image`], with each stage told to `watch` as it ends;
    /// the Gaussian decoder counts as a part of the head.
    pub fn reconstruct_image_watched<D: Circular + Widens<T>, W: Watch>(
        &self,
        pre: &Preprocessed<T>,
        aids: &Aids<T>,
        watch: &mut W,
    ) -> (r: Result<ReconstructOutput<T>, Error>)
        requires
            self.wf(),
            self.takes(*pre, *aids),
            pre.h * pre.w * 37 <= usize::MAX,
            self.gs_head matches Some(g) ==> {
                let (gh, gw) = (self.main.rows(pre.h as int), self.main.rows(pre.w as int));
                &&& exists|c: int, hw: int| #[trigger]
                    roomy(c, hw) && g.wf(c) && (8 * gh) * (8 * gw) <= hw && pre.h * pre.w <= hw
                &&& aids.gs_uv matches Some(u) && u.wf(
                    g.main,
                    gh,
                    gw,
                    pre.h as int,
                    pre.w as int,
                )
            },
        ensures
            outcome(r) == self.reconstruct_result::<D>(*pre, *aids),
    {
        let (h, w): (usize, usize) = (pre.h, pre.w);
        let g: &GsHead<T> = match &self.gs_head {
            None => {
                return Err(
                    refuse(
                        "reconstruct: this model has no GSDPT head (gs.*); load a DA3-Giant GGUF",
                    ),
                );
            },
            Some(g) => g,
        };
        let p: &CamPose<T> = match &self.pose {
            None => {
                return Err(
                    refuse(
                        "reconstruct: this model has no camera-pose head (cam.*); required for world-space Gaussians",
                    ),
                );
            },
            Some(p) => p,
        };
        let f: BackboneFeatures<T> = match self.main.run_backbone(
            pre.chw.as_slice(),
            h,
            w,
            aids,
            self.flash,
            watch,
        ) {
            Err(e) => {
                return Err(e);
            },
            Ok(f) => f,
        };
        let m: DepthMaps<T> = self.main.run_head(
            f.feats.as_slice(),
            h,
            w,
            Ghost(1),
            aids,
            true,
            watch,
        );
        let patch: usize = self.main.backbone.cfg.patch_size as usize;
        let (gh, gw): (usize, usize) = (h / patch, w / patch);
        let uv: &UvEmbeds<T> = match &aids.gs_uv {
            Some(u) => u,
            None => {
                return Err(Error::Model(ModelError::BadOutput));
            },
        };
        proof {
            assert((3 * h) * w == 3 * (h * w)) by (nonlinear_arith);
        }
        let raw: RawGaussians<T> = match g.forward(
            f.feats.as_slice(),
            pre.chw.as_slice(),
            gh,
            gw,
            h,
            w,
            uv,
        ) {
            Err(e) => {
                return Err(e);
            },
            Ok(raw) => raw,
        };
        watch.ended(Stage::Head);
        let cam: PoseOutput<T> = match run_pose(p, f.cam_token.as_slice(), h, w) {
            Err(e) => {
                return Err(e);
            },
            Ok(o) => o,
        };
        watch.ended(Stage::Pose);
        let adapter: GsAdapter<D> = GsAdapter::default();
        match adapter.build::<T>(
            raw.raw_gs.as_slice(),
            m.depth.as_slice(),
            raw.gs_conf.as_slice(),
            &cam.ext,
            &cam.intr,
            h,
            w,
        ) {
            Err(e) => Err(Error::from(e)),
            Ok(gaussians) => Ok(ReconstructOutput { gaussians, h, w }),
        }
    }

    // ---- rays -------------------------------------------------------------------------

    /// Depth and rays.
    pub open spec fn depth_rays_result(&self, pre: Preprocessed<T>, aids: Aids<T>) -> Result<
        (DepthData<T>, RaysData<T>),
        Fault,
    > {
        let (h, w) = (pre.h as int, pre.w as int);
        if self.main.head.aux is None {
            Err(lacking("ray-pose: this GGUF has no aux ray head (rebuild with --with-aux)"))
        } else {
            match self.main.features(pre.chw@, h, w, aids, self.flash) {
                Err(e) => Err(e),
                Ok(f) => match rays_result(
                    self.main.head,
                    f.feats,
                    self.main.rows(h),
                    self.main.rows(w),
                    uv_of(&aids.uv),
                    match aids.ray_uv {
                        Some(v) => Some(v@),
                        None => None,
                    },
                ) {
                    Err(e) => Err(e),
                    Ok(rays) => Ok(
                        (
                            DepthData { maps: self.main.maps(f.feats, h, w, aids.uv, true), h, w },
                            rays,
                        ),
                    ),
                },
            }
        }
    }

    /// Depth of an image and a ray for each of its pixels, from which a camera can
    /// be solved.
    ///
    /// Refused for a model without a ray branch, where the backbone refuses the
    /// image, and where the ray branch does not fit together.
    pub fn depth_rays_image(&self, pre: &Preprocessed<T>, aids: &Aids<T>) -> (r: Result<
        (DepthOutput<T>, Rays<T>),
        Error,
    >)
        requires
            self.wf(),
            self.takes(*pre, *aids),
            self.main.head.head_pos_embed ==> aids.ray_uv is Some,
            aids.ray_uv matches Some(pe) ==> (self.main.head.aux matches Some(a) ==> pe.len()
                == crate::dpt_head::chain_width(
                a.out1@,
                self.main.head.main.features as int,
            ) * ((8 * self.main.rows(pre.h as int)) * (8 * self.main.rows(pre.w as int)))),
        ensures
            match r {
                Err(e) => self.depth_rays_result(*pre, *aids) == Err::<
                    (DepthData<T>, RaysData<T>),
                    Fault,
                >(e@),
                Ok(o) => self.depth_rays_result(*pre, *aids) == Ok::<
                    (DepthData<T>, RaysData<T>),
                    Fault,
                >((o.0@, o.1@)),
            },
    {
        self.depth_rays_image_watched(pre, aids, &mut Unwatched)
    }

    /// As [`Engine::depth_rays_image`], with each stage told to `watch` as it ends;
    /// the ray branch counts as a part of the head.
    pub fn depth_rays_image_watched<W: Watch>(
        &self,
        pre: &Preprocessed<T>,
        aids: &Aids<T>,
        watch: &mut W,
    ) -> (r: Result<(DepthOutput<T>, Rays<T>), Error>)
        requires
            self.wf(),
            self.takes(*pre, *aids),
            self.main.head.head_pos_embed ==> aids.ray_uv is Some,
            aids.ray_uv matches Some(pe) ==> (self.main.head.aux matches Some(a) ==> pe.len()
                == crate::dpt_head::chain_width(
                a.out1@,
                self.main.head.main.features as int,
            ) * ((8 * self.main.rows(pre.h as int)) * (8 * self.main.rows(pre.w as int)))),
        ensures
            match r {
                Err(e) => self.depth_rays_result(*pre, *aids) == Err::<
                    (DepthData<T>, RaysData<T>),
                    Fault,
                >(e@),
                Ok(o) => self.depth_rays_result(*pre, *aids) == Ok::<
                    (DepthData<T>, RaysData<T>),
                    Fault,
                >((o.0@, o.1@)),
            },
    {
        let (h, w): (usize, usize) = (pre.h, pre.w);
        if !self.main.head.has_aux() {
            return Err(
                refuse("ray-pose: this GGUF has no aux ray head (rebuild with --with-aux)"),
            );
        }
        let f: BackboneFeatures<T> = match self.main.run_backbone(
            pre.chw.as_slice(),
            h,
            w,
            aids,
            self.flash,
            watch,
        ) {
            Err(e) => {
                return Err(e);
            },
            Ok(f) => f,
        };
        let m: DepthMaps<T> = self.main.run_head(
            f.feats.as_slice(),
            h,
            w,
            Ghost(1),
            aids,
            true,
            watch,
        );
        let patch: usize = self.main.backbone.cfg.patch_size as usize;
        let (gh, gw): (usize, usize) = (h / patch, w / patch);
        let ray_uv: Option<&[T]> = match &aids.ray_uv {
            Some(v) => Some(v.as_slice()),
            None => None,
        };
        let found: Result<Rays<T>, Error> = self.main.head.forward_rays(
            f.feats.as_slice(),
            gh,
            gw,
            uv_ref(&aids.uv),
            ray_uv,
        );
        watch.ended(Stage::Head);
        match found {
            Err(e) => Err(e),
            Ok(rays) => Ok(
                (DepthOutput { depth: m.depth, conf: m.conf, sky: m.sky, h, w }, rays),
            ),
        }
    }

    // ---- exports ------------------------------------------------------------------------

    /// Depth and camera of an image for an export.
    ///
    /// Refused where the backbone refuses it, and for a model without a camera
    /// head.
    pub fn depth_pose_export_image(&self, pre: &Preprocessed<T>, aids: &Aids<T>) -> (r: Result<
        (DepthOutput<T>, PoseOutput<T>),
        Error,
    >)
        requires
            self.wf(),
            self.takes(*pre, *aids),
        ensures
            ({
                let want = self.depth_pose_result(
                    *pre,
                    *aids,
                    lacking("export needs a camera-pose head (cam.*); this model has none"),
                );
                match r {
                    Err(e) => want == Err::<(DepthData<T>, PoseData<T>), Fault>(e@),
                    Ok(o) => want == Ok::<(DepthData<T>, PoseData<T>), Fault>((o.0@, o.1@)),
                }
            }),
    {
        self.depth_pose_or(
            pre,
            aids,
            "export needs a camera-pose head (cam.*); this model has none",
            &mut Unwatched,
        )
    }
}

/// Asking for a camera or for rays besides does not change the depth.
pub proof fn law_same_depth<T: Circular + Gaussian>(
    e: Engine<T>,
    pre: Preprocessed<T>,
    aids: Aids<T>,
    lack: Fault,
)
    ensures
        e.depth_pose_result(pre, aids, lack) matches Ok(r) ==> e.depth_result(pre, aids) == Ok::<
            DepthData<T>,
            Fault,
        >(r.0),
        e.depth_rays_result(pre, aids) matches Ok(r) ==> e.depth_result(pre, aids) == Ok::<
            DepthData<T>,
            Fault,
        >(r.0),
{
}

/// Several images of which there is one give the depth and the camera that this
/// image gives alone.
pub proof fn law_one_image<T: Circular + Gaussian, D: Widens<T> + Analytic>(
    e: Engine<T>,
    pre: Preprocessed<T>,
    aids: Aids<T>,
    lack: Fault,
)
    requires
        e.multi_result::<D>(seq![pre], aids) is Ok,
        e.depth_pose_result(pre, aids, lack) is Ok,
    ensures
        ({
            let batch = e.multi_result::<D>(seq![pre], aids)->Ok_0;
            let (depth, pose) = e.depth_pose_result(pre, aids, lack)->Ok_0;
            &&& batch.views.len() == 1
            &&& batch.views[0].depth == depth.maps.depth
            &&& batch.views[0].conf == depth.maps.conf
            &&& batch.views[0].ext == pose.ext
            &&& batch.views[0].intr == pose.intr
            &&& (batch.h, batch.w) == (depth.h, depth.w)
            &&& batch.ref_view == 0
        }),
{
    let b = e.main.backbone;
    let (gh, gw) = (e.main.rows(pre.h as int), e.main.rows(pre.w as int));
    let core = core_of(e.flash);
    let one = seq![pre];
    let images = Seq::new(one.len(), |i: int| one[i].chw@);
    assert(images =~= seq![pre.chw@]);
    let alone = forward_result(b, aids.rope, pre.chw@, gh, gw, core)->Ok_0;
    let batch = forward_mv_result::<T, D>(b, aids.rope, images, gh, gw, core)->Ok_0;
    assert forall|o: int| 0 <= o < b.cfg.out_layers.len() implies batch.feats[o][0]
        == alone.feats[o] && batch.cam_tokens.last()[0] == alone.cam_token && batch.ref_view
        == 0 by {
        law_one_view::<T, D>(b, aids.rope, pre.chw@, gh, gw, core, o);
    }
    law_one_view::<T, D>(b, aids.rope, pre.chw@, gh, gw, core, 0);
    assert(Seq::new(batch.feats.len(), |o: int| batch.feats[o][0]) =~= alone.feats);
}

/// Metric scale keeps the size of the depth, the intrinsics and the camera's
/// rotation.
pub proof fn law_metric_keeps_camera<T: Circular + Gaussian, D: Widens<T> + Analytic>(
    e: Engine<T>,
    pre: Preprocessed<T>,
    aids: Aids<T>,
    metric_aids: Aids<T>,
    lack: Fault,
)
    requires
        e.metric_result::<D>(pre, aids, metric_aids) is Ok,
    ensures
        e.depth_pose_result(pre, aids, lack) is Ok,
        ({
            let scaled = e.metric_result::<D>(pre, aids, metric_aids)->Ok_0;
            let (depth, pose) = e.depth_pose_result(pre, aids, lack)->Ok_0;
            &&& scaled.depth.len() == depth.maps.depth.len()
            &&& scaled.intrinsics == pose.intr
            &&& (scaled.h, scaled.w) == (depth.h, depth.w)
            &&& forall|i: int|
                0 <= i < 12 && i % 4 != 3 ==> #[trigger] scaled.extrinsics[i] == pose.ext[i]
        }),
{
}

/// What the solver of cameras from rays answers, as the engine gives it out.
pub fn ray_pose_output<T: Scalar, D: Scalar>(
    ext: [T; 12],
    intr: [T; 9],
    n_inlier_best: usize,
    focal: [D; 2],
    pp: [D; 2],
) -> (r: RayPoseOutput<T, D>)
    ensures
        r.ext == ext,
        r.intr == intr,
        r.diag == (RayPoseDiag { n_inlier_best, focal, pp }),
{
    RayPoseOutput { ext, intr, diag: RayPoseDiag { n_inlier_best, focal, pp } }
}

impl<D: Scalar> Default for RayPoseDiag<D> {
    fn default() -> (r: Self)
        ensures
            r.n_inlier_best == 0,
            forall|i: int| 0 <= i < 2 ==> #[trigger] r.focal[i] == zero::<D>(),
            forall|i: int| 0 <= i < 2 ==> #[trigger] r.pp[i] == zero::<D>(),
    {
        let nil: D = D::ratio(0, 1);
        RayPoseDiag { n_inlier_best: 0, focal: [nil, nil], pp: [nil, nil] }
    }
}

impl<T: Scalar, D: Scalar> Default for RayPoseOutput<T, D> {
    fn default() -> (r: Self)
        ensures
            forall|i: int| 0 <= i < 12 ==> #[trigger] r.ext[i] == zero::<T>(),
            forall|i: int| 0 <= i < 9 ==> #[trigger] r.intr[i] == zero::<T>(),
            r.diag.n_inlier_best == 0,
            forall|i: int| 0 <= i < 2 ==> #[trigger] r.diag.focal[i] == zero::<D>(),
            forall|i: int| 0 <= i < 2 ==> #[trigger] r.diag.pp[i] == zero::<D>(),
    {
        let z: T = T::ratio(0, 1);
        RayPoseOutput {
            ext: [z, z, z, z, z, z, z, z, z, z, z, z],
            intr: [z, z, z, z, z, z, z, z, z],
            diag: RayPoseDiag::default(),
        }
    }
}

/// A 3x4 matrix with the row `0 0 0 1` below.
pub open spec fn padded_matrix<T: Scalar>(ext: Seq<T>) -> Seq<T> {
    Seq::new(
        16,
        |i: int|
            if i < 12 {
                ext[i]
            } else if i < 15 {
                zero::<T>()
            } else {
                one::<T>()
            },
    )
}

/// A 3x4 matrix as a 4x4 one, with the row `0 0 0 1` below.
pub fn pose_ext_to_4x4<T: Scalar>(ext: &[T; 12]) -> (r: [T; 16])
    ensures
        r@ == padded_matrix(ext@),
{
    let o: T = T::ratio(0, 1);
    let r: [T; 16] = [
        ext[0],
        ext[1],
        ext[2],
        ext[3],
        ext[4],
        ext[5],
        ext[6],
        ext[7],
        ext[8],
        ext[9],
        ext[10],
        ext[11],
        o,
        o,
        o,
        T::ratio(1, 1),
    ];
    assert(r@ =~= padded_matrix(ext@));
    r
}

/// Which exports are wanted, and how.
pub struct ExportSpec<T> {
    /// Where the scene goes; none without it.
    pub glb_path: Option<String>,
    /// Where the sparse model goes; none without it.
    pub colmap_dir: Option<String>,
    /// Whether the sparse model is binary.
    pub colmap_binary: bool,
    /// The name of the image in the sparse model.
    pub image_name: Option<String>,
    pub glb_opts: Option<GlbOptions<T>>,
}

impl<T> Default for ExportSpec<T> {
    /// Nothing, in binary.
    fn default() -> (r: Self)
        ensures
            r.glb_path is None,
            r.colmap_dir is None,
            r.colmap_binary,
            r.image_name is None,
            r.glb_opts is None,
    {
        ExportSpec {
            glb_path: None,
            colmap_dir: None,
            colmap_binary: true,
            image_name: None,
            glb_opts: None,
        }
    }
}

/// What was exported.
#[derive(Clone, Copy, Debug, PartialEq, Eq, Structural)]
pub struct ExportResult {
    pub glb_written: bool,
    pub colmap_written: bool,
}

impl Default for ExportResult {
    fn default() -> (r: Self)
        ensures
            !r.glb_written,
            !r.colmap_written,
    {
        ExportResult { glb_written: false, colmap_written: false }
    }
}

impl<T: Scalar> ExportSpec<T> {
    /// The options of the scene.
    pub open spec fn options(&self) -> GlbOptions<T> {
        match self.glb_opts {
            Some(o) => o,
            None => default_options::<T>(),
        }
    }

    /// The name of the image in the sparse model.
    pub open spec fn name(&self) -> Seq<char> {
        match self.image_name {
            Some(n) => n@,
            None => "image0001.png"@,
        }
    }

    /// The options of the scene, or the default ones.
    pub fn glb_options(&self) -> (r: GlbOptions<T>)
        ensures
            r == self.options(),
    {
        match &self.glb_opts {
            Some(o) => GlbOptions {
                num_max_points: o.num_max_points,
                show_cameras: o.show_cameras,
                camera_size: o.camera_size,
                conf_thresh: o.conf_thresh,
                conf_thresh_percentile: o.conf_thresh_percentile,
                ensure_thresh_percentile: o.ensure_thresh_percentile,
            },
            None => GlbOptions::default(),
        }
    }
}

/// The bytes of the exports that are wanted.
pub struct Exports {
    pub glb: Option<Vec<u8>>,
    pub colmap: Option<Model>,
}

impl Exports {
    /// What there is to write.
    pub fn result(&self) -> (r: ExportResult)
        ensures
            r.glb_written == self.glb is Some,
            r.colmap_written == self.colmap is Some,
    {
        ExportResult { glb_written: self.glb.is_some(), colmap_written: self.colmap.is_some() }
    }
}

/// What an export reads beside the image and its camera: the points of the scene
/// and of the sparse model, the inverses of the camera's matrices, and its
/// rotation as a quaternion.
pub struct ExportInputs<T> {
    pub scene_points: WorldPoints<T>,
    pub model_points: WorldPoints<T>,
    pub intrinsics_inverse: Option<[T; 9]>,
    pub ext_inverse: Option<[T; 16]>,
    pub qvec: [T; 4],
}

/// The frame of the image in the sparse model.
pub open spec fn is_export_frame<T: Scalar>(
    f: Frame<T>,
    spec: ExportSpec<T>,
    pre: Preprocessed<T>,
    pose: PoseOutput<T>,
    inputs: ExportInputs<T>,
) -> bool {
    &&& f.k == pose.intr
    &&& f.ext@ == padded_matrix(pose.ext@)
    &&& f.qvec == inputs.qvec
    &&& f.name@ == spec.name()
    &&& f.orig_w == pre.orig_w
    &&& f.orig_h == pre.orig_h
}

/// The camera of the image in the scene.
pub open spec fn is_export_camera<T: Scalar>(
    c: Camera<T>,
    pose: PoseOutput<T>,
    inputs: ExportInputs<T>,
) -> bool {
    &&& c.ext@ == padded_matrix(pose.ext@)
    &&& c.intrinsics_inverse == inputs.intrinsics_inverse
    &&& c.ext_inverse == inputs.ext_inverse
}

/// The exports of one image that are wanted, as bytes.
pub fn write_exports<T: Stored, D: Widens<T> + Analytic + Stored>(
    spec: &ExportSpec<T>,
    pre: &Preprocessed<T>,
    depth: &DepthOutput<T>,
    pose: &PoseOutput<T>,
    inputs: &ExportInputs<T>,
) -> (out: Exports)
    requires
        depth.h <= i32::MAX,
        depth.w <= i32::MAX,
        pre.orig_h <= i64::MAX,
        pre.orig_w <= i64::MAX,
        inputs.scene_points.rgb.len() >= inputs.scene_points.xyz.len() / 3 * 3,
        16 * (inputs.scene_points.xyz.len() / 3) + 256 <= u32::MAX,
        inputs.model_points.wf(1),
    ensures
        out.glb is Some == spec.glb_path is Some,
        out.colmap is Some == spec.colmap_dir is Some,
        out.glb matches Some(bytes) ==> exists|c: Camera<T>| #[trigger]
            is_export_camera(c, *pose, *inputs) && is_glb::<T, D>(
                bytes@,
                inputs.scene_points,
                seq![c],
                depth.w as i32,
                depth.h as i32,
                spec.options(),
            ),
        out.colmap matches Some(m) ==> m.binary == spec.colmap_binary && exists|f: Frame<T>|
            #[trigger]
            is_export_frame(f, *spec, *pre, *pose, *inputs) && is_model::<T, D>(
                m,
                inputs.model_points,
                seq![f],
                depth.h as int,
                depth.w as int,
            ),
{
    let ext: [T; 16] = pose_ext_to_4x4(&pose.ext);
    let glb: Option<Vec<u8>> = match &spec.glb_path {
        Some(_) => {
            let c: Camera<T> = Camera {
                ext,
                intrinsics_inverse: inputs.intrinsics_inverse,
                ext_inverse: inputs.ext_inverse,
            };
            let cameras: [Camera<T>; 1] = [c];
            assert(cameras@ =~= seq![c]);
            assert(is_export_camera(c, *pose, *inputs));
            Some(
                write_glb::<T, D>(
                    &inputs.scene_points,
                    cameras.as_slice(),
                    depth.w as i32,
                    depth.h as i32,
                    &spec.glb_options(),
                ),
            )
        },
        None => None,
    };
    let colmap: Option<Model> = match &spec.colmap_dir {
        Some(_) => {
            let name: String = match &spec.image_name {
                Some(n) => n.as_str().to_owned(),
                None => "image0001.png".to_owned(),
            };
            let f: Frame<T> = Frame {
                k: pose.intr,
                ext,
                qvec: inputs.qvec,
                name,
                orig_w: pre.orig_w as i64,
                orig_h: pre.orig_h as i64,
            };
            let frames: [Frame<T>; 1] = [f];
            assert(frames@ =~= seq![f]);
            assert(is_export_frame(f, *spec, *pre, *pose, *inputs));
            Some(
                write_colmap::<T, D>(
                    &inputs.model_points,
                    frames.as_slice(),
                    depth.h,
                    depth.w,
                    spec.colmap_binary,
                ),
            )
        },
        None => None,
    };
    Exports { glb, colmap }
}

// ---- loading ------------------------------------------------------------------

/// What an [`Engine`] holds besides its blocks.
pub struct EngineData<T> {
    pub around: FrameData<T>,
    pub head: DptHeadData<T>,
    pub pose: Option<CamPoseData<T>>,
    pub gs_head: Option<GsHeadData<T>>,
}

/// What a branch of a file holds besides its blocks.
#[verifier::opaque]
pub open spec fn branch_loaded<T: Scalar>(
    bytes: Seq<u8>,
    header: Header,
    prefix: Seq<char>,
    cfg: Config<T>,
) -> Result<(FrameData<T>, DptHeadData<T>), Fault> {
    match around_loaded::<T>(
        bytes,
        header,
        prefix,
        cfg.embed_dim as usize,
        cfg.patch_size as usize,
        cfg.pos_embed_grid as usize,
    ) {
        Err(e) => Err(e),
        Ok(around) => match head_loaded::<T>(
            bytes,
            header,
            prefix + "head."@,
            token_width(cfg) as usize,
            projection_widths(cfg),
            pyramid_width(cfg) as usize,
            cfg.half_width() as usize,
        ) {
            Err(e) => Err(e),
            Ok(head) => Ok((around, head)),
        },
    }
}

/// What the metric branch of a file holds besides its blocks; where it cannot be
/// loaded, which part failed and why.
#[verifier::opaque]
pub open spec fn metric_loaded<T: Scalar>(bytes: Seq<u8>, header: Header, cfg: Config<T>) -> Result<
    (FrameData<T>, DptHeadData<T>),
    Fault,
> {
    match around_loaded::<T>(
        bytes,
        header,
        "m_"@,
        cfg.embed_dim as usize,
        cfg.patch_size as usize,
        cfg.pos_embed_grid as usize,
    ) {
        Err(e) => Err(Fault::NestedLoad { part: "backbone"@, cause: message_of(e) }),
        Ok(around) => match head_loaded::<T>(
            bytes,
            header,
            "m_"@ + "head."@,
            token_width(cfg) as usize,
            projection_widths(cfg),
            pyramid_width(cfg) as usize,
            cfg.half_width() as usize,
        ) {
            Err(e) => Err(Fault::NestedLoad { part: "head"@, cause: message_of(e) }),
            Ok(head) => Ok((around, head)),
        },
    }
}

/// The camera head of a file where it has one.
#[verifier::opaque]
pub open spec fn pose_loaded<T: Scalar>(bytes: Seq<u8>, header: Header, d: usize) -> Result<
    Option<CamPoseData<T>>,
    Fault,
> {
    if !header.tensors.contains_key("cam.bb0.weight"@) {
        Ok(None)
    } else {
        match cam_pose_loaded::<T>(bytes, header, d) {
            Err(e) => Err(e),
            Ok(p) => Ok(Some(p)),
        }
    }
}

/// The Gaussian head of a file where it has one.
#[verifier::opaque]
pub open spec fn gaussian_loaded<T: Scalar>(bytes: Seq<u8>, header: Header, d: usize) -> Result<
    Option<GsHeadData<T>>,
    Fault,
> {
    if !header.tensors.contains_key("gs.proj.0.weight"@) {
        Ok(None)
    } else {
        match gs_head_loaded::<T>(bytes, header, d) {
            Err(e) => Err(e),
            Ok(p) => Ok(Some(p)),
        }
    }
}

/// What an engine of a file holds besides its blocks.
#[verifier::opaque]
pub open spec fn engine_loaded<T: Scalar>(bytes: Seq<u8>, header: Header, cfg: Config<T>) -> Result<
    EngineData<T>,
    Fault,
> {
    match branch_loaded::<T>(bytes, header, Seq::empty(), cfg) {
        Err(e) => Err(e),
        Ok(b) => match pose_loaded::<T>(bytes, header, token_width(cfg) as usize) {
            Err(e) => Err(e),
            Ok(pose) => match gaussian_loaded::<T>(bytes, header, token_width(cfg) as usize) {
                Err(e) => Err(e),
                Ok(gs_head) => Ok(EngineData { around: b.0, head: b.1, pose, gs_head }),
            },
        },
    }
}

/// Sizes that the loaders can count, and blocks that fit.
pub open spec fn loadable<T: Analytic>(cfg: Config<T>, blocks: Seq<FastVitBlock<T>>) -> bool {
    &&& 1 <= cfg.embed_dim
    &&& 2 * cfg.embed_dim <= usize::MAX
    &&& 1 <= cfg.patch_size
    &&& 1 <= cfg.pos_embed_grid <= i32::MAX
    &&& (1 + cfg.pos_embed_grid * cfg.pos_embed_grid) * cfg.embed_dim <= usize::MAX
    &&& blocks.len() <= i32::MAX
    &&& forall|i: int|
        0 <= i < blocks.len() ==> (#[trigger] blocks[i]).wf() && blocks[i].embed == cfg.embed_dim
            && blocks[i].attn.head_dim == cfg.head_dim
}

impl<T: Analytic> Branch<T> {
    /// Reads a branch, under names that begin with `prefix`.
    pub fn load(cfg: Config<T>, f: &GgufFile, prefix: &str, blocks: Vec<FastVitBlock<T>>) -> (r:
        Result<Self, Error>)
        requires
            f.wf(),
            loadable(cfg, blocks@),
        ensures
            match r {
                Ok(b) => {
                    &&& branch_loaded::<T>(f.contents(), f@, prefix@, cfg) == Ok::<
                        (FrameData<T>, DptHeadData<T>),
                        Fault,
                    >((b.backbone.around(), b.head@))
                    &&& b.backbone.blocks == blocks
                    &&& b.backbone.cfg == cfg
                    &&& b.backbone.wf()
                    &&& b.head.wf(b.head.width())
                    &&& b.head.head_pos_embed == cfg.head_pos_embed
                    &&& b.head.main.in_channels == token_width(cfg)
                    &&& b.head.main.features == pyramid_width(cfg)
                },
                Err(e) => branch_loaded::<T>(f.contents(), f@, prefix@, cfg) == Err::<
                    (FrameData<T>, DptHeadData<T>),
                    Fault,
                >(e@),
            },
    {
        reveal(branch_loaded);
        let backbone: Backbone<T> = match Backbone::load(cfg, f, prefix, blocks) {
            Err(e) => {
                return Err(e);
            },
            Ok(b) => b,
        };
        match DptHead::load(
            &backbone.cfg,
            f,
            crate::weights::joined(prefix, "head.").as_str(),
        ) {
            Err(e) => Err(e),
            Ok(head) => Ok(Branch { backbone, head }),
        }
    }
}

impl<T: Circular + Gaussian> Engine<T> {
    /// Reads an engine from a file with its configuration; the blocks are those of
    /// the file.
    pub fn load(cfg: Config<T>, f: &GgufFile, blocks: Vec<FastVitBlock<T>>, flash: bool) -> (r:
        Result<Self, Error>)
        requires
            f.wf(),
            loadable(cfg, blocks@),
        ensures
            match r {
                Ok(e) => {
                    &&& engine_loaded::<T>(f.contents(), f@, cfg) == Ok::<EngineData<T>, Fault>(
                        EngineData {
                            around: e.main.backbone.around(),
                            head: e.main.head@,
                            pose: match e.pose {
                                Some(p) => Some(p@),
                                None => None,
                            },
                            gs_head: match e.gs_head {
                                Some(g) => Some(g@),
                                None => None,
                            },
                        },
                    )
                    &&& e.main.backbone.blocks == blocks
                    &&& e.main.backbone.cfg == cfg
                    &&& e.main.backbone.wf()
                    &&& e.main.head.wf(e.main.head.width())
                    &&& e.main.head.head_pos_embed == cfg.head_pos_embed
                    &&& e.main.head.main.in_channels == token_width(cfg)
                    &&& e.main.head.main.features == pyramid_width(cfg)
                    &&& e.pose matches Some(p) ==> p.wf(token_width(cfg))
                    &&& e.gs_head matches Some(g) ==> {
                        &&& g.wf(token_width(cfg) + 2048)
                        &&& g.main.in_channels == token_width(cfg)
                        &&& g.main.features == 256
                    }
                    &&& e.metric is None
                    &&& e.flash == flash
                    &&& e.main.wf() ==> e.wf()
                },
                Err(e) => engine_loaded::<T>(f.contents(), f@, cfg) == Err::<
                    EngineData<T>,
                    Fault,
                >(e@),
            },
    {
        reveal(engine_loaded);
        reveal(pose_loaded);
        reveal(gaussian_loaded);
        let none: String = String::new();
        assert(none@ =~= Seq::empty());
        let main: Branch<T> = match Branch::load(cfg, f, none.as_str(), blocks) {
            Err(e) => {
                return Err(e);
            },
            Ok(b) => b,
        };
        let pose: Option<CamPose<T>> = match f.tensor_info("cam.bb0.weight") {
            None => None,
            Some(_) => match CamPose::load(&main.backbone.cfg, f) {
                Err(e) => {
                    return Err(e);
                },
                Ok(p) => Some(p),
            },
        };
        let gs_head: Option<GsHead<T>> = if has_gs_head(f) {
            match GsHead::load(&main.backbone.cfg, f) {
                Err(e) => {
                    return Err(e);
                },
                Ok(g) => Some(g),
            }
        } else {
            None
        };
        Ok(Engine { main, pose, gs_head, metric: None, flash })
    }

    /// Adds the metric branch of a second file, whose names begin with `m_`.
    ///
    /// Refused where the file does not hold that branch.
    pub fn load_nested(
        self,
        cfg: Config<T>,
        f: &GgufFile,
        blocks: Vec<FastVitBlock<T>>,
    ) -> (r: Result<Self, Error>)
        requires
            f.wf(),
            loadable(cfg, blocks@),
        ensures
            match r {
                Ok(e) => {
                    &&& e.metric is Some
                    &&& metric_loaded::<T>(f.contents(), f@, cfg) == Ok::<
                        (FrameData<T>, DptHeadData<T>),
                        Fault,
                    >((e.metric->0.backbone.around(), e.metric->0.head@))
                    &&& e.metric->0.backbone.blocks == blocks
                    &&& e.metric->0.backbone.cfg == cfg
                    &&& e.metric->0.backbone.wf()
                    &&& e.metric->0.head.wf(e.metric->0.head.width())
                    &&& e.metric->0.head.head_pos_embed == cfg.head_pos_embed
                    &&& e.metric->0.head.main.in_channels == token_width(cfg)
                    &&& e.metric->0.head.main.features == pyramid_width(cfg)
                    &&& e.main == self.main
                    &&& e.pose == self.pose
                    &&& e.gs_head == self.gs_head
                    &&& e.flash == self.flash
                    &&& self.wf() && e.metric->0.wf() ==> e.wf()
                },
                Err(e) => metric_loaded::<T>(f.contents(), f@, cfg) == Err::<
                    (FrameData<T>, DptHeadData<T>),
                    Fault,
                >(e@),
            },
    {
        reveal(metric_loaded);
        let backbone: Backbone<T> = match Backbone::load(cfg, f, "m_", blocks) {
            Err(e) => {
                return Err(
                    Error::Model(ModelError::NestedLoad { part: "backbone", cause: e.message() }),
                );
            },
            Ok(b) => b,
        };
        let head: DptHead<T> = match DptHead::load(
            &backbone.cfg,
            f,
            crate::weights::joined("m_", "head.").as_str(),
        ) {
            Err(e) => {
                return Err(
                    Error::Model(ModelError::NestedLoad { part: "head", cause: e.message() }),
                );
            },
            Ok(head) => head,
        };
        Ok(
            Engine {
                main: self.main,
                pose: self.pose,
                gs_head: self.gs_head,
                metric: Some(Branch { backbone, head }),
                flash: self.flash,
            },
        )
    }
}

} // verus!
