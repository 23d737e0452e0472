//! Reading the weights of a decoder.

use crate::error::{Error, Fault};
use crate::fast_dpt::{
    conv_t_from, conv_t_source, Conv1x1W, Conv3x3W, ConvTransposeW, FusionW, ResConvUnitW,
};
use crate::gguf::{outcome, GgufFile, Header};
use crate::scalar::{zero, Scalar};
use crate::weights::{
    joined, lemma_sizes, load_pair, load_tensor, loaded, pair_loaded, shape_size, Pair, PairData,
};
use vstd::prelude::*;

verus! {

/// What the weights of a convolution hold.
pub struct ConvData<T> {
    pub weight: Seq<T>,
    pub bias: Seq<T>,
    pub ic: int,
    pub oc: int,
}

impl<T> View for Conv3x3W<T> {
    type V = ConvData<T>;

    open spec fn view(&self) -> ConvData<T> {
        ConvData {
            weight: self.weight@,
            bias: self.bias@,
            ic: self.ic as int,
            oc: self.oc as int,
        }
    }
}

impl<T> View for Conv1x1W<T> {
    type V = ConvData<T>;

    open spec fn view(&self) -> ConvData<T> {
        ConvData {
            weight: self.weight@,
            bias: self.bias@,
            ic: self.ic as int,
            oc: self.oc as int,
        }
    }
}

/// What the weights of a transposed convolution hold.
pub struct ConvTransposeData<T> {
    pub weight: Seq<T>,
    pub bias: Seq<T>,
    pub in_c: int,
    pub out_c: int,
    pub k: int,
}

impl<T> View for ConvTransposeW<T> {
    type V = ConvTransposeData<T>;

    open spec fn view(&self) -> ConvTransposeData<T> {
        ConvTransposeData {
            weight: self.weight@,
            bias: self.bias@,
            in_c: self.in_c as int,
            out_c: self.out_c as int,
            k: self.k as int,
        }
    }
}

/// What the weights of a residual convolution unit hold.
pub struct UnitData<T> {
    pub c1: ConvData<T>,
    pub c2: ConvData<T>,
}

impl<T> View for ResConvUnitW<T> {
    type V = UnitData<T>;

    open spec fn view(&self) -> UnitData<T> {
        UnitData { c1: self.c1@, c2: self.c2@ }
    }
}

/// What the weights of a fusion stage hold.
pub struct FusionData<T> {
    pub rc1: Option<UnitData<T>>,
    pub rc2: UnitData<T>,
    pub outc: ConvData<T>,
}

impl<T> View for FusionW<T> {
    type V = FusionData<T>;

    open spec fn view(&self) -> FusionData<T> {
        FusionData {
            rc1: match self.rc1 {
                Some(r) => Some(r@),
                None => None,
            },
            rc2: self.rc2@,
            outc: self.outc@,
        }
    }
}

/// The convolution `name` with a `k` by `k` kernel.
#[verifier::opaque]
pub open spec fn conv_loaded<T: Scalar>(
    bytes: Seq<u8>,
    header: Header,
    name: Seq<char>,
    oc: usize,
    ic: usize,
    k: usize,
) -> Result<ConvData<T>, Fault> {
    match pair_loaded::<T>(bytes, header, name, seq![oc, ic, k, k], oc) {
        Err(e) => Err(e),
        Ok(p) => Ok(
            ConvData { weight: p.weight, bias: p.bias, ic: ic as int, oc: oc as int },
        ),
    }
}

fn load_conv<T: Scalar>(f: &GgufFile, name: &str, oc: usize, ic: usize, k: usize) -> (r: Result<
    Pair<T>,
    Error,
>)
    requires
        f.wf(),
    ensures
        outcome(r) == pair_loaded::<T>(f.contents(), f@, name@, seq![oc, ic, k, k], oc),
        r matches Ok(p) ==> p.weight.len() == ((oc * ic) * k) * k && p.bias.len() == oc,
{
    let shape: [usize; 4] = [oc, ic, k, k];
    proof {
        assert(shape@ =~= seq![oc, ic, k, k]);
        lemma_sizes(shape@);
    }
    load_pair(f, name, shape.as_slice(), oc)
}

/// Reads a 3x3 convolution.
pub fn load_conv3x3<T: Scalar>(f: &GgufFile, name: &str, oc: usize, ic: usize) -> (r: Result<
    Conv3x3W<T>,
    Error,
>)
    requires
        f.wf(),
    ensures
        outcome(r) == conv_loaded::<T>(f.contents(), f@, name@, oc, ic, 3),
        r matches Ok(w) ==> w.wf(ic + oc) && w.ic == ic && w.oc == oc,
{
    reveal(conv_loaded);
    match load_conv(f, name, oc, ic, 3) {
        Err(e) => Err(e),
        Ok(p) => Ok(Conv3x3W { weight: p.weight, bias: p.bias, ic, oc }),
    }
}

/// Reads a 1x1 convolution.
pub fn load_conv1x1<T: Scalar>(f: &GgufFile, name: &str, oc: usize, ic: usize) -> (r: Result<
    Conv1x1W<T>,
    Error,
>)
    requires
        f.wf(),
    ensures
        outcome(r) == conv_loaded::<T>(f.contents(), f@, name@, oc, ic, 1),
        r matches Ok(w) ==> w.wf(ic + oc) && w.ic == ic && w.oc == oc,
{
    reveal(conv_loaded);
    match load_conv(f, name, oc, ic, 1) {
        Err(e) => Err(e),
        Ok(p) => Ok(Conv1x1W { weight: p.weight, bias: p.bias, ic, oc }),
    }
}

/// The 3x3 convolution `name`, which has no bias.
#[verifier::opaque]
pub open spec fn bare_loaded<T: Scalar>(
    bytes: Seq<u8>,
    header: Header,
    name: Seq<char>,
    oc: usize,
    ic: usize,
) -> Result<ConvData<T>, Fault> {
    match loaded::<T>(bytes, header, name + ".weight"@, seq![oc, ic, 3, 3]) {
        Err(e) => Err(e),
        Ok(weight) => Ok(
            ConvData {
                weight,
                bias: Seq::new(oc as nat, |i: int| zero::<T>()),
                ic: ic as int,
                oc: oc as int,
            },
        ),
    }
}

/// Reads a 3x3 convolution that has no bias.
pub fn load_bare3x3<T: Scalar>(f: &GgufFile, name: &str, oc: usize, ic: usize) -> (r: Result<
    Conv3x3W<T>,
    Error,
>)
    requires
        f.wf(),
    ensures
        outcome(r) == bare_loaded::<T>(f.contents(), f@, name@, oc, ic),
        r matches Ok(w) ==> w.wf(ic + oc) && w.ic == ic && w.oc == oc,
{
    reveal(bare_loaded);
    let shape: [usize; 4] = [oc, ic, 3, 3];
    proof {
        assert(shape@ =~= seq![oc, ic, 3usize, 3usize]);
        lemma_sizes(shape@);
    }
    let weight: Vec<T> = match load_tensor(f, joined(name, ".weight").as_str(), shape.as_slice()) {
        Err(e) => {
            return Err(e);
        },
        Ok(v) => v,
    };
    assert(weight.len() == oc * ic * 9) by {
        let (a, b) = (shape@[2] as int, shape@[3] as int);
        let n = shape@[0] * shape@[1];
        assert((n * a) * b == n * 9) by (nonlinear_arith)
            requires
                a == 3,
                b == 3,
        ;
    }
    let mut bias: Vec<T> = Vec::new();
    let mut i: usize = 0;
    while i < oc
        invariant
            i <= oc,
            bias.len() == i,
            forall|j: int| 0 <= j < i ==> #[trigger] bias[j] == zero::<T>(),
        decreases oc - i,
    {
        bias.push(T::ratio(0, 1));
        i = i + 1;
    }
    assert(bias@ =~= Seq::new(oc as nat, |i: int| zero::<T>()));
    Ok(Conv3x3W { weight, bias, ic, oc })
}

/// The transposed convolution `name` on `ch` channels.
#[verifier::opaque]
pub open spec fn conv_t_loaded<T: Scalar>(
    bytes: Seq<u8>,
    header: Header,
    name: Seq<char>,
    ch: usize,
    k: usize,
) -> Result<ConvTransposeData<T>, Fault> {
    match pair_loaded::<T>(bytes, header, name, seq![ch, ch, k, k], ch) {
        Err(e) => Err(e),
        Ok(p) => Ok(
            ConvTransposeData {
                weight: Seq::new(
                    p.weight.len(),
                    |d: int| p.weight[conv_t_source(d, ch as int, k as int)],
                ),
                bias: p.bias,
                in_c: ch as int,
                out_c: ch as int,
                k: k as int,
            },
        ),
    }
}

/// Reads a transposed convolution.
pub fn load_conv_transpose<T: Scalar>(f: &GgufFile, name: &str, ch: usize, k: usize) -> (r: Result<
    ConvTransposeW<T>,
    Error,
>)
    requires
        f.wf(),
        1 <= k <= 4,
    ensures
        outcome(r) == conv_t_loaded::<T>(f.contents(), f@, name@, ch, k),
        r matches Ok(w) ==> w.wf(ch as int) && w.in_c == ch && w.out_c == ch && w.k == k,
{
    reveal(conv_t_loaded);
    match load_conv(f, name, ch, ch, k) {
        Err(e) => Err(e),
        Ok(p) => {
            let ghost raw = p.weight@;
            let ghost b = p.bias@;
            let w: ConvTransposeW<T> = conv_t_from(p.weight.as_slice(), p.bias, ch, ch, k);
            proof {
                assert(((ch * ch) * k) * k == ((ch * k) * k) * ch) by (nonlinear_arith);
                assert(w.weight@ =~= Seq::new(
                    raw.len(),
                    |d: int| raw[conv_t_source(d, ch as int, k as int)],
                ));
            }
            Ok(w)
        },
    }
}

/// The residual convolution unit `name`.
#[verifier::opaque]
pub open spec fn unit_loaded<T: Scalar>(
    bytes: Seq<u8>,
    header: Header,
    name: Seq<char>,
    features: usize,
) -> Result<UnitData<T>, Fault> {
    match conv_loaded::<T>(bytes, header, name + ".c1"@, features, features, 3) {
        Err(e) => Err(e),
        Ok(c1) => match conv_loaded::<T>(bytes, header, name + ".c2"@, features, features, 3) {
            Err(e) => Err(e),
            Ok(c2) => Ok(UnitData { c1, c2 }),
        },
    }
}

fn load_unit<T: Scalar>(f: &GgufFile, name: &str, features: usize) -> (r: Result<
    ResConvUnitW<T>,
    Error,
>)
    requires
        f.wf(),
    ensures
        outcome(r) == unit_loaded::<T>(f.contents(), f@, name@, features),
        r matches Ok(u) ==> u.wf(features as int, 2 * features),
{
    reveal(unit_loaded);
    let c1: Conv3x3W<T> = match load_conv3x3(f, joined(name, ".c1").as_str(), features, features) {
        Err(e) => {
            return Err(e);
        },
        Ok(w) => w,
    };
    match load_conv3x3(f, joined(name, ".c2").as_str(), features, features) {
        Err(e) => Err(e),
        Ok(c2) => Ok(ResConvUnitW { c1, c2 }),
    }
}

/// The fusion stage `name`.
#[verifier::opaque]
pub open spec fn fusion_loaded<T: Scalar>(
    bytes: Seq<u8>,
    header: Header,
    name: Seq<char>,
    has_rc1: bool,
    features: usize,
) -> Result<FusionData<T>, Fault> {
    let rc1: Result<Option<UnitData<T>>, Fault> = if has_rc1 {
        match unit_loaded::<T>(bytes, header, name + ".rc1"@, features) {
            Err(e) => Err(e),
            Ok(u) => Ok(Some(u)),
        }
    } else {
        Ok(None)
    };
    match rc1 {
        Err(e) => Err(e),
        Ok(rc1) => match unit_loaded::<T>(bytes, header, name + ".rc2"@, features) {
            Err(e) => Err(e),
            Ok(rc2) => match conv_loaded::<T>(
                bytes,
                header,
                name + ".out"@,
                features,
                features,
                1,
            ) {
                Err(e) => Err(e),
                Ok(outc) => Ok(FusionData { rc1, rc2, outc }),
            },
        },
    }
}

/// Reads a fusion stage.
pub fn load_fusion<T: Scalar>(f: &GgufFile, name: &str, has_rc1: bool, features: usize) -> (r:
    Result<FusionW<T>, Error>)
    requires
        f.wf(),
    ensures
        outcome(r) == fusion_loaded::<T>(f.contents(), f@, name@, has_rc1, features),
        r matches Ok(s) ==> s.wf(features as int, 2 * features) && s.outc.oc == features,
{
    reveal(fusion_loaded);
    let rc1: Option<ResConvUnitW<T>> = if has_rc1 {
        match load_unit(f, joined(name, ".rc1").as_str(), features) {
            Err(e) => {
                return Err(e);
            },
            Ok(u) => Some(u),
        }
    } else {
        None
    };
    let rc2: ResConvUnitW<T> = match load_unit(f, joined(name, ".rc2").as_str(), features) {
        Err(e) => {
            return Err(e);
        },
        Ok(u) => u,
    };
    match load_conv1x1(f, joined(name, ".out").as_str(), features, features) {
        Err(e) => Err(e),
        Ok(outc) => Ok(FusionW { rc1, rc2, outc }),
    }
}

/// Four of a kind.
pub struct Four<A>(pub A, pub A, pub A, pub A);

impl<A: View> View for Four<A> {
    type V = Four<A::V>;

    open spec fn view(&self) -> Four<A::V> {
        Four(self.0@, self.1@, self.2@, self.3@)
    }
}

/// The four fusion stages below `at`, whose names end in `suffix`.
#[verifier::opaque]
pub open spec fn fusions_loaded<T: Scalar>(
    bytes: Seq<u8>,
    header: Header,
    at: Seq<char>,
    suffix: Seq<char>,
    features: usize,
) -> Result<Four<FusionData<T>>, Fault> {
    match fusion_loaded::<T>(bytes, header, at + "scratch.rn1"@ + suffix, true, features) {
        Err(e) => Err(e),
        Ok(a) => match fusion_loaded::<T>(
            bytes,
            header,
            at + "scratch.rn2"@ + suffix,
            true,
            features,
        ) {
            Err(e) => Err(e),
            Ok(b) => match fusion_loaded::<T>(
                bytes,
                header,
                at + "scratch.rn3"@ + suffix,
                true,
                features,
            ) {
                Err(e) => Err(e),
                Ok(c) => match fusion_loaded::<T>(
                    bytes,
                    header,
                    at + "scratch.rn4"@ + suffix,
                    false,
                    features,
                ) {
                    Err(e) => Err(e),
                    Ok(d) => Ok(Four(a, b, c, d)),
                },
            },
        },
    }
}

fn stage_name(at: &str, stage: &str, suffix: &str) -> (s: String)
    ensures
        s@ == at@ + stage@ + suffix@,
{
    joined(joined(at, stage).as_str(), suffix)
}

/// Reads the four fusion stages below `at`, whose names end in `suffix`.
pub fn load_fusions<T: Scalar>(f: &GgufFile, at: &str, suffix: &str, features: usize) -> (r: Result<
    Four<FusionW<T>>,
    Error,
>)
    requires
        f.wf(),
    ensures
        outcome(r) == fusions_loaded::<T>(f.contents(), f@, at@, suffix@, features),
        r matches Ok(s) ==> {
            &&& s.0.wf(features as int, 2 * features) && s.0.outc.oc == features
            &&& s.1.wf(features as int, 2 * features) && s.1.outc.oc == features
            &&& s.2.wf(features as int, 2 * features) && s.2.outc.oc == features
            &&& s.3.wf(features as int, 2 * features) && s.3.outc.oc == features
        },
{
    reveal(fusions_loaded);
    let a: FusionW<T> = match load_fusion(
        f,
        stage_name(at, "scratch.rn1", suffix).as_str(),
        true,
        features,
    ) {
        Err(e) => {
            return Err(e);
        },
        Ok(s) => s,
    };
    let b: FusionW<T> = match load_fusion(
        f,
        stage_name(at, "scratch.rn2", suffix).as_str(),
        true,
        features,
    ) {
        Err(e) => {
            return Err(e);
        },
        Ok(s) => s,
    };
    let c: FusionW<T> = match load_fusion(
        f,
        stage_name(at, "scratch.rn3", suffix).as_str(),
        true,
        features,
    ) {
        Err(e) => {
            return Err(e);
        },
        Ok(s) => s,
    };
    match load_fusion(f, stage_name(at, "scratch.rn4", suffix).as_str(), false, features) {
        Err(e) => Err(e),
        Ok(d) => Ok(Four(a, b, c, d)),
    }
}

/// The stem of a decoder: projections, resizing, laterals and fusion stages.
pub struct Stem<T> {
    pub proj: Four<Conv1x1W<T>>,
    pub resize0: ConvTransposeW<T>,
    pub resize1: ConvTransposeW<T>,
    pub resize3: Conv3x3W<T>,
    pub layer_rn: Four<Conv3x3W<T>>,
    pub rn: Four<FusionW<T>>,
}

/// What a [`Stem`] holds.
pub struct StemData<T> {
    pub proj: Four<ConvData<T>>,
    pub resize0: ConvTransposeData<T>,
    pub resize1: ConvTransposeData<T>,
    pub resize3: ConvData<T>,
    pub layer_rn: Four<ConvData<T>>,
    pub rn: Four<FusionData<T>>,
}

impl<T> View for Stem<T> {
    type V = StemData<T>;

    open spec fn view(&self) -> StemData<T> {
        StemData {
            proj: self.proj@,
            resize0: self.resize0@,
            resize1: self.resize1@,
            resize3: self.resize3@,
            layer_rn: self.layer_rn@,
            rn: self.rn@,
        }
    }
}

impl<T> Stem<T> {
    /// The layers fit together.
    pub open spec fn wf(&self, ins: int, oc: [usize; 4], f: int) -> bool {
        &&& self.proj.0.wf(ins + oc[0]) && self.proj.0.ic == ins && self.proj.0.oc == oc[0]
        &&& self.proj.1.wf(ins + oc[1]) && self.proj.1.ic == ins && self.proj.1.oc == oc[1]
        &&& self.proj.2.wf(ins + oc[2]) && self.proj.2.ic == ins && self.proj.2.oc == oc[2]
        &&& self.proj.3.wf(ins + oc[3]) && self.proj.3.ic == ins && self.proj.3.oc == oc[3]
        &&& self.resize0.wf(oc[0] as int) && self.resize0.in_c == oc[0] && self.resize0.out_c
            == oc[0] && self.resize0.k == 4
        &&& self.resize1.wf(oc[1] as int) && self.resize1.in_c == oc[1] && self.resize1.out_c
            == oc[1] && self.resize1.k == 2
        &&& self.resize3.wf(2 * oc[3]) && self.resize3.ic == oc[3] && self.resize3.oc == oc[3]
        &&& self.layer_rn.0.wf(f + oc[0]) && self.layer_rn.0.ic == oc[0] && self.layer_rn.0.oc == f
        &&& self.layer_rn.1.wf(f + oc[1]) && self.layer_rn.1.ic == oc[1] && self.layer_rn.1.oc == f
        &&& self.layer_rn.2.wf(f + oc[2]) && self.layer_rn.2.ic == oc[2] && self.layer_rn.2.oc == f
        &&& self.layer_rn.3.wf(f + oc[3]) && self.layer_rn.3.ic == oc[3] && self.layer_rn.3.oc == f
        &&& self.rn.0.wf(f, 2 * f) && self.rn.0.outc.oc == f
        &&& self.rn.1.wf(f, 2 * f) && self.rn.1.outc.oc == f
        &&& self.rn.2.wf(f, 2 * f) && self.rn.2.outc.oc == f
        &&& self.rn.3.wf(f, 2 * f) && self.rn.3.outc.oc == f
    }
}

/// The four projections below `at`.
#[verifier::opaque]
pub open spec fn projections_loaded<T: Scalar>(
    bytes: Seq<u8>,
    header: Header,
    at: Seq<char>,
    ins: usize,
    oc: [usize; 4],
) -> Result<Four<ConvData<T>>, Fault> {
    match conv_loaded::<T>(bytes, header, at + "proj.0"@, oc[0], ins, 1) {
        Err(e) => Err(e),
        Ok(a) => match conv_loaded::<T>(bytes, header, at + "proj.1"@, oc[1], ins, 1) {
            Err(e) => Err(e),
            Ok(b) => match conv_loaded::<T>(bytes, header, at + "proj.2"@, oc[2], ins, 1) {
                Err(e) => Err(e),
                Ok(c) => match conv_loaded::<T>(bytes, header, at + "proj.3"@, oc[3], ins, 1) {
                    Err(e) => Err(e),
                    Ok(d) => Ok(Four(a, b, c, d)),
                },
            },
        },
    }
}

fn load_projections<T: Scalar>(f: &GgufFile, at: &str, ins: usize, oc: [usize; 4]) -> (r: Result<
    Four<Conv1x1W<T>>,
    Error,
>)
    requires
        f.wf(),
    ensures
        outcome(r) == projections_loaded::<T>(f.contents(), f@, at@, ins, oc),
        r matches Ok(p) ==> {
            &&& p.0.wf(ins + oc[0]) && p.0.ic == ins && p.0.oc == oc[0]
            &&& p.1.wf(ins + oc[1]) && p.1.ic == ins && p.1.oc == oc[1]
            &&& p.2.wf(ins + oc[2]) && p.2.ic == ins && p.2.oc == oc[2]
            &&& p.3.wf(ins + oc[3]) && p.3.ic == ins && p.3.oc == oc[3]
        },
{
    reveal(projections_loaded);
    let a: Conv1x1W<T> = match load_conv1x1(f, joined(at, "proj.0").as_str(), oc[0], ins) {
        Err(e) => {
            return Err(e);
        },
        Ok(w) => w,
    };
    let b: Conv1x1W<T> = match load_conv1x1(f, joined(at, "proj.1").as_str(), oc[1], ins) {
        Err(e) => {
            return Err(e);
        },
        Ok(w) => w,
    };
    let c: Conv1x1W<T> = match load_conv1x1(f, joined(at, "proj.2").as_str(), oc[2], ins) {
        Err(e) => {
            return Err(e);
        },
        Ok(w) => w,
    };
    match load_conv1x1(f, joined(at, "proj.3").as_str(), oc[3], ins) {
        Err(e) => Err(e),
        Ok(d) => Ok(Four(a, b, c, d)),
    }
}

/// The four laterals below `at`.
#[verifier::opaque]
pub open spec fn laterals_loaded<T: Scalar>(
    bytes: Seq<u8>,
    header: Header,
    at: Seq<char>,
    features: usize,
    oc: [usize; 4],
) -> Result<Four<ConvData<T>>, Fault> {
    match bare_loaded::<T>(bytes, header, at + "scratch.layer1_rn"@, features, oc[0]) {
        Err(e) => Err(e),
        Ok(a) => match bare_loaded::<T>(
            bytes,
            header,
            at + "scratch.layer2_rn"@,
            features,
            oc[1],
        ) {
            Err(e) => Err(e),
            Ok(b) => match bare_loaded::<T>(
                bytes,
                header,
                at + "scratch.layer3_rn"@,
                features,
                oc[2],
            ) {
                Err(e) => Err(e),
                Ok(c) => match bare_loaded::<T>(
                    bytes,
                    header,
                    at + "scratch.layer4_rn"@,
                    features,
                    oc[3],
                ) {
                    Err(e) => Err(e),
                    Ok(d) => Ok(Four(a, b, c, d)),
                },
            },
        },
    }
}

fn load_laterals<T: Scalar>(f: &GgufFile, at: &str, features: usize, oc: [usize; 4]) -> (r: Result<
    Four<Conv3x3W<T>>,
    Error,
>)
    requires
        f.wf(),
    ensures
        outcome(r) == laterals_loaded::<T>(f.contents(), f@, at@, features, oc),
        r matches Ok(p) ==> {
            &&& p.0.wf(features + oc[0]) && p.0.ic == oc[0] && p.0.oc == features
            &&& p.1.wf(features + oc[1]) && p.1.ic == oc[1] && p.1.oc == features
            &&& p.2.wf(features + oc[2]) && p.2.ic == oc[2] && p.2.oc == features
            &&& p.3.wf(features + oc[3]) && p.3.ic == oc[3] && p.3.oc == features
        },
{
    reveal(laterals_loaded);
    let a: Conv3x3W<T> = match load_bare3x3(
        f,
        joined(at, "scratch.layer1_rn").as_str(),
        features,
        oc[0],
    ) {
        Err(e) => {
            return Err(e);
        },
        Ok(w) => w,
    };
    let b: Conv3x3W<T> = match load_bare3x3(
        f,
        joined(at, "scratch.layer2_rn").as_str(),
        features,
        oc[1],
    ) {
        Err(e) => {
            return Err(e);
        },
        Ok(w) => w,
    };
    let c: Conv3x3W<T> = match load_bare3x3(
        f,
        joined(at, "scratch.layer3_rn").as_str(),
        features,
        oc[2],
    ) {
        Err(e) => {
            return Err(e);
        },
        Ok(w) => w,
    };
    match load_bare3x3(f, joined(at, "scratch.layer4_rn").as_str(), features, oc[3]) {
        Err(e) => Err(e),
        Ok(d) => Ok(Four(a, b, c, d)),
    }
}

/// The stem below `at`.
#[verifier::opaque]
pub open spec fn stem_loaded<T: Scalar>(
    bytes: Seq<u8>,
    header: Header,
    at: Seq<char>,
    ins: usize,
    oc: [usize; 4],
    features: usize,
) -> Result<StemData<T>, Fault> {
    match projections_loaded::<T>(bytes, header, at, ins, oc) {
        Err(e) => Err(e),
        Ok(proj) => match conv_t_loaded::<T>(bytes, header, at + "resize.0"@, oc[0], 4) {
            Err(e) => Err(e),
            Ok(resize0) => match conv_t_loaded::<T>(bytes, header, at + "resize.1"@, oc[1], 2) {
                Err(e) => Err(e),
                Ok(resize1) => match conv_loaded::<T>(
                    bytes,
                    header,
                    at + "resize.3"@,
                    oc[3],
                    oc[3],
                    3,
                ) {
                    Err(e) => Err(e),
                    Ok(resize3) => match laterals_loaded::<T>(bytes, header, at, features, oc) {
                        Err(e) => Err(e),
                        Ok(layer_rn) => match fusions_loaded::<T>(
                            bytes,
                            header,
                            at,
                            Seq::empty(),
                            features,
                        ) {
                            Err(e) => Err(e),
                            Ok(rn) => Ok(
                                StemData { proj, resize0, resize1, resize3, layer_rn, rn },
                            ),
                        },
                    },
                },
            },
        },
    }
}

/// Reads the stem below `at`: projections of `ins` channels to `oc`, and a
/// pyramid of `features` channels.
pub fn load_stem<T: Scalar>(
    f: &GgufFile,
    at: &str,
    ins: usize,
    oc: [usize; 4],
    features: usize,
) -> (r: Result<Stem<T>, Error>)
    requires
        f.wf(),
    ensures
        outcome(r) == stem_loaded::<T>(f.contents(), f@, at@, ins, oc, features),
        r matches Ok(s) ==> s.wf(ins as int, oc, features as int),
{
    reveal(stem_loaded);
    let proj: Four<Conv1x1W<T>> = match load_projections(f, at, ins, oc) {
        Err(e) => {
            return Err(e);
        },
        Ok(p) => p,
    };
    let resize0: ConvTransposeW<T> = match load_conv_transpose(
        f,
        joined(at, "resize.0").as_str(),
        oc[0],
        4,
    ) {
        Err(e) => {
            return Err(e);
        },
        Ok(w) => w,
    };
    let resize1: ConvTransposeW<T> = match load_conv_transpose(
        f,
        joined(at, "resize.1").as_str(),
        oc[1],
        2,
    ) {
        Err(e) => {
            return Err(e);
        },
        Ok(w) => w,
    };
    let resize3: Conv3x3W<T> = match load_conv3x3(
        f,
        joined(at, "resize.3").as_str(),
        oc[3],
        oc[3],
    ) {
        Err(e) => {
            return Err(e);
        },
        Ok(w) => w,
    };
    let layer_rn: Four<Conv3x3W<T>> = match load_laterals(f, at, features, oc) {
        Err(e) => {
            return Err(e);
        },
        Ok(w) => w,
    };
    let none: String = String::new();
    assert(none@ =~= Seq::empty());
    match load_fusions(f, at, none.as_str(), features) {
        Err(e) => Err(e),
        Ok(rn) => Ok(Stem { proj, resize0, resize1, resize3, layer_rn, rn }),
    }
}

/// The weight and bias `name` where they are there: without the weight there are
/// none.
#[verifier::opaque]
pub open spec fn optional_pair_loaded<T: Scalar>(
    bytes: Seq<u8>,
    header: Header,
    name: Seq<char>,
    shape: Seq<usize>,
    outs: usize,
) -> Result<Option<PairData<T>>, Fault> {
    match loaded::<T>(bytes, header, name + ".weight"@, shape) {
        Err(_) => Ok(None),
        Ok(weight) => match loaded::<T>(bytes, header, name + ".bias"@, seq![outs]) {
            Err(e) => Err(e),
            Ok(bias) => Ok(Some(PairData { weight, bias })),
        },
    }
}

/// Reads a weight and bias that may be missing.
pub fn load_optional_pair<T: Scalar>(f: &GgufFile, name: &str, shape: &[usize], outs: usize) -> (r:
    Result<Option<Pair<T>>, Error>)
    requires
        f.wf(),
    ensures
        match r {
            Err(e) => optional_pair_loaded::<T>(f.contents(), f@, name@, shape@, outs) == Err::<
                Option<PairData<T>>,
                Fault,
            >(e@),
            Ok(None) => optional_pair_loaded::<T>(f.contents(), f@, name@, shape@, outs) == Ok::<
                Option<PairData<T>>,
                Fault,
            >(None),
            Ok(Some(p)) => optional_pair_loaded::<T>(f.contents(), f@, name@, shape@, outs) == Ok::<
                Option<PairData<T>>,
                Fault,
            >(Some(p@)) && p.weight.len() == shape_size(shape@) && p.bias.len() == outs,
        },
{
    reveal(optional_pair_loaded);
    let weight: Vec<T> = match load_tensor(f, joined(name, ".weight").as_str(), shape) {
        Err(_) => {
            return Ok(None);
        },
        Ok(v) => v,
    };
    let row: [usize; 1] = [outs];
    proof {
        assert(row@ =~= seq![outs]);
        lemma_sizes(row@);
    }
    match load_tensor(f, joined(name, ".bias").as_str(), row.as_slice()) {
        Err(e) => Err(e),
        Ok(bias) => Ok(Some(Pair { weight, bias })),
    }
}

} // verus!
