//! Which tensor of a file each weight of a model is.

use crate::attention::{attention_loaded, norm_loaded};
use crate::backbone::{around_loaded, loaded_either, pos_embed_loaded};
use crate::cam_pose::layers_loaded;
use crate::dpt_head::{
    aux_loaded, dyn_loaded, outputs_stored, outs_loaded, ray_conv_name, ray_convs_loaded,
    sky_loaded,
};
use crate::dpt_weights::{
    bare_loaded, conv_loaded, conv_t_loaded, fusion_loaded, fusions_loaded, laterals_loaded,
    optional_pair_loaded, projections_loaded, stem_loaded, unit_loaded, ConvData,
    ConvTransposeData, FusionData, StemData, UnitData,
};
use crate::error::Fault;
use crate::fast_dpt::conv_t_source;
use crate::gguf::{tensor_result, Header};
use crate::gs_head::gs_head_loaded;
use crate::index::{lemma_split, lemma_within};
use crate::scalar::Scalar;
use crate::tinyblas::packed;
use crate::weights::{linear_loaded, loaded, pair_loaded, PairData};
use vstd::prelude::*;

verus! {

/// A file has a tensor with this name, of this shape with the slowest dimension first, and
/// `v` is what it holds.
pub open spec fn tensor_from<T: Scalar>(
    bytes: Seq<u8>,
    header: Header,
    name: Seq<char>,
    shape: Seq<usize>,
    v: Seq<T>,
) -> bool {
    &&& header.tensors.contains_key(name)
    &&& header.tensors[name].ne.len() == shape.len()
    &&& forall|i: int|
        0 <= i < shape.len() ==> #[trigger] shape[i] == header.tensors[name].ne[shape.len() - 1 - i]
    &&& tensor_result::<T>(bytes, header, name) == Ok::<Seq<T>, Fault>(v)
}

/// A pair of tensors, a weight and a bias.
pub open spec fn pair_from<T: Scalar>(
    bytes: Seq<u8>,
    header: Header,
    name: Seq<char>,
    shape: Seq<usize>,
    outs: usize,
    p: PairData<T>,
) -> bool {
    &&& tensor_from(bytes, header, name + ".weight"@, shape, p.weight)
    &&& tensor_from(bytes, header, name + ".bias"@, seq![outs], p.bias)
}

/// A `k` by `k` convolution, `[outputs, inputs, k, k]` in the file.
pub open spec fn conv_from<T: Scalar>(
    bytes: Seq<u8>,
    header: Header,
    name: Seq<char>,
    oc: usize,
    ic: usize,
    k: usize,
    c: ConvData<T>,
) -> bool {
    &&& tensor_from(bytes, header, name + ".weight"@, seq![oc, ic, k, k], c.weight)
    &&& tensor_from(bytes, header, name + ".bias"@, seq![oc], c.bias)
    &&& c.ic == ic
    &&& c.oc == oc
}

/// Weights that a linear layer holds column by column, and a file row by row.
pub open spec fn turned<T>(held: Seq<T>, stored: Seq<T>, outs: int, ins: int) -> bool {
    &&& held.len() == ins * outs
    &&& forall|i: int, o: int|
        0 <= i < ins && 0 <= o < outs ==> #[trigger] held[i * outs + o] == stored[o * ins + i]
}

/// A linear layer, `[outputs, inputs]` in the file.
pub open spec fn linear_from<T: Scalar>(
    bytes: Seq<u8>,
    header: Header,
    name: Seq<char>,
    outs: usize,
    ins: usize,
    w: Seq<T>,
    b: Seq<T>,
) -> bool {
    &&& exists|v: Seq<T>|
        #[trigger] turned(w, v, outs as int, ins as int) && tensor_from(
            bytes,
            header,
            name + ".weight"@,
            seq![outs, ins],
            v,
        )
    &&& tensor_from(bytes, header, name + ".bias"@, seq![outs], b)
}

proof fn lemma_loaded<T: Scalar>(
    bytes: Seq<u8>,
    header: Header,
    name: Seq<char>,
    shape: Seq<usize>,
)
    ensures
        loaded::<T>(bytes, header, name, shape) matches Ok(v) ==> tensor_from(
            bytes,
            header,
            name,
            shape,
            v,
        ),
{
    reveal(loaded);
}

proof fn lemma_pair<T: Scalar>(
    bytes: Seq<u8>,
    header: Header,
    name: Seq<char>,
    shape: Seq<usize>,
    outs: usize,
)
    ensures
        pair_loaded::<T>(bytes, header, name, shape, outs) matches Ok(p) ==> pair_from(
            bytes,
            header,
            name,
            shape,
            outs,
            p,
        ),
{
    reveal(pair_loaded);
    lemma_loaded::<T>(bytes, header, name + ".weight"@, shape);
    lemma_loaded::<T>(bytes, header, name + ".bias"@, seq![outs]);
}

proof fn lemma_turned<T>(v: Seq<T>, outs: int, ins: int)
    requires
        0 <= outs,
        0 <= ins,
    ensures
        turned(packed(v, ins, outs), v, outs, ins),
{
    let r = packed(v, ins, outs);
    assert(0 <= ins * outs) by (nonlinear_arith)
        requires
            0 <= ins,
            0 <= outs,
    ;
    assert forall|i: int, o: int| 0 <= i < ins && 0 <= o < outs implies #[trigger] r[i * outs + o]
        == v[o * ins + i] by {
        lemma_within(i, ins, o, outs);
        lemma_split(i, outs, o);
    }
}

/// The two weights of a linear layer are those of its name.
pub proof fn law_linear_weights<T: Scalar>(
    bytes: Seq<u8>,
    header: Header,
    name: Seq<char>,
    outs: usize,
    ins: usize,
)
    ensures
        linear_loaded::<T>(bytes, header, name, outs, ins) matches Ok(l) ==> {
            &&& linear_from(bytes, header, name, outs, ins, l.w, l.b)
            &&& l.ins == ins
            &&& l.outs == outs
        },
{
    reveal(linear_loaded);
    lemma_pair::<T>(bytes, header, name, seq![outs, ins], outs);
    match pair_loaded::<T>(bytes, header, name, seq![outs, ins], outs) {
        Ok(p) => {
            lemma_turned(p.weight, outs as int, ins as int);
        },
        Err(_) => {},
    }
}

/// The camera network of a file: two layers, then one each for the translation, the
/// quaternion and the fields of view.
pub proof fn law_camera_weights<T: Scalar>(
    bytes: Seq<u8>,
    header: Header,
    hidden: usize,
    d: usize,
)
    ensures
        layers_loaded::<T>(bytes, header, hidden, d) matches Ok(c) ==> {
            &&& linear_from(bytes, header, "cam.bb0"@, hidden, d, c.bb0.w, c.bb0.b)
            &&& linear_from(bytes, header, "cam.bb2"@, hidden, hidden, c.bb2.w, c.bb2.b)
            &&& linear_from(bytes, header, "cam.fc_t"@, 3, hidden, c.fc_t.w, c.fc_t.b)
            &&& linear_from(bytes, header, "cam.fc_q"@, 4, hidden, c.fc_q.w, c.fc_q.b)
            &&& linear_from(bytes, header, "cam.fc_fov"@, 2, hidden, c.fc_fov.w, c.fc_fov.b)
        },
{
    reveal(layers_loaded);
    law_linear_weights::<T>(bytes, header, "cam.bb0"@, hidden, d);
    law_linear_weights::<T>(bytes, header, "cam.bb2"@, hidden, hidden);
    law_linear_weights::<T>(bytes, header, "cam.fc_t"@, 3, hidden);
    law_linear_weights::<T>(bytes, header, "cam.fc_q"@, 4, hidden);
    law_linear_weights::<T>(bytes, header, "cam.fc_fov"@, 2, hidden);
}

/// The attention of a block: one layer for queries, keys and values, one behind the heads,
/// and norms of queries and keys where the file has both tensors of them.
pub proof fn law_attention_weights<T: Scalar>(
    bytes: Seq<u8>,
    header: Header,
    at: Seq<char>,
    embed: usize,
    d: usize,
)
    requires
        3 * embed <= usize::MAX,
    ensures
        attention_loaded::<T>(bytes, header, at, embed, d) matches Ok(a) ==> {
            &&& linear_from(
                bytes,
                header,
                at + "attn_qkv"@,
                (3 * embed) as usize,
                embed,
                a.qkv_w,
                a.qkv_b,
            )
            &&& linear_from(bytes, header, at + "attn_proj"@, embed, embed, a.proj_w, a.proj_b)
            &&& a.q_norm matches Some(n) ==> pair_from(
                bytes,
                header,
                at + "attn_qnorm"@,
                seq![d],
                d,
                PairData { weight: n.0, bias: n.1 },
            )
            &&& a.k_norm matches Some(n) ==> pair_from(
                bytes,
                header,
                at + "attn_knorm"@,
                seq![d],
                d,
                PairData { weight: n.0, bias: n.1 },
            )
        },
{
    reveal(attention_loaded);
    reveal(norm_loaded);
    let wide = (3 * embed) as usize;
    lemma_pair::<T>(bytes, header, at + "attn_qkv"@, seq![wide, embed], wide);
    lemma_pair::<T>(bytes, header, at + "attn_proj"@, seq![embed, embed], embed);
    lemma_pair::<T>(bytes, header, at + "attn_qnorm"@, seq![d], d);
    lemma_pair::<T>(bytes, header, at + "attn_knorm"@, seq![d], d);
    match pair_loaded::<T>(bytes, header, at + "attn_qkv"@, seq![wide, embed], wide) {
        Ok(p) => {
            lemma_turned(p.weight, wide as int, embed as int);
        },
        Err(_) => {},
    }
    match pair_loaded::<T>(bytes, header, at + "attn_proj"@, seq![embed, embed], embed) {
        Ok(p) => {
            lemma_turned(p.weight, embed as int, embed as int);
        },
        Err(_) => {},
    }
}

/// A convolution's two tensors are those of its name.
pub proof fn law_convolution_weights<T: Scalar>(
    bytes: Seq<u8>,
    header: Header,
    name: Seq<char>,
    oc: usize,
    ic: usize,
    k: usize,
)
    ensures
        conv_loaded::<T>(bytes, header, name, oc, ic, k) matches Ok(c) ==> conv_from(
            bytes,
            header,
            name,
            oc,
            ic,
            k,
            c,
        ),
{
    reveal(conv_loaded);
    lemma_pair::<T>(bytes, header, name, seq![oc, ic, k, k], oc);
}

/// A lateral convolution has no bias in the file, and none in the model.
pub proof fn law_lateral_weights<T: Scalar>(
    bytes: Seq<u8>,
    header: Header,
    name: Seq<char>,
    oc: usize,
    ic: usize,
)
    ensures
        bare_loaded::<T>(bytes, header, name, oc, ic) matches Ok(c) ==> {
            &&& tensor_from(bytes, header, name + ".weight"@, seq![oc, ic, 3, 3], c.weight)
            &&& c.bias.len() == oc
            &&& forall|i: int| 0 <= i < oc ==> #[trigger] c.bias[i] == T::ratio_spec(0, 1)
            &&& c.ic == ic
            &&& c.oc == oc
        },
{
    reveal(bare_loaded);
    lemma_loaded::<T>(bytes, header, name + ".weight"@, seq![oc, ic, 3, 3]);
}

/// Where input `i`, row `y`, column `x`, output `o` of a spreading convolution is held.
pub open spec fn held_at(i: int, o: int, y: int, x: int, ch: int, k: int) -> int {
    ((i * k + y) * k + x) * ch + o
}

/// Where the file has it.
pub open spec fn stored_at(i: int, o: int, y: int, x: int, ch: int, k: int) -> int {
    ((i * ch + o) * k + y) * k + x
}

/// A spreading convolution: the file has `[inputs, outputs, k, k]`, the model holds the
/// outputs together.
pub proof fn law_spreading_weights<T: Scalar>(
    bytes: Seq<u8>,
    header: Header,
    name: Seq<char>,
    ch: usize,
    k: usize,
    v: Seq<T>,
    i: int,
    o: int,
    y: int,
    x: int,
)
    requires
        tensor_result::<T>(bytes, header, name + ".weight"@) == Ok::<Seq<T>, Fault>(v),
        v.len() == ch * ch * k * k,
        0 <= i < ch,
        0 <= o < ch,
        0 <= y < k,
        0 <= x < k,
    ensures
        conv_t_loaded::<T>(bytes, header, name, ch, k) matches Ok(c) ==> {
            &&& tensor_from(bytes, header, name + ".weight"@, seq![ch, ch, k, k], v)
            &&& tensor_from(bytes, header, name + ".bias"@, seq![ch], c.bias)
            &&& c.weight[held_at(i, o, y, x, ch as int, k as int)] == v[stored_at(
                i,
                o,
                y,
                x,
                ch as int,
                k as int,
            )]
        },
{
    reveal(conv_t_loaded);
    lemma_pair::<T>(bytes, header, name, seq![ch, ch, k, k], ch);
    let (c, n) = (ch as int, k as int);
    let d = held_at(i, o, y, x, c, n);
    lemma_split((i * n + y) * n + x, c, o);
    lemma_split(i * n + y, n, x);
    lemma_split(i, n, y);
    lemma_within(i, c, y, n);
    lemma_within(i * n + y, c * n, x, n);
    lemma_within((i * n + y) * n + x, c * n * n, o, c);
    assert(c * c * n * n == c * n * n * c) by (nonlinear_arith);
    assert(conv_t_source(d, c, n) == stored_at(i, o, y, x, c, n));
}

/// The two convolutions of a residual unit.
pub open spec fn unit_from<T: Scalar>(
    bytes: Seq<u8>,
    header: Header,
    name: Seq<char>,
    n: usize,
    u: UnitData<T>,
) -> bool {
    &&& conv_from(bytes, header, name + ".c1"@, n, n, 3, u.c1)
    &&& conv_from(bytes, header, name + ".c2"@, n, n, 3, u.c2)
}

proof fn lemma_unit<T: Scalar>(bytes: Seq<u8>, header: Header, name: Seq<char>, n: usize)
    ensures
        unit_loaded::<T>(bytes, header, name, n) matches Ok(u) ==> unit_from(
            bytes,
            header,
            name,
            n,
            u,
        ),
{
    reveal(unit_loaded);
    law_convolution_weights::<T>(bytes, header, name + ".c1"@, n, n, 3);
    law_convolution_weights::<T>(bytes, header, name + ".c2"@, n, n, 3);
}

/// A fusion: two residual units, the first only where there is something to merge, and a
/// convolution of single pixels.
pub open spec fn fusion_from<T: Scalar>(
    bytes: Seq<u8>,
    header: Header,
    name: Seq<char>,
    merges: bool,
    n: usize,
    f: FusionData<T>,
) -> bool {
    &&& merges == (f.rc1 is Some)
    &&& merges ==> unit_from(bytes, header, name + ".rc1"@, n, f.rc1->0)
    &&& unit_from(bytes, header, name + ".rc2"@, n, f.rc2)
    &&& conv_from(bytes, header, name + ".out"@, n, n, 1, f.outc)
}

proof fn lemma_fusion<T: Scalar>(
    bytes: Seq<u8>,
    header: Header,
    name: Seq<char>,
    merges: bool,
    n: usize,
)
    ensures
        fusion_loaded::<T>(bytes, header, name, merges, n) matches Ok(f) ==> fusion_from(
            bytes,
            header,
            name,
            merges,
            n,
            f,
        ),
{
    reveal(fusion_loaded);
    lemma_unit::<T>(bytes, header, name + ".rc1"@, n);
    lemma_unit::<T>(bytes, header, name + ".rc2"@, n);
    law_convolution_weights::<T>(bytes, header, name + ".out"@, n, n, 1);
}

/// The four fusions of a decoder; the fourth is the coarsest and merges nothing.
pub proof fn law_fusion_weights<T: Scalar>(
    bytes: Seq<u8>,
    header: Header,
    at: Seq<char>,
    suffix: Seq<char>,
    n: usize,
)
    ensures
        fusions_loaded::<T>(bytes, header, at, suffix, n) matches Ok(f) ==> {
            &&& fusion_from(bytes, header, at + "scratch.rn1"@ + suffix, true, n, f.0)
            &&& fusion_from(bytes, header, at + "scratch.rn2"@ + suffix, true, n, f.1)
            &&& fusion_from(bytes, header, at + "scratch.rn3"@ + suffix, true, n, f.2)
            &&& fusion_from(bytes, header, at + "scratch.rn4"@ + suffix, false, n, f.3)
        },
{
    reveal(fusions_loaded);
    lemma_fusion::<T>(bytes, header, at + "scratch.rn1"@ + suffix, true, n);
    lemma_fusion::<T>(bytes, header, at + "scratch.rn2"@ + suffix, true, n);
    lemma_fusion::<T>(bytes, header, at + "scratch.rn3"@ + suffix, true, n);
    lemma_fusion::<T>(bytes, header, at + "scratch.rn4"@ + suffix, false, n);
}

/// A convolution without bias.
pub open spec fn bare_from<T: Scalar>(
    bytes: Seq<u8>,
    header: Header,
    name: Seq<char>,
    oc: usize,
    ic: usize,
    c: ConvData<T>,
) -> bool {
    &&& tensor_from(bytes, header, name + ".weight"@, seq![oc, ic, 3, 3], c.weight)
    &&& c.ic == ic
    &&& c.oc == oc
}

/// The part that both kinds of decoder have: of each of four features a projection; a
/// spreading convolution by four for the first and by two for the second, and a stepping one
/// for the fourth; of each a lateral convolution; and the fusions.
pub proof fn law_stem_weights<T: Scalar>(
    bytes: Seq<u8>,
    header: Header,
    at: Seq<char>,
    ins: usize,
    oc: [usize; 4],
    n: usize,
)
    ensures
        stem_loaded::<T>(bytes, header, at, ins, oc, n) matches Ok(s) ==> {
            &&& conv_from(bytes, header, at + "proj.0"@, oc[0], ins, 1, s.proj.0)
            &&& conv_from(bytes, header, at + "proj.1"@, oc[1], ins, 1, s.proj.1)
            &&& conv_from(bytes, header, at + "proj.2"@, oc[2], ins, 1, s.proj.2)
            &&& conv_from(bytes, header, at + "proj.3"@, oc[3], ins, 1, s.proj.3)
            &&& conv_t_loaded::<T>(bytes, header, at + "resize.0"@, oc[0], 4) == Ok::<
                ConvTransposeData<T>,
                Fault,
            >(s.resize0)
            &&& conv_t_loaded::<T>(bytes, header, at + "resize.1"@, oc[1], 2) == Ok::<
                ConvTransposeData<T>,
                Fault,
            >(s.resize1)
            &&& conv_from(bytes, header, at + "resize.3"@, oc[3], oc[3], 3, s.resize3)
            &&& bare_from(bytes, header, at + "scratch.layer1_rn"@, n, oc[0], s.layer_rn.0)
            &&& bare_from(bytes, header, at + "scratch.layer2_rn"@, n, oc[1], s.layer_rn.1)
            &&& bare_from(bytes, header, at + "scratch.layer3_rn"@, n, oc[2], s.layer_rn.2)
            &&& bare_from(bytes, header, at + "scratch.layer4_rn"@, n, oc[3], s.layer_rn.3)
            &&& fusion_from(bytes, header, at + "scratch.rn1"@, true, n, s.rn.0)
            &&& fusion_from(bytes, header, at + "scratch.rn2"@, true, n, s.rn.1)
            &&& fusion_from(bytes, header, at + "scratch.rn3"@, true, n, s.rn.2)
            &&& fusion_from(bytes, header, at + "scratch.rn4"@, false, n, s.rn.3)
        },
{
    reveal(stem_loaded);
    reveal(projections_loaded);
    reveal(laterals_loaded);
    law_convolution_weights::<T>(bytes, header, at + "proj.0"@, oc[0], ins, 1);
    law_convolution_weights::<T>(bytes, header, at + "proj.1"@, oc[1], ins, 1);
    law_convolution_weights::<T>(bytes, header, at + "proj.2"@, oc[2], ins, 1);
    law_convolution_weights::<T>(bytes, header, at + "proj.3"@, oc[3], ins, 1);
    law_convolution_weights::<T>(bytes, header, at + "resize.3"@, oc[3], oc[3], 3);
    law_lateral_weights::<T>(bytes, header, at + "scratch.layer1_rn"@, n, oc[0]);
    law_lateral_weights::<T>(bytes, header, at + "scratch.layer2_rn"@, n, oc[1]);
    law_lateral_weights::<T>(bytes, header, at + "scratch.layer3_rn"@, n, oc[2]);
    law_lateral_weights::<T>(bytes, header, at + "scratch.layer4_rn"@, n, oc[3]);
    let none = Seq::<char>::empty();
    law_fusion_weights::<T>(bytes, header, at, none, n);
    assert(at + "scratch.rn1"@ + none =~= at + "scratch.rn1"@);
    assert(at + "scratch.rn2"@ + none =~= at + "scratch.rn2"@);
    assert(at + "scratch.rn3"@ + none =~= at + "scratch.rn3"@);
    assert(at + "scratch.rn4"@ + none =~= at + "scratch.rn4"@);
}

/// The output convolutions of a depth decoder, and those of the sky where the file has them.
pub proof fn law_output_weights<T: Scalar>(
    bytes: Seq<u8>,
    header: Header,
    at: Seq<char>,
    n: usize,
    half: usize,
)
    ensures
        outs_loaded::<T>(bytes, header, at, n, half) matches Ok(o) ==> {
            &&& conv_from(bytes, header, at + "scratch.out1"@, half, n, 3, o.out1)
            &&& conv_from(bytes, header, at + "scratch.out2a"@, 32, half, 3, o.out2a)
            &&& some_conv_from(bytes, header, at + "scratch.out2b"@, 1, o.out2b)
            &&& o.out2b.ic == 32
            &&& o.sky matches Some(s) ==> {
                &&& conv_from(bytes, header, at + "scratch.sky_out2a"@, 32, half, 3, s.0)
                &&& conv_from(bytes, header, at + "scratch.sky_out2b"@, 1, 32, 1, s.1)
            }
        },
{
    reveal(outs_loaded);
    reveal(outputs_stored);
    reveal(sky_loaded);
    reveal(optional_pair_loaded);
    law_convolution_weights::<T>(bytes, header, at + "scratch.out1"@, half, n, 3);
    law_convolution_weights::<T>(bytes, header, at + "scratch.out2a"@, 32, half, 3);
    match outputs_stored(header, at) {
        Ok(outs) => {
            law_convolution_weights::<T>(bytes, header, at + "scratch.out2b"@, outs, 32, 1);
            match conv_loaded::<T>(bytes, header, at + "scratch.out2b"@, outs, 32, 1) {
                Ok(c) => {
                    assert(conv_from(bytes, header, at + "scratch.out2b"@, outs, 32, 1, c));
                },
                Err(_) => {},
            }
        },
        Err(_) => {},
    }
    let sky = at + "scratch.sky_out2a"@;
    lemma_loaded::<T>(bytes, header, sky + ".weight"@, seq![32usize, half, 3, 3]);
    lemma_loaded::<T>(bytes, header, sky + ".bias"@, seq![32usize]);
    law_convolution_weights::<T>(bytes, header, at + "scratch.sky_out2b"@, 1, 32, 1);
}

/// A convolution of as many inputs and outputs as the file says.
pub open spec fn some_conv_from<T: Scalar>(
    bytes: Seq<u8>,
    header: Header,
    name: Seq<char>,
    k: usize,
    c: ConvData<T>,
) -> bool {
    exists|oc: usize, ic: usize| #[trigger] conv_from(bytes, header, name, oc, ic, k, c)
}

proof fn lemma_dyn<T: Scalar>(
    bytes: Seq<u8>,
    header: Header,
    at: Seq<char>,
    name: Seq<char>,
    k: usize,
)
    ensures
        dyn_loaded::<T>(bytes, header, at, name, k) matches Ok(c) ==> some_conv_from(
            bytes,
            header,
            at + "scratch."@ + name,
            k,
            c,
        ),
{
    reveal(dyn_loaded);
    let base = at + "scratch."@ + name;
    let full = base + ".weight"@;
    if header.tensors.contains_key(full) {
        let ne = header.tensors[full].ne;
        law_convolution_weights::<T>(bytes, header, base, ne[3] as usize, ne[2] as usize, k);
    }
}

/// What follows a decoder's name in that of ray convolution `i`.
pub open spec fn ray_name(i: int) -> Seq<char> {
    "out1_aux."@.push((48 + i) as char)
}

proof fn lemma_ray_name(i: int)
    requires
        0 <= i < 5,
    ensures
        ray_conv_name(i) == ray_name(i),
{
    reveal_strlit("out1_aux.");
    reveal_strlit("out1_aux.0");
    reveal_strlit("out1_aux.1");
    reveal_strlit("out1_aux.2");
    reveal_strlit("out1_aux.3");
    reveal_strlit("out1_aux.4");
    assert(ray_conv_name(i) =~= ray_name(i));
}

proof fn lemma_ray_convs<T: Scalar>(
    bytes: Seq<u8>,
    header: Header,
    at: Seq<char>,
    n: nat,
    i: int,
)
    requires
        n <= 5,
        0 <= i,
    ensures
        ray_convs_loaded::<T>(bytes, header, at, n) matches Ok(c) ==> {
            &&& c.len() == n
            &&& i < n ==> some_conv_from(bytes, header, at + "scratch."@ + ray_name(i), 3, c[i])
        },
    decreases n,
{
    reveal_with_fuel(ray_convs_loaded, 2);
    if n > 0 {
        lemma_ray_convs::<T>(bytes, header, at, (n - 1) as nat, i);
        lemma_ray_name(n - 1);
        lemma_dyn::<T>(bytes, header, at, ray_conv_name(n - 1), 3);
        match ray_convs_loaded::<T>(bytes, header, at, n) {
            Ok(c) => {
                let before = ray_convs_loaded::<T>(bytes, header, at, (n - 1) as nat)->Ok_0;
                assert(c == before.push(c.last()));
            },
            Err(_) => {},
        }
    }
}

/// The decoder of the rays has fusions of its own, five convolutions in the order of their
/// numbers, and two more with a norm between.
pub proof fn law_ray_weights<T: Scalar>(
    bytes: Seq<u8>,
    header: Header,
    at: Seq<char>,
    n: usize,
    i: int,
)
    requires
        0 <= i < 5,
    ensures
        aux_loaded::<T>(bytes, header, at, n) matches Ok(a) ==> {
            &&& fusion_from(bytes, header, at + "scratch.rn1"@ + "_aux"@, true, n, a.rn.0)
            &&& fusion_from(bytes, header, at + "scratch.rn2"@ + "_aux"@, true, n, a.rn.1)
            &&& fusion_from(bytes, header, at + "scratch.rn3"@ + "_aux"@, true, n, a.rn.2)
            &&& fusion_from(bytes, header, at + "scratch.rn4"@ + "_aux"@, false, n, a.rn.3)
            &&& a.out1.len() == 5
            &&& some_conv_from(bytes, header, at + "scratch."@ + ray_name(i), 3, a.out1[i])
            &&& some_conv_from(bytes, header, at + "scratch."@ + "out2a_aux"@, 3, a.out2a)
            &&& pair_from(bytes, header, at + "scratch.out2_aux_ln"@, seq![32], 32, a.ln)
            &&& some_conv_from(bytes, header, at + "scratch."@ + "out2b_aux"@, 1, a.out2b)
        },
{
    reveal(aux_loaded);
    law_fusion_weights::<T>(bytes, header, at, "_aux"@, n);
    lemma_ray_convs::<T>(bytes, header, at, 5, i);
    lemma_dyn::<T>(bytes, header, at, "out2a_aux"@, 3);
    lemma_dyn::<T>(bytes, header, at, "out2b_aux"@, 1);
    lemma_pair::<T>(bytes, header, at + "scratch.out2_aux_ln"@, seq![32usize], 32);
}

/// The Gaussian decoder: its stem, three output convolutions and the three of the colours.
pub proof fn law_gaussian_weights<T: Scalar>(bytes: Seq<u8>, header: Header, ins: usize)
    ensures
        gs_head_loaded::<T>(bytes, header, ins) matches Ok(g) ==> {
            &&& stem_loaded::<T>(bytes, header, "gs."@, ins, [256, 512, 1024, 1024], 256) == Ok::<
                StemData<T>,
                Fault,
            >(g.stem)
            &&& conv_from(bytes, header, "gs.scratch.out1"@, 128, 256, 3, g.out1)
            &&& conv_from(bytes, header, "gs.scratch.out2a"@, 32, 128, 3, g.out2a)
            &&& conv_from(bytes, header, "gs.scratch.out2b"@, 38, 32, 1, g.out2b)
            &&& conv_from(bytes, header, "gs.merger.0"@, 32, 3, 3, g.merger.0)
            &&& conv_from(bytes, header, "gs.merger.1"@, 64, 32, 3, g.merger.1)
            &&& conv_from(bytes, header, "gs.merger.2"@, 128, 64, 3, g.merger.2)
        },
{
    reveal(gs_head_loaded);
    law_convolution_weights::<T>(bytes, header, "gs.scratch.out1"@, 128, 256, 3);
    law_convolution_weights::<T>(bytes, header, "gs.scratch.out2a"@, 32, 128, 3);
    law_convolution_weights::<T>(bytes, header, "gs.scratch.out2b"@, 38, 32, 1);
    law_convolution_weights::<T>(bytes, header, "gs.merger.0"@, 32, 3, 3);
    law_convolution_weights::<T>(bytes, header, "gs.merger.1"@, 64, 32, 3);
    law_convolution_weights::<T>(bytes, header, "gs.merger.2"@, 128, 64, 3);
}

/// What stands around the blocks: the patch embedding, the two tokens, the positional
/// embedding and the last norm.
pub proof fn law_backbone_weights<T: Scalar>(
    bytes: Seq<u8>,
    header: Header,
    prefix: Seq<char>,
    embed: usize,
    patch: usize,
    grid: usize,
)
    ensures
        around_loaded::<T>(bytes, header, prefix, embed, patch, grid) matches Ok(f) ==> {
            &&& pair_from(
                bytes,
                header,
                prefix + "vit.patch_embed"@,
                seq![embed, 3, patch, patch],
                embed,
                f.patch,
            )
            &&& tensor_result::<T>(bytes, header, prefix + "vit.cls_token"@) == Ok::<
                Seq<T>,
                Fault,
            >(f.cls_token)
            &&& tensor_result::<T>(bytes, header, prefix + "vit.camera_token"@) == Ok::<
                Seq<T>,
                Fault,
            >(f.camera_token)
            &&& tensor_result::<T>(bytes, header, prefix + "vit.pos_embed"@) == Ok::<
                Seq<T>,
                Fault,
            >(f.pos_embed_raw)
            &&& f.pos_embed_raw.len() == (1 + grid * grid) * embed
            &&& pair_from(bytes, header, prefix + "vit.norm"@, seq![embed], embed, f.norm)
        },
{
    reveal(around_loaded);
    reveal(loaded_either);
    reveal(pos_embed_loaded);
    lemma_pair::<T>(
        bytes,
        header,
        prefix + "vit.patch_embed"@,
        seq![embed, 3usize, patch, patch],
        embed,
    );
    lemma_loaded::<T>(bytes, header, prefix + "vit.cls_token"@, seq![embed]);
    lemma_loaded::<T>(bytes, header, prefix + "vit.cls_token"@, seq![1usize, embed]);
    lemma_loaded::<T>(bytes, header, prefix + "vit.camera_token"@, seq![2usize, embed]);
    lemma_loaded::<T>(bytes, header, prefix + "vit.camera_token"@, seq![embed]);
    lemma_pair::<T>(bytes, header, prefix + "vit.norm"@, seq![embed], embed);
}

} // verus!
