//! Model configuration, read from the metadata of a model file.

use crate::error::{Error, Fault, GgufError, ModelError};
use crate::gguf::{ArrayContents, Contents, GgufFile, MetaArray, MetaValue};
use crate::gguf::outcome;
use crate::scalar::{zero, Scalar};
use vstd::prelude::*;
use vstd::string::*;

verus! {

/// Which Depth Anything architecture a model has.
#[derive(Clone, Copy, Debug, PartialEq, Eq, Structural)]
pub enum Arch {
    /// Depth Anything 3 (default).
    Da3,
    /// Depth Anything V2 (depth only).
    Da2,
}

/// Whether two texts are the same.
pub(crate) fn same_text(a: &str, b: &str) -> (r: bool)
    ensures
        r == (a@ == b@),
{
    a.to_owned() == b.to_owned()
}

/// The architecture with the given name; anything unknown is the default.
pub open spec fn arch_of(s: Seq<char>) -> Arch {
    if s == "depthanything2"@ {
        Arch::Da2
    } else {
        Arch::Da3
    }
}

impl Arch {
    pub fn parse(s: &str) -> (r: Self)
        ensures
            r == arch_of(s@),
    {
        if same_text(s, "depthanything2") {
            Arch::Da2
        } else {
            Arch::Da3
        }
    }
}

/// Feed-forward network type of the transformer blocks.
#[derive(Clone, Copy, Debug, PartialEq, Eq, Structural)]
pub enum FfnType {
    /// fc1, GELU, fc2.
    Mlp,
    /// Gated: `silu(a) * b`, then a projection.
    Swiglu,
}

/// The network type with the given name; anything unknown is the default.
pub open spec fn ffn_type_of(s: Seq<char>) -> FfnType {
    if s == "swiglu"@ {
        FfnType::Swiglu
    } else {
        FfnType::Mlp
    }
}

impl FfnType {
    pub fn parse(s: &str) -> (r: Self)
        ensures
            r == ffn_type_of(s@),
    {
        if same_text(s, "swiglu") {
            FfnType::Swiglu
        } else {
            FfnType::Mlp
        }
    }
}

/// How an image is resized to the processing resolution.
#[derive(Clone, Copy, Debug, PartialEq, Eq, Structural)]
pub enum ResizeMode {
    /// The longest side is bounded above by the target.
    UpperBound,
    /// The shortest side is bounded below by the target.
    LowerBound,
}

/// The mode with the given name; anything unknown is the default.
pub open spec fn resize_mode_of(s: Seq<char>) -> ResizeMode {
    if s == "lower_bound"@ {
        ResizeMode::LowerBound
    } else {
        ResizeMode::UpperBound
    }
}

impl ResizeMode {
    pub fn parse(s: &str) -> (r: Self)
        ensures
            r == resize_mode_of(s@),
    {
        if same_text(s, "lower_bound") {
            ResizeMode::LowerBound
        } else {
            ResizeMode::UpperBound
        }
    }
}

/// The full model configuration.
#[derive(Debug)]
pub struct Config<T> {
    pub patch_size: u32,
    pub embed_dim: u32,
    pub depth: u32,
    pub num_heads: u32,
    pub head_dim: u32,
    pub mlp_hidden: u32,
    /// Read for compatibility; nothing consults it.
    pub num_register: u32,
    /// The stored positional embedding covers a grid of this many patches a side.
    pub pos_embed_grid: u32,
    /// The block at which the camera token is injected and from which odd blocks
    /// are global; negative where there is none.
    pub alt_start: i32,
    /// The first block that applies rotary embedding; negative where none does.
    pub rope_start: i32,
    /// Read for compatibility; nothing consults it.
    pub qknorm_start: i32,
    pub init_values: T,
    /// Base frequency of the rotary embedding.
    pub rope_freq: T,
    /// Epsilon of the block norms and the final norm.
    pub ln_eps: T,
    /// Offset of the positional embedding's grid mapping.
    pub interp_offset: T,
    /// Whether the out-layer features are `[local, norm(x)]` side by side.
    pub cat_token: bool,
    pub qkv_bias: bool,
    pub interp_antialias: bool,
    /// Whether the decoder adds the UV positional embedding.
    pub head_pos_embed: bool,
    pub ffn_type: FfnType,
    pub head_features: u32,
    /// The blocks whose outputs feed the decoder.
    pub out_layers: Vec<i32>,
    /// Output channels of the four projectors.
    pub head_out_channels: Vec<i32>,
    pub img_mean: Vec<T>,
    pub img_std: Vec<T>,
    /// Target resolution of the resize.
    pub img_resize_target: u32,
    pub img_resize_mode: ResizeMode,
    pub checkpoint_name: String,
    /// Depth scale in metres; 0 for a model of relative depth.
    pub head_max_depth: T,
    pub arch: Arch,
}

/// The contents of a [`Config`].
pub struct ConfigData<T> {
    pub patch_size: u32,
    pub embed_dim: u32,
    pub depth: u32,
    pub num_heads: u32,
    pub head_dim: u32,
    pub mlp_hidden: u32,
    pub num_register: u32,
    pub pos_embed_grid: u32,
    pub alt_start: i32,
    pub rope_start: i32,
    pub qknorm_start: i32,
    pub init_values: T,
    pub rope_freq: T,
    pub ln_eps: T,
    pub interp_offset: T,
    pub cat_token: bool,
    pub qkv_bias: bool,
    pub interp_antialias: bool,
    pub head_pos_embed: bool,
    pub ffn_type: FfnType,
    pub head_features: u32,
    pub out_layers: Seq<i32>,
    pub head_out_channels: Seq<i32>,
    pub img_mean: Seq<T>,
    pub img_std: Seq<T>,
    pub img_resize_target: u32,
    pub img_resize_mode: ResizeMode,
    pub checkpoint_name: Seq<char>,
    pub head_max_depth: T,
    pub arch: Arch,
}

impl<T> View for Config<T> {
    type V = ConfigData<T>;

    open spec fn view(&self) -> ConfigData<T> {
        ConfigData {
            patch_size: self.patch_size,
            embed_dim: self.embed_dim,
            depth: self.depth,
            num_heads: self.num_heads,
            head_dim: self.head_dim,
            mlp_hidden: self.mlp_hidden,
            num_register: self.num_register,
            pos_embed_grid: self.pos_embed_grid,
            alt_start: self.alt_start,
            rope_start: self.rope_start,
            qknorm_start: self.qknorm_start,
            init_values: self.init_values,
            rope_freq: self.rope_freq,
            ln_eps: self.ln_eps,
            interp_offset: self.interp_offset,
            cat_token: self.cat_token,
            qkv_bias: self.qkv_bias,
            interp_antialias: self.interp_antialias,
            head_pos_embed: self.head_pos_embed,
            ffn_type: self.ffn_type,
            head_features: self.head_features,
            out_layers: self.out_layers@,
            head_out_channels: self.head_out_channels@,
            img_mean: self.img_mean@,
            img_std: self.img_std@,
            img_resize_target: self.img_resize_target,
            img_resize_mode: self.img_resize_mode,
            checkpoint_name: self.checkpoint_name@,
            head_max_depth: self.head_max_depth,
            arch: self.arch,
        }
    }
}

/// What a configuration holds before anything is read.
pub open spec fn default_config<T: Scalar>() -> ConfigData<T> {
    ConfigData {
        patch_size: 14,
        embed_dim: 0,
        depth: 0,
        num_heads: 0,
        head_dim: 0,
        mlp_hidden: 0,
        num_register: 0,
        pos_embed_grid: 0,
        alt_start: (-1) as i32,
        rope_start: (-1) as i32,
        qknorm_start: (-1) as i32,
        init_values: zero(),
        rope_freq: T::ratio_spec(100, 1),
        ln_eps: T::ratio_spec(1, 1_000_000),
        interp_offset: T::ratio_spec(1, 10),
        cat_token: true,
        qkv_bias: true,
        interp_antialias: false,
        head_pos_embed: true,
        ffn_type: FfnType::Mlp,
        head_features: 0,
        out_layers: Seq::empty(),
        head_out_channels: Seq::empty(),
        img_mean: Seq::empty(),
        img_std: Seq::empty(),
        img_resize_target: 504,
        img_resize_mode: ResizeMode::UpperBound,
        checkpoint_name: Seq::empty(),
        head_max_depth: zero(),
        arch: Arch::Da3,
    }
}

impl<T: Scalar> Default for Config<T> {
    fn default() -> (r: Self)
        ensures
            r@ == default_config::<T>(),
    {
        let r = Config {
            patch_size: 14,
            embed_dim: 0,
            depth: 0,
            num_heads: 0,
            head_dim: 0,
            mlp_hidden: 0,
            num_register: 0,
            pos_embed_grid: 0,
            alt_start: -1,
            rope_start: -1,
            qknorm_start: -1,
            init_values: T::ratio(0, 1),
            rope_freq: T::ratio(100, 1),
            ln_eps: T::ratio(1, 1_000_000),
            interp_offset: T::ratio(1, 10),
            cat_token: true,
            qkv_bias: true,
            interp_antialias: false,
            head_pos_embed: true,
            ffn_type: FfnType::Mlp,
            head_features: 0,
            out_layers: Vec::new(),
            head_out_channels: Vec::new(),
            img_mean: Vec::new(),
            img_std: Vec::new(),
            img_resize_target: 504,
            img_resize_mode: ResizeMode::UpperBound,
            checkpoint_name: String::new(),
            head_max_depth: T::ratio(0, 1),
            arch: Arch::Da3,
        };
        r
    }
}

// ---- metadata values as plain ones ----------------------------------------

/// The value under a key, if there is one.
pub open spec fn lookup(meta: Map<Seq<char>, Contents>, key: Seq<char>) -> Option<Contents> {
    if meta.contains_key(key) {
        Some(meta[key])
    } else {
        None
    }
}

/// An integer of any width, cut to 32 bits.
pub open spec fn u32_in(c: Option<Contents>) -> Option<u32> {
    match c {
        Some(Contents::U8(v)) => Some(v as u32),
        Some(Contents::U16(v)) => Some(v as u32),
        Some(Contents::U32(v)) => Some(v),
        Some(Contents::I8(v)) => Some(v as u32),
        Some(Contents::I16(v)) => Some(v as u32),
        Some(Contents::I32(v)) => Some(v as u32),
        Some(Contents::U64(v)) => Some(v as u32),
        Some(Contents::I64(v)) => Some(v as u32),
        _ => None,
    }
}

pub open spec fn i32_in(c: Option<Contents>) -> Option<i32> {
    match c {
        Some(Contents::I8(v)) => Some(v as i32),
        Some(Contents::I16(v)) => Some(v as i32),
        Some(Contents::I32(v)) => Some(v),
        Some(Contents::U8(v)) => Some(v as i32),
        Some(Contents::U16(v)) => Some(v as i32),
        Some(Contents::U32(v)) => Some(v as i32),
        Some(Contents::I64(v)) => Some(v as i32),
        Some(Contents::U64(v)) => Some(v as i32),
        _ => None,
    }
}

pub open spec fn float_in<T: Scalar>(c: Option<Contents>) -> Option<T> {
    match c {
        Some(Contents::F32(v)) => Some(T::from_bits_spec(v)),
        Some(Contents::F64(v)) => Some(T::from_double_bits_spec(v)),
        _ => None,
    }
}

pub open spec fn bool_in(c: Option<Contents>) -> Option<bool> {
    match c {
        Some(Contents::Bool(v)) => Some(v),
        _ => None,
    }
}

pub open spec fn text_in(c: Option<Contents>) -> Option<Seq<char>> {
    match c {
        Some(Contents::String(v)) => Some(v),
        _ => None,
    }
}

pub open spec fn i32s_in(c: Option<Contents>) -> Option<Seq<i32>> {
    match c {
        Some(Contents::Array(ArrayContents::I8(v))) => Some(v.map_values(|x: i8| x as i32)),
        Some(Contents::Array(ArrayContents::I32(v))) => Some(v),
        Some(Contents::Array(ArrayContents::U8(v))) => Some(v.map_values(|x: u8| x as i32)),
        Some(Contents::Array(ArrayContents::U32(v))) => Some(v.map_values(|x: u32| x as i32)),
        Some(Contents::Array(ArrayContents::I64(v))) => Some(v.map_values(|x: i64| x as i32)),
        Some(Contents::Array(ArrayContents::U64(v))) => Some(v.map_values(|x: u64| x as i32)),
        _ => None,
    }
}

pub open spec fn floats_in<T: Scalar>(c: Option<Contents>) -> Option<Seq<T>> {
    match c {
        Some(Contents::Array(ArrayContents::F32(v))) => Some(
            v.map_values(|x: u32| T::from_bits_spec(x)),
        ),
        Some(Contents::Array(ArrayContents::F64(v))) => Some(
            v.map_values(|x: u64| T::from_double_bits_spec(x)),
        ),
        _ => None,
    }
}

/// What is there, or the default.
pub open spec fn or<A>(found: Option<A>, default: A) -> A {
    match found {
        Some(v) => v,
        None => default,
    }
}

/// What a lookup in a file's metadata shows.
pub open spec fn seen(m: Option<&MetaValue>) -> Option<Contents> {
    match m {
        Some(v) => Some(v@),
        None => None,
    }
}

fn as_u32(m: Option<&MetaValue>) -> (r: Option<u32>)
    ensures
        r == u32_in(seen(m)),
{
    match m {
        Some(MetaValue::U8(v)) => Some(*v as u32),
        Some(MetaValue::U16(v)) => Some(*v as u32),
        Some(MetaValue::U32(v)) => Some(*v),
        Some(MetaValue::I8(v)) => Some(*v as u32),
        Some(MetaValue::I16(v)) => Some(*v as u32),
        Some(MetaValue::I32(v)) => Some(*v as u32),
        Some(MetaValue::U64(v)) => Some(*v as u32),
        Some(MetaValue::I64(v)) => Some(*v as u32),
        _ => None,
    }
}

fn as_i32(m: Option<&MetaValue>) -> (r: Option<i32>)
    ensures
        r == i32_in(seen(m)),
{
    match m {
        Some(MetaValue::I8(v)) => Some(*v as i32),
        Some(MetaValue::I16(v)) => Some(*v as i32),
        Some(MetaValue::I32(v)) => Some(*v),
        Some(MetaValue::U8(v)) => Some(*v as i32),
        Some(MetaValue::U16(v)) => Some(*v as i32),
        Some(MetaValue::U32(v)) => Some(*v as i32),
        Some(MetaValue::I64(v)) => Some(*v as i32),
        Some(MetaValue::U64(v)) => Some(*v as i32),
        _ => None,
    }
}

/// A float, as the scalar type in use.
fn as_float<T: Scalar>(m: Option<&MetaValue>) -> (r: Option<T>)
    ensures
        r == float_in::<T>(seen(m)),
{
    match m {
        Some(MetaValue::F32(v)) => Some(T::from_bits(*v)),
        Some(MetaValue::F64(v)) => Some(T::from_double_bits(*v)),
        _ => None,
    }
}

fn as_bool(m: Option<&MetaValue>) -> (r: Option<bool>)
    ensures
        r == bool_in(seen(m)),
{
    match m {
        Some(MetaValue::Bool(v)) => Some(*v),
        _ => None,
    }
}

fn as_str(m: Option<&MetaValue>) -> (r: Option<String>)
    ensures
        match r {
            Some(s) => text_in(seen(m)) == Some(s@),
            None => text_in(seen(m)) is None,
        },
{
    match m {
        Some(MetaValue::String(s)) => Some(s.clone()),
        _ => None,
    }
}

fn as_i32_vec(m: Option<&MetaValue>) -> (r: Option<Vec<i32>>)
    ensures
        match r {
            Some(v) => i32s_in(seen(m)) == Some(v@),
            None => i32s_in(seen(m)) is None,
        },
{
    match m {
        Some(MetaValue::Array(MetaArray::I8(v))) => {
            let mut out: Vec<i32> = Vec::new();
            let mut i: usize = 0;
            while i < v.len()
                invariant
                    i <= v.len(),
                    out.len() == i,
                    forall|k: int| 0 <= k < i ==> #[trigger] out[k] == v[k] as i32,
                decreases v.len() - i,
            {
                out.push(v[i] as i32);
                i = i + 1;
            }
            assert(out@ =~= v@.map_values(|x: i8| x as i32));
            Some(out)
        },
        Some(MetaValue::Array(MetaArray::I32(v))) => {
            let out: Vec<i32> = v.clone();
            assert(out@ =~= v@);
            Some(out)
        },
        Some(MetaValue::Array(MetaArray::U8(v))) => {
            let mut out: Vec<i32> = Vec::new();
            let mut i: usize = 0;
            while i < v.len()
                invariant
                    i <= v.len(),
                    out.len() == i,
                    forall|k: int| 0 <= k < i ==> #[trigger] out[k] == v[k] as i32,
                decreases v.len() - i,
            {
                out.push(v[i] as i32);
                i = i + 1;
            }
            assert(out@ =~= v@.map_values(|x: u8| x as i32));
            Some(out)
        },
        Some(MetaValue::Array(MetaArray::U32(v))) => {
            let mut out: Vec<i32> = Vec::new();
            let mut i: usize = 0;
            while i < v.len()
                invariant
                    i <= v.len(),
                    out.len() == i,
                    forall|k: int| 0 <= k < i ==> #[trigger] out[k] == v[k] as i32,
                decreases v.len() - i,
            {
                out.push(v[i] as i32);
                i = i + 1;
            }
            assert(out@ =~= v@.map_values(|x: u32| x as i32));
            Some(out)
        },
        Some(MetaValue::Array(MetaArray::I64(v))) => {
            let mut out: Vec<i32> = Vec::new();
            let mut i: usize = 0;
            while i < v.len()
                invariant
                    i <= v.len(),
                    out.len() == i,
                    forall|k: int| 0 <= k < i ==> #[trigger] out[k] == v[k] as i32,
                decreases v.len() - i,
            {
                out.push(v[i] as i32);
                i = i + 1;
            }
            assert(out@ =~= v@.map_values(|x: i64| x as i32));
            Some(out)
        },
        Some(MetaValue::Array(MetaArray::U64(v))) => {
            let mut out: Vec<i32> = Vec::new();
            let mut i: usize = 0;
            while i < v.len()
                invariant
                    i <= v.len(),
                    out.len() == i,
                    forall|k: int| 0 <= k < i ==> #[trigger] out[k] == v[k] as i32,
                decreases v.len() - i,
            {
                out.push(v[i] as i32);
                i = i + 1;
            }
            assert(out@ =~= v@.map_values(|x: u64| x as i32));
            Some(out)
        },
        _ => None,
    }
}

fn as_float_vec<T: Scalar>(m: Option<&MetaValue>) -> (r: Option<Vec<T>>)
    ensures
        match r {
            Some(v) => floats_in::<T>(seen(m)) == Some(v@),
            None => floats_in::<T>(seen(m)) is None,
        },
{
    match m {
        Some(MetaValue::Array(MetaArray::F32(v))) => {
            let mut out: Vec<T> = Vec::new();
            let mut i: usize = 0;
            while i < v.len()
                invariant
                    i <= v.len(),
                    out.len() == i,
                    forall|k: int| 0 <= k < i ==> #[trigger] out[k] == T::from_bits_spec(v[k]),
                decreases v.len() - i,
            {
                out.push(T::from_bits(v[i]));
                i = i + 1;
            }
            assert(out@ =~= v@.map_values(|x: u32| T::from_bits_spec(x)));
            Some(out)
        },
        Some(MetaValue::Array(MetaArray::F64(v))) => {
            let mut out: Vec<T> = Vec::new();
            let mut i: usize = 0;
            while i < v.len()
                invariant
                    i <= v.len(),
                    out.len() == i,
                    forall|k: int|
                        0 <= k < i ==> #[trigger] out[k] == T::from_double_bits_spec(v[k]),
                decreases v.len() - i,
            {
                out.push(T::from_double_bits(v[i]));
                i = i + 1;
            }
            assert(out@ =~= v@.map_values(|x: u64| T::from_double_bits_spec(x)));
            Some(out)
        },
        _ => None,
    }
}

// ---- reading ------------------------------------------------------------

/// The key `depthanything3.<prefix>.<field>`.
pub open spec fn key_of(prefix: Seq<char>, field: Seq<char>) -> Seq<char> {
    "depthanything3."@ + prefix + "."@ + field
}

fn make_key(prefix: &str, field: &str) -> (r: String)
    ensures
        r@ == key_of(prefix@, field@),
{
    let mut key: String = "depthanything3.".to_owned();
    key.append(prefix);
    key.append(".");
    key.append(field);
    key
}

/// The value under a prefixed key.
pub open spec fn field_in(
    meta: Map<Seq<char>, Contents>,
    prefix: Seq<char>,
    field: Seq<char>,
) -> Option<Contents> {
    lookup(meta, key_of(prefix, field))
}

fn field<'a, 'b>(f: &'b GgufFile<'a>, prefix: &str, name: &str) -> (r: Option<&'b MetaValue>)
    requires
        f.wf(),
    ensures
        seen(r) == field_in(f@.meta, prefix@, name@),
{
    let key: String = make_key(prefix, name);
    f.meta(key.as_str())
}

fn shared<'a, 'b>(f: &'b GgufFile<'a>, key: &str) -> (r: Option<&'b MetaValue>)
    requires
        f.wf(),
    ensures
        seen(r) == lookup(f@.meta, key@),
{
    f.meta(key)
}

/// The configuration that metadata describes, with the backbone's keys under
/// `vit` and the head's positional embedding flag under `head`. The four
/// dimensions of the backbone are required, in this order, and must agree.
pub open spec fn config_of<T: Scalar>(
    meta: Map<Seq<char>, Contents>,
    vit: Seq<char>,
    head: Seq<char>,
) -> Result<ConfigData<T>, Fault> {
    match u32_in(field_in(meta, vit, "embed_dim"@)) {
        None => Err(Fault::MissingKey { prefix: vit, field: "embed_dim"@ }),
        Some(embed_dim) => match u32_in(field_in(meta, vit, "depth"@)) {
            None => Err(Fault::MissingKey { prefix: vit, field: "depth"@ }),
            Some(depth) => match u32_in(field_in(meta, vit, "num_heads"@)) {
                None => Err(Fault::MissingKey { prefix: vit, field: "num_heads"@ }),
                Some(num_heads) => match u32_in(field_in(meta, vit, "head_dim"@)) {
                    None => Err(Fault::MissingKey { prefix: vit, field: "head_dim"@ }),
                    Some(head_dim) => if num_heads * head_dim != embed_dim {
                        Err(Fault::InconsistentDims { num_heads, head_dim, embed_dim })
                    } else {
                        Ok(config_with(meta, vit, head, embed_dim, depth, num_heads, head_dim))
                    },
                },
            },
        },
    }
}

/// The configuration with the four required dimensions given and everything
/// else from the metadata or its default.
pub open spec fn config_with<T: Scalar>(
    meta: Map<Seq<char>, Contents>,
    vit: Seq<char>,
    head: Seq<char>,
    embed_dim: u32,
    depth: u32,
    num_heads: u32,
    head_dim: u32,
) -> ConfigData<T> {
    ConfigData {
        patch_size: or(u32_in(lookup(meta, "depthanything3.patch_size"@)), 14),
        embed_dim,
        depth,
        num_heads,
        head_dim,
        mlp_hidden: or(u32_in(field_in(meta, vit, "mlp_hidden"@)), 0),
        num_register: or(u32_in(field_in(meta, vit, "num_register_tokens"@)), 0),
        pos_embed_grid: or(u32_in(field_in(meta, vit, "pos_embed_grid"@)), 0),
        alt_start: or(i32_in(field_in(meta, vit, "alt_start"@)), (-1) as i32),
        rope_start: or(i32_in(field_in(meta, vit, "rope_start"@)), (-1) as i32),
        qknorm_start: or(i32_in(field_in(meta, vit, "qknorm_start"@)), (-1) as i32),
        init_values: or(float_in(field_in(meta, vit, "init_values"@)), zero()),
        rope_freq: or(float_in(field_in(meta, vit, "rope_freq"@)), T::ratio_spec(100, 1)),
        ln_eps: or(float_in(field_in(meta, vit, "ln_eps"@)), T::ratio_spec(1, 1_000_000)),
        interp_offset: or(
            float_in(field_in(meta, vit, "interpolate_offset"@)),
            T::ratio_spec(1, 10),
        ),
        cat_token: or(bool_in(field_in(meta, vit, "cat_token"@)), true),
        qkv_bias: or(bool_in(field_in(meta, vit, "qkv_bias"@)), true),
        interp_antialias: or(bool_in(field_in(meta, vit, "interpolate_antialias"@)), false),
        head_pos_embed: or(bool_in(field_in(meta, head, "pos_embed"@)), vit == "vit"@),
        ffn_type: ffn_type_of(or(text_in(field_in(meta, vit, "ffn_type"@)), "mlp"@)),
        head_features: or(u32_in(lookup(meta, "depthanything3.head.features"@)), 0),
        out_layers: or(i32s_in(field_in(meta, vit, "out_layers"@)), Seq::empty()),
        head_out_channels: or(
            i32s_in(lookup(meta, "depthanything3.head.out_channels"@)),
            Seq::empty(),
        ),
        img_mean: or(floats_in(lookup(meta, "depthanything3.img.mean"@)), Seq::empty()),
        img_std: or(floats_in(lookup(meta, "depthanything3.img.std"@)), Seq::empty()),
        img_resize_target: or(u32_in(lookup(meta, "depthanything3.img.resize_target"@)), 504),
        img_resize_mode: resize_mode_of(
            or(text_in(lookup(meta, "depthanything3.img.resize_mode"@)), "upper_bound"@),
        ),
        checkpoint_name: or(
            text_in(lookup(meta, "depthanything3.checkpoint_name"@)),
            Seq::empty(),
        ),
        head_max_depth: or(float_in(lookup(meta, "depthanything3.head.max_depth"@)), zero()),
        arch: arch_of(or(text_in(lookup(meta, "depthanything3.arch"@)), "depthanything3"@)),
    }
}

fn or_u32(found: Option<u32>, default: u32) -> (r: u32)
    ensures
        r == or(found, default),
{
    match found {
        Some(v) => v,
        None => default,
    }
}

fn or_i32(found: Option<i32>, default: i32) -> (r: i32)
    ensures
        r == or(found, default),
{
    match found {
        Some(v) => v,
        None => default,
    }
}

fn or_bool(found: Option<bool>, default: bool) -> (r: bool)
    ensures
        r == or(found, default),
{
    match found {
        Some(v) => v,
        None => default,
    }
}

fn or_float<T: Scalar>(found: Option<T>, default: T) -> (r: T)
    ensures
        r == or(found, default),
{
    match found {
        Some(v) => v,
        None => default,
    }
}

fn missing(prefix: &str, name: &str) -> (e: Error)
    ensures
        e@ == (Fault::MissingKey { prefix: prefix@, field: name@ }),
{
    Error::Gguf(GgufError::MissingKey { prefix: prefix.to_owned(), field: name.to_owned() })
}

impl<T: Scalar> Config<T> {
    /// Half of the head dimension: the width of one rotary axis.
    pub fn rope_half(&self) -> (r: u32)
        ensures
            r == self.head_dim / 2,
    {
        self.head_dim / 2
    }

    /// Whether this is a model of metric depth.
    pub fn is_metric(&self) -> (r: bool)
        ensures
            r == zero::<T>().less_spec(self.head_max_depth),
    {
        T::ratio(0, 1).less(self.head_max_depth)
    }

    /// Half the decoder's feature width, 64 where the width is not given.
    pub open spec fn half_width(&self) -> u32 {
        if self.head_features > 0 {
            self.head_features / 2
        } else {
            64
        }
    }

    /// Half the decoder's feature width, 64 where the width is not given.
    pub fn feat_half(&self) -> (r: u32)
        ensures
            r == self.half_width(),
    {
        if self.head_features > 0 {
            self.head_features / 2
        } else {
            64
        }
    }

    /// The output channels of projector `i`.
    pub open spec fn out_channels(&self, i: int) -> u32 {
        if i < self.head_out_channels.len() {
            self.head_out_channels[i] as u32
        } else {
            default_channels(i)
        }
    }

    /// The output channels of the four projectors, each with its default.
    pub fn head_out_channels_arr(&self) -> (r: [u32; 4])
        ensures
            forall|i: int| 0 <= i < 4 ==> #[trigger] r[i] == self.out_channels(i),
    {
        let d: &Vec<i32> = &self.head_out_channels;
        let a: u32 = if d.len() > 0 {
            d[0] as u32
        } else {
            96
        };
        let b: u32 = if d.len() > 1 {
            d[1] as u32
        } else {
            192
        };
        let c: u32 = if d.len() > 2 {
            d[2] as u32
        } else {
            384
        };
        let e: u32 = if d.len() > 3 {
            d[3] as u32
        } else {
            768
        };
        [a, b, c, e]
    }

    /// Reads the configuration of a model.
    pub fn from_gguf(f: &GgufFile) -> (r: Result<Self, Error>)
        requires
            f.wf(),
        ensures
            outcome(r) == config_of::<T>(f@.meta, "vit"@, "head"@),
    {
        Config::from_gguf_with_prefix(f, "vit", "head")
    }

    /// Reads the configuration of the metric branch, whose backbone keys have
    /// the prefix `m_vit`; the other keys are shared.
    pub fn from_gguf_metric(f: &GgufFile) -> (r: Result<Self, Error>)
        requires
            f.wf(),
        ensures
            outcome(r) == config_of::<T>(f@.meta, "m_vit"@, "m_head"@),
    {
        Config::from_gguf_with_prefix(f, "m_vit", "m_head")
    }

    fn from_gguf_with_prefix(f: &GgufFile, vit_pfx: &str, head_pfx: &str) -> (r: Result<
        Self,
        Error,
    >)
        requires
            f.wf(),
        ensures
            outcome(r) == config_of::<T>(f@.meta, vit_pfx@, head_pfx@),
    {
        let embed_dim: u32 = match as_u32(field(f, vit_pfx, "embed_dim")) {
            None => {
                return Err(missing(vit_pfx, "embed_dim"));
            },
            Some(v) => v,
        };
        let depth: u32 = match as_u32(field(f, vit_pfx, "depth")) {
            None => {
                return Err(missing(vit_pfx, "depth"));
            },
            Some(v) => v,
        };
        let num_heads: u32 = match as_u32(field(f, vit_pfx, "num_heads")) {
            None => {
                return Err(missing(vit_pfx, "num_heads"));
            },
            Some(v) => v,
        };
        let head_dim: u32 = match as_u32(field(f, vit_pfx, "head_dim")) {
            None => {
                return Err(missing(vit_pfx, "head_dim"));
            },
            Some(v) => v,
        };
        let agree: bool = match num_heads.checked_mul(head_dim) {
            Some(d) => d == embed_dim,
            None => false,
        };
        if !agree {
            return Err(
                Error::Model(ModelError::InconsistentDims { num_heads, head_dim, embed_dim }),
            );
        }
        let out_layers: Vec<i32> = match as_i32_vec(field(f, vit_pfx, "out_layers")) {
            Some(v) => v,
            None => Vec::new(),
        };
        let head_out_channels: Vec<i32> = match as_i32_vec(
            shared(f, "depthanything3.head.out_channels"),
        ) {
            Some(v) => v,
            None => Vec::new(),
        };
        let img_mean: Vec<T> = match as_float_vec(shared(f, "depthanything3.img.mean")) {
            Some(v) => v,
            None => Vec::new(),
        };
        let img_std: Vec<T> = match as_float_vec(shared(f, "depthanything3.img.std")) {
            Some(v) => v,
            None => Vec::new(),
        };
        let ffn_type: FfnType = match as_str(field(f, vit_pfx, "ffn_type")) {
            Some(s) => FfnType::parse(s.as_str()),
            None => FfnType::parse("mlp"),
        };
        let img_resize_mode: ResizeMode = match as_str(
            shared(f, "depthanything3.img.resize_mode"),
        ) {
            Some(s) => ResizeMode::parse(s.as_str()),
            None => ResizeMode::parse("upper_bound"),
        };
        let checkpoint_name: String = match as_str(shared(f, "depthanything3.checkpoint_name")) {
            Some(s) => s,
            None => String::new(),
        };
        let arch: Arch = match as_str(shared(f, "depthanything3.arch")) {
            Some(s) => Arch::parse(s.as_str()),
            None => Arch::parse("depthanything3"),
        };
        let r: Config<T> = Config {
            patch_size: or_u32(as_u32(shared(f, "depthanything3.patch_size")), 14),
            embed_dim,
            depth,
            num_heads,
            head_dim,
            mlp_hidden: or_u32(as_u32(field(f, vit_pfx, "mlp_hidden")), 0),
            num_register: or_u32(as_u32(field(f, vit_pfx, "num_register_tokens")), 0),
            pos_embed_grid: or_u32(as_u32(field(f, vit_pfx, "pos_embed_grid")), 0),
            alt_start: or_i32(as_i32(field(f, vit_pfx, "alt_start")), -1),
            rope_start: or_i32(as_i32(field(f, vit_pfx, "rope_start")), -1),
            qknorm_start: or_i32(as_i32(field(f, vit_pfx, "qknorm_start")), -1),
            init_values: or_float(as_float(field(f, vit_pfx, "init_values")), T::ratio(0, 1)),
            rope_freq: or_float(as_float(field(f, vit_pfx, "rope_freq")), T::ratio(100, 1)),
            ln_eps: or_float(as_float(field(f, vit_pfx, "ln_eps")), T::ratio(1, 1_000_000)),
            interp_offset: or_float(
                as_float(field(f, vit_pfx, "interpolate_offset")),
                T::ratio(1, 10),
            ),
            cat_token: or_bool(as_bool(field(f, vit_pfx, "cat_token")), true),
            qkv_bias: or_bool(as_bool(field(f, vit_pfx, "qkv_bias")), true),
            interp_antialias: or_bool(as_bool(field(f, vit_pfx, "interpolate_antialias")), false),
            head_pos_embed: or_bool(
                as_bool(field(f, head_pfx, "pos_embed")),
                same_text(vit_pfx, "vit"),
            ),
            ffn_type,
            head_features: or_u32(as_u32(shared(f, "depthanything3.head.features")), 0),
            out_layers,
            head_out_channels,
            img_mean,
            img_std,
            img_resize_target: or_u32(as_u32(shared(f, "depthanything3.img.resize_target")), 504),
            img_resize_mode,
            checkpoint_name,
            head_max_depth: or_float(
                as_float(shared(f, "depthanything3.head.max_depth")),
                T::ratio(0, 1),
            ),
            arch,
        };
        Ok(r)
    }
}

/// The default output channels of projector `i`.
pub open spec fn default_channels(i: int) -> u32 {
    if i == 0 {
        96
    } else if i == 1 {
        192
    } else if i == 2 {
        384
    } else {
        768
    }
}

/// A configuration that was read has heads that make up its width.
pub proof fn law_dims_agree<T: Scalar>(
    meta: Map<Seq<char>, Contents>,
    vit: Seq<char>,
    head: Seq<char>,
)
    ensures
        config_of::<T>(meta, vit, head) matches Ok(c) ==> c.num_heads * c.head_dim == c.embed_dim,
{
}

} // verus!
