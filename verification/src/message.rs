//! Errors in words.

use crate::error::{Error, Fault, GgufError, ModelError};
use crate::gs_adapter::BuildError;
use crate::text::{decimal, decimal_signed, digits, signed_digits};
use vstd::prelude::*;
use vstd::string::*;

verus! {

/// The hexadecimal digit for `d`.
pub open spec fn hex_digit(d: nat) -> char {
    if d < 10 {
        (48 + d) as char
    } else {
        (87 + d) as char
    }
}

/// The last `width` hexadecimal digits of `n`.
pub open spec fn hex_digits(n: nat, width: nat) -> Seq<char>
    decreases width,
{
    if width == 0 {
        Seq::empty()
    } else {
        hex_digits(n / 16, (width - 1) as nat).push(hex_digit(n % 16))
    }
}

fn hex_text(d: u32) -> (r: &'static str)
    requires
        d < 16,
    ensures
        r@ == seq![hex_digit(d as nat)],
{
    proof {
        reveal_strlit("0");
        reveal_strlit("1");
        reveal_strlit("2");
        reveal_strlit("3");
        reveal_strlit("4");
        reveal_strlit("5");
        reveal_strlit("6");
        reveal_strlit("7");
        reveal_strlit("8");
        reveal_strlit("9");
        reveal_strlit("a");
        reveal_strlit("b");
        reveal_strlit("c");
        reveal_strlit("d");
        reveal_strlit("e");
        reveal_strlit("f");
    }
    let r: &'static str = match d {
        0 => "0",
        1 => "1",
        2 => "2",
        3 => "3",
        4 => "4",
        5 => "5",
        6 => "6",
        7 => "7",
        8 => "8",
        9 => "9",
        10 => "a",
        11 => "b",
        12 => "c",
        13 => "d",
        14 => "e",
        _ => "f",
    };
    assert(r@ =~= seq![hex_digit(d as nat)]);
    r
}

fn hex(n: u32, width: u32) -> (r: String)
    ensures
        r@ == hex_digits(n as nat, width as nat),
    decreases width,
{
    if width == 0 {
        String::new()
    } else {
        let mut s: String = hex(n / 16, width - 1);
        s.append(hex_text(n % 16));
        assert(s@ =~= hex_digits(n as nat, width as nat));
        s
    }
}

/// The sizes of a tensor with its slowest dimension first; `ne` holds them with
/// the fastest first.
pub open spec fn shape_list(ne: Seq<u64>) -> Seq<char>
    decreases ne.len(),
{
    if ne.len() == 0 {
        Seq::empty()
    } else if ne.len() == 1 {
        digits(ne[0] as nat)
    } else {
        digits(ne.last() as nat) + ", "@ + shape_list(ne.drop_last())
    }
}

fn shape_text(ne: &[u64], n: usize) -> (r: String)
    requires
        n <= ne.len(),
    ensures
        r@ == shape_list(ne@.take(n as int)),
    decreases n,
{
    if n == 0 {
        String::new()
    } else if n == 1 {
        decimal(ne[0])
    } else {
        assert(ne@.take(n as int).drop_last() =~= ne@.take(n - 1));
        text3(decimal(ne[n - 1]).as_str(), ", ", shape_text(ne, n - 1).as_str())
    }
}

/// What went wrong, in words.
pub open spec fn message_of(f: Fault) -> Seq<char> {
    match f {
        Fault::UnexpectedEnd { len, needed } => "gguf error: unexpected end of GGUF header at byte "@
            + digits(len) + " (needed "@ + digits(needed) + ")"@,
        Fault::BadMagic(m) => "gguf error: bad magic: 0x"@ + hex_digits(m as nat, 8),
        Fault::UnsupportedVersion(v) => "gguf error: unsupported GGUF version "@ + digits(v as nat)
            + " (need 2 or 3)"@,
        Fault::UnknownValueType(k) => "gguf error: unknown value type for key "@ + k,
        Fault::UnknownInnerType => "gguf error: array with unknown inner type"@,
        Fault::NestedArray => "gguf error: nested arrays are not supported"@,
        Fault::InvalidUtf8 => "gguf error: invalid utf8 in gguf string"@,
        Fault::UnsupportedDType { name, dtype } => "gguf error: tensor "@ + name
            + ": unsupported dtype "@ + digits(dtype as nat),
        Fault::AlignmentOverflow(a) => "gguf error: tensor data cannot be aligned to "@ + digits(
            a as nat,
        ),
        Fault::Truncated { needed } => "gguf error: tensor data truncated: needed "@ + digits(needed)
            + " bytes"@,
        Fault::Oversized(name) => "gguf error: tensor "@ + name + " is too large"@,
        Fault::MissingKey { prefix, field } => "gguf error: missing "@ + prefix + "."@ + field,
        Fault::TensorNotFound(name) => "model error: tensor not found: "@ + name,
        Fault::InconsistentDims { num_heads, head_dim, embed_dim } =>
            "model error: inconsistent dims: num_heads("@ + digits(num_heads as nat)
            + ") * head_dim("@ + digits(head_dim as nat) + ") != embed_dim("@ + digits(
            embed_dim as nat,
        ) + ")"@,
        Fault::Missing(name) => "model error: missing "@ + name,
        Fault::MissingRays(name) => "model error: aux head: missing "@ + name + ".weight"@,
        Fault::NoViews => "model error: forward_mv: empty view batch"@,
        Fault::NoImages => "model error: depth_pose_multi: no images"@,
        Fault::ViewSizeMismatch { index, height, width, first_height, first_width } =>
            "model error: depth_pose_multi: view "@ + digits(index) + " preprocesses to "@ + digits(
            height,
        ) + "x"@ + digits(width) + ", expected "@ + digits(first_height) + "x"@ + digits(
            first_width,
        ),
        Fault::NotPatchAligned { height, width, patch } =>
            "model error: nested metric: processed dims "@ + digits(height) + "x"@ + digits(width)
            + " not divisible by metric patch_size "@ + digits(patch),
        Fault::PosEmbedLength { got, want } => "model error: vit.pos_embed: expected "@ + digits(
            want,
        ) + " elements, got "@ + digits(got),
        Fault::PoseLength { got } => "model error: pose_enc needs 9 values, got "@ + digits(got),
        Fault::FieldLength { array, expected, got } => "model error: "@ + field_message(
            array,
            expected,
            got,
        ),
        Fault::PoseShape { shape, width } =>
            "model error: cam.bb0.weight: unexpected shape ["@ + shape_list(shape)
            + "], expected [hidden, "@ + digits(width) + "]"@,
        Fault::ConvDims { name, shape } => "model error: conv weight "@ + name
            + ": expected 4 dims, got ["@ + shape_list(shape) + "]"@,
        Fault::BadShape(name) => "model error: tensor "@ + name + " has an unexpected shape"@,
        Fault::NoBias(name) => "model error: "@ + name + " has no bias"@,
        Fault::LayerNotCaptured(l) => "model error: out_layer "@ + signed_digits(l as int)
            + " not captured"@,
        Fault::NoOutLayers => "model error: no out_layers captured for camera token"@,
        Fault::BadOutput => "model error: a decoder's layers do not fit its output"@,
        Fault::GaussianOutput { channels, height, width } =>
            "model error: gs_head: expected logits [1, 38, H, W], got [1, "@ + digits(channels)
            + ", "@ + digits(height) + ", "@ + digits(width) + "]"@,
        Fault::NoSky =>
            "model error: nested metric: metric branch produced no sky map (expected head.scratch.sky_out2b)"@,
        Fault::NestedLoad { part, cause } => "model error: nested metric "@ + part
            + " load failed: "@ + cause,
        Fault::Unimplemented(what) => "not yet implemented: "@ + what,
    }
}

/// What is said of an array of a Gaussian field with a wrong length.
pub open spec fn field_message(name: Seq<char>, expected: nat, got: nat) -> Seq<char> {
    "gs_adapter: "@ + name + " expected length "@ + digits(expected) + ", got "@ + digits(got)
}

fn text2(a: &str, b: &str) -> (s: String)
    ensures
        s@ == a@ + b@,
{
    let mut s: String = a.to_owned();
    s.append(b);
    s
}

fn text3(a: &str, b: &str, c: &str) -> (s: String)
    ensures
        s@ == a@ + b@ + c@,
{
    let mut s: String = text2(a, b);
    s.append(c);
    s
}

fn num(n: usize) -> (s: String)
    ensures
        s@ == digits(n as nat),
{
    decimal(n as u64)
}

fn field_text(name: &str, expected: usize, got: usize) -> (s: String)
    ensures
        s@ == field_message(name@, expected as nat, got as nat),
{
    let mut s: String = text3("gs_adapter: ", name, " expected length ");
    s.append(num(expected).as_str());
    s.append(", got ");
    s.append(num(got).as_str());
    s
}

fn gguf_message(g: &GgufError) -> (s: String)
    ensures
        s@ == message_of(Error::Gguf(*g)@),
{
    match g {
        GgufError::UnexpectedEnd { len, needed } => {
            let mut s: String = text3(
                "gguf error: unexpected end of GGUF header at byte ",
                num(*len).as_str(),
                " (needed ",
            );
            s.append(decimal(*needed).as_str());
            s.append(")");
            s
        },
        GgufError::BadMagic(m) => text2("gguf error: bad magic: 0x", hex(*m, 8).as_str()),
        GgufError::UnsupportedVersion(v) => text3(
            "gguf error: unsupported GGUF version ",
            decimal(*v as u64).as_str(),
            " (need 2 or 3)",
        ),
        GgufError::UnknownValueType(k) => text2(
            "gguf error: unknown value type for key ",
            k.as_str(),
        ),
        GgufError::UnknownInnerType => "gguf error: array with unknown inner type".to_owned(),
        GgufError::NestedArray => "gguf error: nested arrays are not supported".to_owned(),
        GgufError::InvalidUtf8 => "gguf error: invalid utf8 in gguf string".to_owned(),
        GgufError::UnsupportedDType { name, dtype } => {
            let mut s: String = text3(
                "gguf error: tensor ",
                name.as_str(),
                ": unsupported dtype ",
            );
            s.append(decimal(*dtype as u64).as_str());
            s
        },
        GgufError::AlignmentOverflow(a) => text2(
            "gguf error: tensor data cannot be aligned to ",
            decimal(*a).as_str(),
        ),
        GgufError::Truncated { needed } => text3(
            "gguf error: tensor data truncated: needed ",
            decimal(*needed).as_str(),
            " bytes",
        ),
        GgufError::Oversized(name) => text3(
            "gguf error: tensor ",
            name.as_str(),
            " is too large",
        ),
        GgufError::MissingKey { prefix, field } => {
            let mut s: String = text3("gguf error: missing ", prefix.as_str(), ".");
            s.append(field.as_str());
            s
        },
    }
}

fn model_message(m: &ModelError) -> (s: String)
    ensures
        s@ == message_of(Error::Model(*m)@),
{
    match m {
        ModelError::TensorNotFound(name) => text2(
            "model error: tensor not found: ",
            name.as_str(),
        ),
        ModelError::InconsistentDims { num_heads, head_dim, embed_dim } => {
            let mut s: String = text3(
                "model error: inconsistent dims: num_heads(",
                decimal(*num_heads as u64).as_str(),
                ") * head_dim(",
            );
            s.append(decimal(*head_dim as u64).as_str());
            s.append(") != embed_dim(");
            s.append(decimal(*embed_dim as u64).as_str());
            s.append(")");
            s
        },
        ModelError::Missing(name) => text2("model error: missing ", name.as_str()),
        ModelError::MissingRays(name) => text3(
            "model error: aux head: missing ",
            name.as_str(),
            ".weight",
        ),
        ModelError::NoViews => "model error: forward_mv: empty view batch".to_owned(),
        ModelError::NoImages => "model error: depth_pose_multi: no images".to_owned(),
        ModelError::ViewSizeMismatch { index, height, width, first_height, first_width } => {
            let mut s: String = text3(
                "model error: depth_pose_multi: view ",
                num(*index).as_str(),
                " preprocesses to ",
            );
            s.append(num(*height).as_str());
            s.append("x");
            s.append(num(*width).as_str());
            s.append(", expected ");
            s.append(num(*first_height).as_str());
            s.append("x");
            s.append(num(*first_width).as_str());
            s
        },
        ModelError::NotPatchAligned { height, width, patch } => {
            let mut s: String = text3(
                "model error: nested metric: processed dims ",
                num(*height).as_str(),
                "x",
            );
            s.append(num(*width).as_str());
            s.append(" not divisible by metric patch_size ");
            s.append(num(*patch).as_str());
            s
        },
        ModelError::PosEmbedLength { got, want } => {
            let mut s: String = text3(
                "model error: vit.pos_embed: expected ",
                num(*want).as_str(),
                " elements, got ",
            );
            s.append(num(*got).as_str());
            s
        },
        ModelError::PoseLength { got } => text2(
            "model error: pose_enc needs 9 values, got ",
            num(*got).as_str(),
        ),
        ModelError::FieldLength { array, expected, got } => text2(
            "model error: ",
            field_text(array, *expected, *got).as_str(),
        ),
        ModelError::PoseShape { shape, width } => {
            assert(shape@.take(shape.len() as int) =~= shape@);
            let mut s: String = text3(
                "model error: cam.bb0.weight: unexpected shape [",
                shape_text(shape.as_slice(), shape.len()).as_str(),
                "], expected [hidden, ",
            );
            s.append(num(*width).as_str());
            s.append("]");
            s
        },
        ModelError::ConvDims { name, shape } => {
            assert(shape@.take(shape.len() as int) =~= shape@);
            let mut s: String = text3(
                "model error: conv weight ",
                name.as_str(),
                ": expected 4 dims, got [",
            );
            s.append(shape_text(shape.as_slice(), shape.len()).as_str());
            s.append("]");
            s
        },
        ModelError::BadShape(name) => text3(
            "model error: tensor ",
            name.as_str(),
            " has an unexpected shape",
        ),
        ModelError::NoBias(name) => text3("model error: ", name.as_str(), " has no bias"),
        ModelError::LayerNotCaptured(l) => text3(
            "model error: out_layer ",
            decimal_signed(*l as i64).as_str(),
            " not captured",
        ),
        ModelError::NoOutLayers => "model error: no out_layers captured for camera token".to_owned(),
        ModelError::BadOutput => "model error: a decoder's layers do not fit its output".to_owned(),
        ModelError::GaussianOutput { channels, height, width } => {
            let mut s: String = text3(
                "model error: gs_head: expected logits [1, 38, H, W], got [1, ",
                num(*channels).as_str(),
                ", ",
            );
            s.append(num(*height).as_str());
            s.append(", ");
            s.append(num(*width).as_str());
            s.append("]");
            s
        },
        ModelError::NoSky =>
            "model error: nested metric: metric branch produced no sky map (expected head.scratch.sky_out2b)".to_owned(),
        ModelError::NestedLoad { part, cause } => {
            let mut s: String = text3("model error: nested metric ", part, " load failed: ");
            s.append(cause.as_str());
            s
        },
    }
}

impl Error {
    /// What went wrong, in words.
    pub fn message(&self) -> (s: String)
        ensures
            s@ == message_of(self@),
    {
        match self {
            Error::Gguf(g) => gguf_message(g),
            Error::Model(m) => model_message(m),
            Error::Unimplemented(what) => text2("not yet implemented: ", what.as_str()),
        }
    }
}

impl BuildError {
    /// What went wrong, in words.
    pub fn message(&self) -> (s: String)
        ensures
            match *self {
                BuildError::BadInputLen { name, expected, got } => s@ == field_message(
                    name@,
                    expected as nat,
                    got as nat,
                ),
            },
    {
        match self {
            BuildError::BadInputLen { name, expected, got } => field_text(name, *expected, *got),
        }
    }
}

} // verus!
