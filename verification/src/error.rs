//! What can go wrong.

use vstd::prelude::*;

verus! {

/// Why a model file was refused.
#[derive(Debug)]
pub enum GgufError {
    /// The header ends early: `needed` more bytes were wanted of a file of `len`.
    UnexpectedEnd { len: usize, needed: u64 },
    /// The file does not start with the magic number.
    BadMagic(u32),
    /// The container version is neither 2 nor 3.
    UnsupportedVersion(u32),
    /// The value under a metadata key has an unknown type.
    UnknownValueType(String),
    /// A metadata array has elements of an unknown type.
    UnknownInnerType,
    /// A metadata array holds arrays.
    NestedArray,
    /// A string is not valid UTF-8.
    InvalidUtf8,
    /// A tensor has an element type that cannot be read.
    UnsupportedDType { name: String, dtype: u32 },
    /// The start of the tensor data does not fit in 64 bits.
    AlignmentOverflow(u64),
    /// The tensor data ends early: `needed` bytes were wanted.
    Truncated { needed: u64 },
    /// A tensor has more elements than can be addressed.
    Oversized(String),
    /// A required metadata key is missing.
    MissingKey { prefix: String, field: String },
}

/// A required part of the model is missing or has an unexpected shape.
#[derive(Debug)]
pub enum ModelError {
    TensorNotFound(String),
    /// A tensor that a part of the model cannot do without is missing.
    Missing(String),
    /// A convolution of the ray branch is missing.
    MissingRays(String),
    /// `num_heads * head_dim` is not `embed_dim`.
    InconsistentDims { num_heads: u32, head_dim: u32, embed_dim: u32 },
    /// The backbone was given no views.
    NoViews,
    /// No images were given.
    NoImages,
    /// View `index` is processed at another size than the first one.
    ViewSizeMismatch {
        index: usize,
        height: usize,
        width: usize,
        first_height: usize,
        first_width: usize,
    },
    /// A size is not a multiple of the metric branch's patch size.
    NotPatchAligned { height: usize, width: usize, patch: usize },
    /// The positional embedding is not as long as its grid needs.
    PosEmbedLength { got: usize, want: usize },
    /// A pose has fewer than nine numbers.
    PoseLength { got: usize },
    /// An array of a Gaussian field has a wrong length.
    FieldLength { array: &'static str, expected: usize, got: usize },
    /// The first layer of the camera head does not take tokens of `width` numbers.
    PoseShape { shape: Vec<u64>, width: usize },
    /// A convolution is not stored with four dimensions.
    ConvDims { name: String, shape: Vec<u64> },
    /// A tensor has another shape than the model needs.
    BadShape(String),
    /// A layer that needs a bias has none.
    NoBias(String),
    /// An out-layer is not a block of the model.
    LayerNotCaptured(i32),
    /// The model has no out-layers.
    NoOutLayers,
    /// The layers of the ray branch do not fit together.
    BadOutput,
    /// The Gaussian decoder gives another number of channels than it should.
    GaussianOutput { channels: usize, height: usize, width: usize },
    /// The metric branch has no sky map.
    NoSky,
    /// A part of the metric branch cannot be loaded.
    NestedLoad { part: &'static str, cause: String },
}

/// Error type for all fallible operations.
#[derive(Debug)]
pub enum Error {
    /// The model file is malformed or unsupported.
    Gguf(GgufError),
    /// The model lacks something, or it has an unexpected shape.
    Model(ModelError),
    /// The model lacks the part that a request needs; the text says which.
    Unimplemented(String),
}

/// What an [`Error`] says, with its texts as character sequences.
pub enum Fault {
    UnexpectedEnd { len: nat, needed: nat },
    BadMagic(u32),
    UnsupportedVersion(u32),
    UnknownValueType(Seq<char>),
    UnknownInnerType,
    NestedArray,
    InvalidUtf8,
    UnsupportedDType { name: Seq<char>, dtype: u32 },
    AlignmentOverflow(u64),
    Truncated { needed: nat },
    Oversized(Seq<char>),
    MissingKey { prefix: Seq<char>, field: Seq<char> },
    TensorNotFound(Seq<char>),
    Missing(Seq<char>),
    MissingRays(Seq<char>),
    InconsistentDims { num_heads: u32, head_dim: u32, embed_dim: u32 },
    NoViews,
    NoImages,
    ViewSizeMismatch { index: nat, height: nat, width: nat, first_height: nat, first_width: nat },
    NotPatchAligned { height: nat, width: nat, patch: nat },
    PosEmbedLength { got: nat, want: nat },
    PoseLength { got: nat },
    FieldLength { array: Seq<char>, expected: nat, got: nat },
    PoseShape { shape: Seq<u64>, width: nat },
    ConvDims { name: Seq<char>, shape: Seq<u64> },
    BadShape(Seq<char>),
    NoBias(Seq<char>),
    LayerNotCaptured(i32),
    NoOutLayers,
    BadOutput,
    GaussianOutput { channels: nat, height: nat, width: nat },
    NoSky,
    NestedLoad { part: Seq<char>, cause: Seq<char> },
    Unimplemented(Seq<char>),
}

impl View for Error {
    type V = Fault;

    open spec fn view(&self) -> Fault {
        match *self {
            Error::Gguf(g) => match g {
                GgufError::UnexpectedEnd { len, needed } => Fault::UnexpectedEnd {
                    len: len as nat,
                    needed: needed as nat,
                },
                GgufError::BadMagic(m) => Fault::BadMagic(m),
                GgufError::UnsupportedVersion(v) => Fault::UnsupportedVersion(v),
                GgufError::UnknownValueType(k) => Fault::UnknownValueType(k@),
                GgufError::UnknownInnerType => Fault::UnknownInnerType,
                GgufError::NestedArray => Fault::NestedArray,
                GgufError::InvalidUtf8 => Fault::InvalidUtf8,
                GgufError::UnsupportedDType { name, dtype } => Fault::UnsupportedDType {
                    name: name@,
                    dtype,
                },
                GgufError::AlignmentOverflow(a) => Fault::AlignmentOverflow(a),
                GgufError::Truncated { needed } => Fault::Truncated { needed: needed as nat },
                GgufError::Oversized(name) => Fault::Oversized(name@),
                GgufError::MissingKey { prefix, field } => Fault::MissingKey {
                    prefix: prefix@,
                    field: field@,
                },
            },
            Error::Model(m) => match m {
                ModelError::TensorNotFound(name) => Fault::TensorNotFound(name@),
                ModelError::InconsistentDims {
                    num_heads,
                    head_dim,
                    embed_dim,
                } => Fault::InconsistentDims { num_heads, head_dim, embed_dim },
                ModelError::Missing(name) => Fault::Missing(name@),
                ModelError::MissingRays(name) => Fault::MissingRays(name@),
                ModelError::NoViews => Fault::NoViews,
                ModelError::NoImages => Fault::NoImages,
                ModelError::ViewSizeMismatch {
                    index,
                    height,
                    width,
                    first_height,
                    first_width,
                } => Fault::ViewSizeMismatch {
                    index: index as nat,
                    height: height as nat,
                    width: width as nat,
                    first_height: first_height as nat,
                    first_width: first_width as nat,
                },
                ModelError::NotPatchAligned { height, width, patch } => Fault::NotPatchAligned {
                    height: height as nat,
                    width: width as nat,
                    patch: patch as nat,
                },
                ModelError::PosEmbedLength { got, want } => Fault::PosEmbedLength {
                    got: got as nat,
                    want: want as nat,
                },
                ModelError::PoseLength { got } => Fault::PoseLength { got: got as nat },
                ModelError::FieldLength { array, expected, got } => Fault::FieldLength {
                    array: array@,
                    expected: expected as nat,
                    got: got as nat,
                },
                ModelError::PoseShape { shape, width } => Fault::PoseShape {
                    shape: shape@,
                    width: width as nat,
                },
                ModelError::ConvDims { name, shape } => Fault::ConvDims {
                    name: name@,
                    shape: shape@,
                },
                ModelError::BadShape(name) => Fault::BadShape(name@),
                ModelError::NoBias(name) => Fault::NoBias(name@),
                ModelError::LayerNotCaptured(l) => Fault::LayerNotCaptured(l),
                ModelError::NoOutLayers => Fault::NoOutLayers,
                ModelError::BadOutput => Fault::BadOutput,
                ModelError::GaussianOutput {
                    channels,
                    height,
                    width,
                } => Fault::GaussianOutput {
                    channels: channels as nat,
                    height: height as nat,
                    width: width as nat,
                },
                ModelError::NoSky => Fault::NoSky,
                ModelError::NestedLoad { part, cause } => Fault::NestedLoad {
                    part: part@,
                    cause: cause@,
                },
            },
            Error::Unimplemented(what) => Fault::Unimplemented(what@),
        }
    }
}

} // verus!
