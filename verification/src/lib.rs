//! Depth Anything 3 inference: model files, numeric kernels, decoding of the
//! network's outputs and export formats.
//!
//! Every kernel is generic over a [`scalar::Scalar`], so the same verified code
//! runs on IEEE floats in an application and on exact [`scalar::Fixed`]
//! numbers wherever rounding must not get in the way.

pub mod activation_laws;
pub mod attention;
pub mod attention_laws;
pub mod backbone;
pub mod backbone_laws;
pub mod cam_pose;
pub mod cam_pose_laws;
pub mod colmap_export;
pub mod config;
pub mod conv_laws;
pub mod decoder_laws;
pub mod depth_export;
pub mod dpt_head;
pub mod dpt_laws;
pub mod dpt_weights;
pub mod engine;
pub mod error;
pub mod exact;
pub mod exponential_laws;
pub mod fast_attn;
pub mod fast_block;
pub mod fast_conv;
pub mod fast_dpt;
pub mod fast_profile;
pub mod fixed_point;
pub mod flash_attn;
pub mod flash_laws;
pub mod gaussian_laws;
pub mod gguf;
pub mod glb_export;
pub mod gs_adapter;
pub mod gs_head;
pub mod gs_laws;
pub mod head_laws;
pub mod homography_laws;
pub mod index;
pub mod inverse_laws;
pub mod jacobi_laws;
pub mod kquants;
pub mod kquants_laws;
pub mod layer_laws;
pub mod linalg;
pub mod linalg_laws;
pub mod loading_laws;
pub mod message;
pub mod model_file_laws;
pub mod nested;
pub mod nested_laws;
pub mod norm;
pub mod output_laws;
pub mod pos_embed;
pub mod pos_embed_laws;
pub mod rank_laws;
pub mod raw_block;
pub mod reals;
pub mod reconstruct;
pub mod resample_laws;
pub mod saddle_laws;
pub mod scalar;
pub mod scene_laws;
pub mod sort;
pub mod table;
pub mod text;
pub mod tinyblas;
pub mod turn_laws;
pub mod weights;
pub mod winograd;
pub mod winograd_laws;

pub use backbone::select_reference_view_saddle;
pub use config::{Arch, Config, FfnType, ResizeMode};
pub use engine::{
    DepthOutput, Engine, ExportResult, ExportSpec, MultiViewOutput, PoseOutput, RayPoseDiag,
    RayPoseOutput, ReconstructOutput, Timings, ViewResult,
};
pub use error::Error;
pub use gguf::{GgufDType, GgufFile};
pub use gs_adapter::{BuildError as GsBuildError, Gaussians, GsAdapter};
pub use nested::{AnyviewOut, MetricOut, NestedAligner, NestedOut};

use vstd::prelude::*;

verus! {

} // verus!
