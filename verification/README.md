# depth_anything

Depth Anything 3 inference in Verus: reading GGUF models, the vision transformer, the depth, ray,
camera and Gaussian decoders, metric alignment, and the PFM, JSON, GLB and COLMAP writers. Every
public function of `src/` has a contract that Verus proves; the one thing it takes on trust is std's
decoding of UTF-8 text (`utf8_text` in `src/gguf.rs`).

## Numbers

Verus does not take floating point, so the library is written over number traits
(`src/scalar.rs`). Each operation of a trait is tied to a spec function, and contracts say which
operations are applied to which numbers in which order. `Fixed`, a fixed-point type, implements all
of them inside the library; `app/number.rs` does so for single and double precision.

## Layout

- `src/gguf.rs`, `kquants.rs`, `config.rs`, `weights.rs`, `table.rs`: model files and what they hold
- `src/tinyblas.rs`, `norm.rs`, `winograd.rs`, `fast_conv.rs`, `flash_attn.rs`: kernels
- `src/fast_attn.rs`, `fast_block.rs`, `raw_block.rs`, `attention.rs`, `pos_embed.rs`,
  `backbone.rs`: the transformer
- `src/fast_dpt.rs`, `dpt_weights.rs`, `dpt_head.rs`, `gs_head.rs`, `cam_pose.rs`: decoders
- `src/linalg.rs`, `gs_adapter.rs`, `nested.rs`, `reconstruct.rs`, `sort.rs`: geometry
- `src/depth_export.rs`, `glb_export.rs`, `colmap_export.rs`, `text.rs`: files that are written
- `src/engine.rs`, `error.rs`, `message.rs`, `fast_profile.rs`: requests on prepared images, what
  they are refused for, and where the time goes
- `src/scalar.rs`, `fixed_point.rs`, `index.rs`: numbers and positions
- `src/conv_laws.rs`, `exact.rs`: what holds between the ways a convolution is computed, and where
  fixed-point arithmetic is exact
- `src/reals.rs`, `winograd_laws.rs`, `dpt_laws.rs`, `linalg_laws.rs`, `inverse_laws.rs`,
  `jacobi_laws.rs`, `homography_laws.rs`, `gs_laws.rs`, `flash_laws.rs`, `cam_pose_laws.rs`,
  `pos_embed_laws.rs`, `kquants_laws.rs`: what holds of the results where the arithmetic does not
  round
- `tests/`: the library on single and double precision (`network.rs`, `geometry.rs`, `kquants.rs`)
  and on fixed point (`laws.rs`, `model.rs`)
- `app/`: files, images, devices and timings around the library
