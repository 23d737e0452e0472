use depth_anything::backbone::{self, RopeTables};
use depth_anything::config::{Arch, Config, FfnType, ResizeMode};
use depth_anything::engine::{
    self, Aids, Clock, Engine, ExportInputs, ExportSpec, Preprocessed, Stage, Timings, Watch,
};
use depth_anything::error::{Error, GgufError, ModelError};
use depth_anything::fast_block::FastVitBlock;
use depth_anything::fast_conv::{Conv3x3Mode, ConvOptions, WinoMode};
use depth_anything::fast_dpt::DptOptions;
use depth_anything::gguf::{
    align_up, cast_slice, take, GgufDType, GgufFile, GgufValueType, MetaArray, MetaValue,
};
use depth_anything::raw_block::{RawAttention, RawBlock, RawFfn, RawLayer};
use depth_anything::reconstruct::WorldPoints;
use depth_anything::scalar::Fixed;
use depth_anything::{cam_pose, dpt_head, gs_head};

// ---- writing model files ----------------------------------------------------

struct Writer {
    meta: Vec<u8>,
    metas: u64,
    infos: Vec<u8>,
    infos_count: u64,
    data: Vec<u8>,
}

fn text(out: &mut Vec<u8>, s: &str) {
    out.extend((s.len() as u64).to_le_bytes());
    out.extend(s.as_bytes());
}

impl Writer {
    fn new() -> Self {
        Writer { meta: Vec::new(), metas: 0, infos: Vec::new(), infos_count: 0, data: Vec::new() }
    }

    fn raw(&mut self, key: &str, kind: u32, value: &[u8]) {
        text(&mut self.meta, key);
        self.meta.extend(kind.to_le_bytes());
        self.meta.extend(value);
        self.metas += 1;
    }

    fn u32(&mut self, key: &str, v: u32) {
        self.raw(key, 4, &v.to_le_bytes());
    }

    fn bool(&mut self, key: &str, v: bool) {
        self.raw(key, 7, &[v as u8]);
    }

    fn string(&mut self, key: &str, v: &str) {
        let mut bytes = Vec::new();
        text(&mut bytes, v);
        self.raw(key, 8, &bytes);
    }

    fn i32s(&mut self, key: &str, v: &[i32]) {
        let mut bytes = Vec::new();
        bytes.extend(5u32.to_le_bytes());
        bytes.extend((v.len() as u64).to_le_bytes());
        for x in v {
            bytes.extend(x.to_le_bytes());
        }
        self.raw(key, 9, &bytes);
    }

    /// A tensor of any type; the slowest dimension comes first in `shape`.
    fn stored(&mut self, name: &str, shape: &[u64], dtype: u32, bytes: &[u8]) {
        while self.data.len() % 32 != 0 {
            self.data.push(0);
        }
        text(&mut self.infos, name);
        self.infos.extend((shape.len() as u32).to_le_bytes());
        for d in shape.iter().rev() {
            self.infos.extend(d.to_le_bytes());
        }
        self.infos.extend(dtype.to_le_bytes());
        self.infos.extend((self.data.len() as u64).to_le_bytes());
        self.infos_count += 1;
        self.data.extend(bytes);
    }

    fn tensor(&mut self, name: &str, shape: &[u64], value: impl Fn(usize) -> f32) {
        let n: u64 = shape.iter().product();
        let bytes: Vec<u8> = (0..n as usize).flat_map(|i| value(i).to_le_bytes()).collect();
        self.stored(name, shape, 0, &bytes);
    }

    fn bytes(&self) -> Vec<u8> {
        let mut out = Vec::new();
        out.extend(b"GGUF");
        out.extend(3u32.to_le_bytes());
        out.extend(self.infos_count.to_le_bytes());
        out.extend(self.metas.to_le_bytes());
        out.extend(&self.meta);
        out.extend(&self.infos);
        while out.len() % 32 != 0 {
            out.push(0);
        }
        out.extend(&self.data);
        out
    }
}

fn refusal(bytes: &[u8]) -> GgufError {
    match GgufFile::open(bytes) {
        Err(Error::Gguf(e)) => e,
        _ => panic!("the file was not refused"),
    }
}

// ---- reading model files ----------------------------------------------------

#[test]
fn a_file_gives_back_its_metadata_and_tensors() {
    let mut w = Writer::new();
    w.u32("a", 7);
    w.bool("b", true);
    w.string("c", "gr\u{fc}n");
    w.i32s("d", &[1, -2]);
    w.raw("e", 12, &1.5f64.to_le_bytes());
    w.tensor("t", &[2, 3], |i| i as f32 - 2.5);
    let bytes = w.bytes();
    let f = GgufFile::open(&bytes).unwrap();
    assert!(matches!(f.meta("a"), Some(MetaValue::U32(7))));
    assert!(matches!(f.meta("b"), Some(MetaValue::Bool(true))));
    assert!(matches!(f.meta("c"), Some(MetaValue::String(s)) if s == "gr\u{fc}n"));
    assert!(matches!(f.meta("d"), Some(MetaValue::Array(MetaArray::I32(v))) if v == &vec![1, -2]));
    assert!(matches!(f.meta("e"), Some(MetaValue::F64(b)) if f64::from_bits(*b) == 1.5));
    assert!(f.meta("z").is_none());
    assert_eq!(f.meta_iter().len(), 5);
    let info = f.tensor_info("t").unwrap();
    assert_eq!(info.ne, vec![3, 2]);
    assert_eq!(info.candle_shape(), vec![2, 3]);
    assert_eq!(info.n_elems(), 6);
    assert_eq!(f.tensor_names().len(), 1);
    let v: Vec<Fixed> = f.tensor_f32("t").unwrap();
    let want: Vec<Fixed> = (0..6).map(|i| Fixed((i * 2 - 5) * 32768)).collect();
    assert_eq!(v, want);
}

#[test]
fn a_later_pair_replaces_an_earlier_one() {
    let mut w = Writer::new();
    w.u32("k", 1);
    w.u32("other", 2);
    w.u32("k", 3);
    let bytes = w.bytes();
    let f = GgufFile::open(&bytes).unwrap();
    assert!(matches!(f.meta("k"), Some(MetaValue::U32(3))));
    assert!(matches!(f.meta("other"), Some(MetaValue::U32(2))));
    assert_eq!(f.meta_iter().len(), 2);
}

#[test]
fn half_and_eight_bit_tensors_are_widened() {
    let mut w = Writer::new();
    let half: Vec<u8> = [1.5f32, -0.25]
        .iter()
        .flat_map(|&x| half::f16::from_f32(x).to_le_bytes())
        .collect();
    w.stored("h", &[2], 1, &half);
    let mut q8 = Vec::new();
    q8.extend(half::f16::from_f32(0.5).to_le_bytes());
    q8.extend((0..32).map(|i| (i as i8 - 16) as u8));
    w.stored("q", &[32], 8, &q8);
    let bytes = w.bytes();
    let f = GgufFile::open(&bytes).unwrap();
    assert_eq!(f.tensor_f32::<Fixed>("h").unwrap(), vec![Fixed(98304), Fixed(-16384)]);
    let q: Vec<Fixed> = f.tensor_f32("q").unwrap();
    for (i, x) in q.iter().enumerate() {
        assert_eq!(*x, Fixed((i as i64 - 16) * 32768), "element {i}");
    }
}

#[test]
fn five_bit_blocks_are_widened() {
    // One block: scale 1, no mins, all scales 1, and the fifth bit set in the
    // first half of the first pair of rows.
    let mut block = vec![0u8; 176];
    block[0..2].copy_from_slice(&half::f16::from_f32(1.0).to_le_bytes());
    for b in &mut block[4..8] {
        *b = 1;
    }
    for (i, b) in block[16..48].iter_mut().enumerate() {
        *b = (i < 16) as u8;
    }
    for (i, b) in block[48..80].iter_mut().enumerate() {
        *b = (i % 16) as u8;
    }
    let mut w = Writer::new();
    w.stored("q", &[256], 13, &block);
    let bytes = w.bytes();
    let f = GgufFile::open(&bytes).unwrap();
    let q: Vec<Fixed> = f.tensor_f32("q").unwrap();
    for (i, x) in q.iter().enumerate().take(32) {
        let high: i64 = if i < 16 { 16 } else { 0 };
        assert_eq!(*x, Fixed((i as i64 % 16 + high) * 65536), "element {i}");
    }
    assert!(q[32..].iter().all(|x| *x == Fixed(0)));
}

#[test]
fn malformed_files_are_refused() {
    assert!(matches!(refusal(b"GGU"), GgufError::UnexpectedEnd { len: 3, needed: 4 }));
    assert!(matches!(refusal(b"XGUF...."), GgufError::BadMagic(m) if m == 0x4655_4758));
    assert!(matches!(refusal(b"GGUF\x01\0\0\0"), GgufError::UnsupportedVersion(1)));

    let mut w = Writer::new();
    w.raw("key", 99, &[]);
    assert!(matches!(refusal(&w.bytes()), GgufError::UnknownValueType(k) if k == "key"));

    let mut w = Writer::new();
    let mut array = Vec::new();
    array.extend(99u32.to_le_bytes());
    array.extend(0u64.to_le_bytes());
    w.raw("key", 9, &array);
    assert!(matches!(refusal(&w.bytes()), GgufError::UnknownInnerType));

    let mut w = Writer::new();
    array[0..4].copy_from_slice(&9u32.to_le_bytes());
    w.raw("key", 9, &array);
    assert!(matches!(refusal(&w.bytes()), GgufError::NestedArray));

    let mut w = Writer::new();
    let mut bad = Vec::new();
    bad.extend(2u64.to_le_bytes());
    bad.extend([0xff, 0xfe]);
    w.raw("key", 8, &bad);
    assert!(matches!(refusal(&w.bytes()), GgufError::InvalidUtf8));

    let mut w = Writer::new();
    w.stored("t", &[1], 3, &[0; 4]);
    assert!(
        matches!(refusal(&w.bytes()), GgufError::UnsupportedDType { name, dtype: 3 } if name == "t")
    );
}

#[test]
fn tensors_that_cannot_be_read_are_refused() {
    let mut w = Writer::new();
    w.tensor("t", &[4], |_| 1.0);
    let mut bytes = w.bytes();
    bytes.truncate(bytes.len() - 1);
    let f = GgufFile::open(&bytes).unwrap();
    assert!(matches!(
        f.tensor_f32::<Fixed>("t"),
        Err(Error::Gguf(GgufError::Truncated { needed: 16 }))
    ));
    assert!(matches!(
        f.tensor_f32::<Fixed>("u"),
        Err(Error::Model(ModelError::TensorNotFound(n))) if n == "u"
    ));
    let mut w = Writer::new();
    w.stored("t", &[1 << 40, 1 << 40], 0, &[]);
    let bytes = w.bytes();
    let f = GgufFile::open(&bytes).unwrap();
    assert!(matches!(
        f.tensor_f32::<Fixed>("t"),
        Err(Error::Gguf(GgufError::Oversized(n))) if n == "t"
    ));
    assert!(matches!(take(&[1, 2, 3], 2), Ok([1, 2])));
    assert!(take(&[1, 2, 3], 4).is_err());
}

#[test]
fn positions_are_rounded_up_to_the_alignment() {
    assert_eq!(align_up(0, 32), 0);
    assert_eq!(align_up(1, 32), 32);
    assert_eq!(align_up(64, 32), 64);
    assert_eq!(align_up(65, 32), 96);
    assert_eq!(cast_slice::<u16>(&[1, 0, 0, 1, 7]), vec![1, 256]);
    assert_eq!(cast_slice::<u32>(&[1, 0, 0, 1]), vec![0x0100_0001]);
}

#[test]
fn types_have_their_numbers() {
    assert_eq!(GgufValueType::from_u32(8), Some(GgufValueType::String));
    assert_eq!(GgufValueType::from_u32(13), None);
    assert_eq!(GgufDType::from_u32(14), Some(GgufDType::Q6_K));
    assert_eq!(GgufDType::from_u32(2), None);
    assert_eq!(GgufDType::Q8_0.block_size(), 32);
    assert_eq!(GgufDType::Q5_K.stored_bytes(), 176);
}

// ---- configurations -----------------------------------------------------------

const VIT: &str = "depthanything3.vit.";

fn key(field: &str) -> String {
    format!("{VIT}{field}")
}

fn base_config(w: &mut Writer) {
    w.u32("depthanything3.patch_size", 2);
    w.u32(&key("embed_dim"), 4);
    w.u32(&key("depth"), 4);
    w.u32(&key("num_heads"), 1);
    w.u32(&key("head_dim"), 4);
    w.u32(&key("pos_embed_grid"), 2);
    w.i32s(&key("out_layers"), &[0, 1, 2, 3]);
    w.u32("depthanything3.head.features", 2);
    w.i32s("depthanything3.head.out_channels", &[1, 1, 1, 1]);
    w.bool("depthanything3.head.pos_embed", false);
}

#[test]
fn a_configuration_is_read_with_its_defaults() {
    let mut w = Writer::new();
    base_config(&mut w);
    w.string(&key("ffn_type"), "swiglu");
    w.string("depthanything3.img.resize_mode", "lower_bound");
    let bytes = w.bytes();
    let c: Config<Fixed> = Config::from_gguf(&GgufFile::open(&bytes).unwrap()).unwrap();
    assert_eq!((c.patch_size, c.embed_dim, c.depth), (2, 4, 4));
    assert_eq!(c.ffn_type, FfnType::Swiglu);
    assert_eq!(c.img_resize_mode, ResizeMode::LowerBound);
    assert_eq!(c.arch, Arch::Da3);
    assert_eq!((c.alt_start, c.rope_start), (-1, -1));
    assert_eq!(c.img_resize_target, 504);
    assert!(c.cat_token && c.qkv_bias && !c.head_pos_embed);
    assert_eq!(c.rope_freq, Fixed(100 * 65536));
    assert_eq!(c.out_layers, vec![0, 1, 2, 3]);
    assert_eq!(c.feat_half(), 1);
    assert_eq!(c.head_out_channels_arr(), [1, 1, 1, 1]);
    assert_eq!(c.rope_half(), 2);
    assert!(!c.is_metric());
}

#[test]
fn a_configuration_without_a_needed_field_is_refused() {
    for missing in ["embed_dim", "depth", "num_heads", "head_dim"] {
        let mut w = Writer::new();
        for field in ["embed_dim", "depth", "num_heads", "head_dim"] {
            if field != missing {
                w.u32(&key(field), 4);
            }
        }
        let bytes = w.bytes();
        let r: Result<Config<Fixed>, Error> = Config::from_gguf(&GgufFile::open(&bytes).unwrap());
        assert!(matches!(
            r,
            Err(Error::Gguf(GgufError::MissingKey { prefix, field }))
                if prefix == "vit" && field == missing
        ));
    }
}

#[test]
fn heads_have_to_make_up_the_width() {
    let mut w = Writer::new();
    for (field, v) in [("embed_dim", 4), ("depth", 1), ("num_heads", 3), ("head_dim", 2)] {
        w.u32(&key(field), v);
    }
    let bytes = w.bytes();
    let r: Result<Config<Fixed>, Error> = Config::from_gguf(&GgufFile::open(&bytes).unwrap());
    assert!(matches!(
        r,
        Err(Error::Model(ModelError::InconsistentDims { num_heads: 3, head_dim: 2, embed_dim: 4 }))
    ));
}

#[test]
fn texts_name_architectures_and_modes() {
    assert_eq!(Arch::parse("depthanything2"), Arch::Da2);
    assert_eq!(Arch::parse("anything"), Arch::Da3);
    assert_eq!(FfnType::parse("mlp"), FfnType::Mlp);
    assert_eq!(ResizeMode::parse("upper_bound"), ResizeMode::UpperBound);
}

// ---- a small model --------------------------------------------------------------

/// A number between minus and plus a quarter that depends on its place.
fn weight(i: usize) -> f32 {
    ((i * 37 + 11) % 17) as f32 / 32.0 - 0.25
}

fn conv(w: &mut Writer, name: &str, shape: &[u64], outs: u64, value: impl Fn(usize) -> f32) {
    w.tensor(&format!("{name}.weight"), shape, &value);
    w.tensor(&format!("{name}.bias"), &[outs], |i| value(i + 5));
}

/// The tensors of a branch with two outputs, or with one output and a sky map.
fn branch(w: &mut Writer, prefix: &str, sky: bool, value: impl Fn(usize) -> f32 + Copy) {
    let p = |s: &str| format!("{prefix}{s}");
    conv(w, &p("vit.patch_embed"), &[4, 3, 2, 2], 4, value);
    w.tensor(&p("vit.cls_token"), &[4], value);
    w.tensor(&p("vit.camera_token"), &[2, 4], value);
    w.tensor(&p("vit.pos_embed"), &[5, 4], value);
    conv(w, &p("vit.norm"), &[4], 4, |_| 1.0);
    for s in 0..4 {
        conv(w, &p(&format!("head.proj.{s}")), &[1, 8, 1, 1], 1, value);
    }
    conv(w, &p("head.resize.0"), &[1, 1, 4, 4], 1, value);
    conv(w, &p("head.resize.1"), &[1, 1, 2, 2], 1, value);
    conv(w, &p("head.resize.3"), &[1, 1, 3, 3], 1, value);
    for l in 1..5 {
        w.tensor(&p(&format!("head.scratch.layer{l}_rn.weight")), &[2, 1, 3, 3], value);
        for unit in ["rc1", "rc2"] {
            if l == 4 && unit == "rc1" {
                continue;
            }
            for c in ["c1", "c2"] {
                let name = p(&format!("head.scratch.rn{l}.{unit}.{c}"));
                conv(w, &name, &[2, 2, 3, 3], 2, value);
            }
        }
        conv(w, &p(&format!("head.scratch.rn{l}.out")), &[2, 2, 1, 1], 2, value);
    }
    conv(w, &p("head.scratch.out1"), &[1, 2, 3, 3], 1, value);
    conv(w, &p("head.scratch.out2a"), &[32, 1, 3, 3], 32, value);
    let outs: u64 = if sky { 1 } else { 2 };
    conv(w, &p("head.scratch.out2b"), &[outs, 32, 1, 1], outs, value);
    if sky {
        conv(w, &p("head.scratch.sky_out2a"), &[32, 1, 3, 3], 32, value);
        conv(w, &p("head.scratch.sky_out2b"), &[1, 32, 1, 1], 1, value);
    }
}

fn camera(w: &mut Writer, value: impl Fn(usize) -> f32 + Copy) {
    conv(w, "cam.bb0", &[3, 8], 3, value);
    conv(w, "cam.bb2", &[3, 3], 3, value);
    conv(w, "cam.fc_t", &[3, 3], 3, value);
    conv(w, "cam.fc_q", &[4, 3], 4, value);
    conv(w, "cam.fc_fov", &[2, 3], 2, value);
}

fn layer(n: usize, outs: usize) -> RawLayer<Fixed> {
    let numbers = |n: usize| (0..n).map(|i| Fixed((weight(i) * 65536.0) as i64)).collect();
    RawLayer { weight: numbers(n), bias: Some(numbers(outs)) }
}

fn raw_block() -> RawBlock<Fixed> {
    RawBlock {
        norm1: layer(4, 4),
        attn: RawAttention {
            qkv: layer(48, 12),
            proj: layer(16, 4),
            q_norm: None,
            k_norm: Some(layer(4, 4)),
            num_heads: 1,
            head_dim: 4,
        },
        ls1: Some(vec![Fixed(65536); 4]),
        norm2: layer(4, 4),
        ffn: RawFfn::Mlp { fc1: layer(12, 3), fc2: layer(12, 4) },
        ls2: None,
        embed: 4,
        hidden: 3,
    }
}

fn blocks() -> Vec<FastVitBlock<Fixed>> {
    (0..4).map(|_| FastVitBlock::from_candle(raw_block(), Fixed(1)).unwrap()).collect()
}

fn engine_of(bytes: &[u8], flash: bool) -> Engine<Fixed> {
    let f = GgufFile::open(bytes).unwrap();
    let cfg: Config<Fixed> = Config::from_gguf(&f).unwrap();
    Engine::load(cfg, &f, blocks(), flash).unwrap()
}

fn model(with_camera: bool, value: impl Fn(usize) -> f32 + Copy) -> Vec<u8> {
    let mut w = Writer::new();
    base_config(&mut w);
    branch(&mut w, "", false, value);
    if with_camera {
        camera(&mut w, value);
    }
    w.bytes()
}

fn image(seed: usize) -> Preprocessed<Fixed> {
    Preprocessed {
        chw: (0..48).map(|i| Fixed((weight(i + seed) * 65536.0) as i64)).collect(),
        h: 4,
        w: 4,
        rgb_u8: vec![100; 48],
        orig_h: 8,
        orig_w: 8,
    }
}

fn no_aids() -> Aids<Fixed> {
    Aids { rope: None, uv: None, ray_uv: None, gs_uv: None }
}

fn lack(e: Error) -> String {
    match e {
        Error::Unimplemented(what) => what,
        other => panic!("{}", other.message()),
    }
}

#[test]
fn a_decoder_of_zeros_gives_unit_depth() {
    // Both outputs are zero: depth is exp(0), confidence exp(0) + 1.
    let e = engine_of(&model(false, |_| 0.0), false);
    let d = e.depth_image(&image(0), &no_aids()).unwrap();
    assert_eq!((d.h, d.w), (4, 4));
    assert_eq!(d.depth, vec![Fixed(65536); 16]);
    assert_eq!(d.conf, vec![Fixed(131072); 16]);
    assert!(d.sky.is_empty());
    assert_eq!(e.config().embed_dim, 4);
    assert!(!e.has_pose_head() && !e.has_aux_head() && !e.has_gs_head() && !e.is_nested());
    assert!(e.metric_config().is_none());
}

#[test]
fn asking_for_a_camera_keeps_the_depth() {
    let e = engine_of(&model(true, weight), true);
    let depth = e.depth_image(&image(3), &no_aids()).unwrap();
    let (with_pose, pose) = e.depth_pose_image(&image(3), &no_aids()).unwrap();
    assert_eq!(depth.depth, with_pose.depth);
    assert_eq!(depth.conf, with_pose.conf);
    assert_eq!(depth.depth.len(), 16);
    assert_eq!(pose.pose_enc.len(), 9);
    let (ext, intr) = cam_pose::decode_pose(&pose.pose_enc, 4, 4).unwrap();
    assert_eq!(ext, pose.ext);
    assert_eq!(intr, pose.intr);
    let (again, _) = e.depth_pose_export_image(&image(3), &no_aids()).unwrap();
    assert_eq!(again.depth, depth.depth);
}

#[test]
fn one_view_of_many_is_that_view() {
    let e = engine_of(&model(true, weight), false);
    let (one, pose) = e.depth_pose_image(&image(3), &no_aids()).unwrap();
    let many = e.depth_pose_multi_image::<Fixed>(&[image(3)], &no_aids()).unwrap();
    assert_eq!((many.h, many.w), (4, 4));
    assert_eq!(many.views.len(), 1);
    assert_eq!(many.views[0].depth, one.depth);
    assert_eq!(many.views[0].ext, pose.ext);
}

#[test]
fn views_without_global_blocks_do_not_meet() {
    let e = engine_of(&model(true, weight), false);
    let many = e.depth_pose_multi_image::<Fixed>(&[image(3), image(8)], &no_aids()).unwrap();
    for (i, seed) in [3, 8].into_iter().enumerate() {
        let (one, _) = e.depth_pose_image(&image(seed), &no_aids()).unwrap();
        assert_eq!(many.views[i].depth, one.depth, "view {i}");
    }
}

#[test]
fn requests_that_a_model_cannot_answer_are_refused() {
    let e = engine_of(&model(false, weight), false);
    let (pre, aids) = (image(0), no_aids());
    assert!(lack(e.depth_pose_image(&pre, &aids).err().unwrap()).contains("camera-pose head"));
    assert!(lack(e.depth_rays_image(&pre, &aids).err().unwrap()).contains("aux ray head"));
    assert!(lack(e.depth_pose_export_image(&pre, &aids).err().unwrap()).contains("export"));
    let r = e.depth_metric_image::<Fixed>(&pre, &aids, &aids);
    assert!(lack(r.err().unwrap()).contains("no metric branch"));
    let r = e.reconstruct_image::<Fixed>(&pre, &aids);
    assert!(lack(r.err().unwrap()).contains("gs"));
    let r = e.depth_pose_multi_image::<Fixed>(&[image(0)], &aids);
    assert!(lack(r.err().unwrap()).contains("depth_pose_multi"));
    let r = e.depth_pose_multi_image::<Fixed>(&[], &aids);
    assert!(matches!(r, Err(Error::Model(ModelError::NoImages))));
    assert!(lack(e.ready_for_views(1).err().unwrap()).contains("depth_pose_multi"));
    assert!(matches!(e.ready_for_views(0), Err(Error::Model(ModelError::NoImages))));
    assert!(lack(e.ready_for_metric().err().unwrap()).contains("no metric branch"));
    assert!(lack(e.ready_for_gaussians().err().unwrap()).contains("GSDPT"));
    assert!(lack(e.ready_for_rays().err().unwrap()).contains("aux ray head"));
    let e = engine_of(&model(true, weight), false);
    assert!(e.ready_for_views(2).is_ok());
}

#[test]
fn shortcuts_of_the_decoder_change_nothing() {
    let e = engine_of(&model(false, |i| weight(i) / 4.0), false);
    let head = &e.main.head.main;
    let feats: Vec<Vec<Fixed>> = (0..4)
        .map(|s| (0..48).map(|i| Fixed((weight(i * 3 + s) * 65536.0) as i64)).collect())
        .collect();
    let run = |conv3x3, wino, fuse_upsample, fuse_fusion_upsample| {
        let conv = ConvOptions { conv3x3, wino };
        let opts = DptOptions { conv, fuse_upsample, fuse_fusion_upsample };
        head.forward(opts, &feats, 3, 2, 7, 5, None).0
    };
    let plain = run(Conv3x3Mode::Direct, WinoMode::Auto, false, false);
    assert_eq!(plain.len(), 2 * 7 * 5);
    assert!(plain.iter().any(|x| x.0 != plain[0].0));
    for wino in [WinoMode::F2, WinoMode::F4] {
        for (last, inner) in [(false, false), (true, false), (false, true), (true, true)] {
            let fast = run(Conv3x3Mode::Wino, wino, last, inner);
            assert_eq!(fast.len(), plain.len());
            assert!(fast.iter().zip(&plain).all(|(a, b)| (a.0 - b.0).abs() < 200));
        }
    }
    let (slow, sky) = e.main.head.forward(&feats, 3, 2, 7, 5, None);
    assert_eq!((slow, sky.is_none()), (plain, true));
}

struct Notes(Vec<Stage>);

impl Watch for Notes {
    fn ended(&mut self, stage: Stage) {
        self.0.push(stage);
    }
}

#[test]
fn stages_are_told_as_they_end() {
    let e = engine_of(&model(true, weight), false);
    let (pre, aids) = (image(1), no_aids());
    let mut n = Notes(Vec::new());
    let watched = e.depth_image_watched(&pre, &aids, &mut n).unwrap();
    assert_eq!(watched.depth, e.depth_image(&pre, &aids).unwrap().depth);
    assert_eq!(n.0, [Stage::Backbone, Stage::Head, Stage::Activate]);
    n.0.clear();
    let (depth, pose) = e.depth_pose_image_watched(&pre, &aids, &mut n).unwrap();
    let (depth2, pose2) = e.depth_pose_image(&pre, &aids).unwrap();
    assert_eq!((depth.depth, pose.ext), (depth2.depth, pose2.ext));
    assert_eq!(n.0, [Stage::Backbone, Stage::Head, Stage::Activate, Stage::Pose]);
    n.0.clear();
    let two = [image(1), image(2)];
    e.depth_pose_multi_image_watched::<Fixed, Notes>(&two, &aids, &mut n).unwrap();
    assert_eq!(n.0.len(), 1 + 2 * 3);
    assert_eq!(n.0[4..], [Stage::Head, Stage::Activate, Stage::Head]);
    n.0.clear();
    let plain = engine_of(&model(false, weight), false);
    assert!(plain.depth_pose_image_watched(&pre, &aids, &mut n).is_err());
    assert_eq!(n.0, [Stage::Backbone, Stage::Head, Stage::Activate]);
}

#[test]
fn one_view_needs_one_row_of_the_camera_token() {
    let mut e = engine_of(&model(true, weight), false);
    let (pre, aids) = (image(1), no_aids());
    let (depth, pose) = e.depth_pose_image(&pre, &aids).unwrap();
    e.main.backbone.camera_token.truncate(4);
    let (depth1, pose1) = e.depth_pose_image(&pre, &aids).unwrap();
    assert_eq!((depth.depth, pose.pose_enc), (depth1.depth, pose1.pose_enc));
    let r = e.depth_pose_multi_image::<Fixed>(&[image(1), image(2)], &aids);
    assert!(matches!(r, Err(Error::Model(ModelError::BadShape(name))) if name == "vit.camera_token"));
}

#[test]
fn a_loaded_decoder_is_that_of_its_configuration() {
    let bytes = model(true, weight);
    let f = GgufFile::open(&bytes).unwrap();
    for embeds in [false, true] {
        let mut cfg: Config<Fixed> = Config::from_gguf(&f).unwrap();
        cfg.head_pos_embed = embeds;
        let (embed_dim, features) = (cfg.embed_dim as usize, cfg.head_features as usize);
        let e = Engine::load(cfg, &f, blocks(), false).unwrap();
        assert_eq!(e.main.head.head_pos_embed, embeds);
        assert_eq!(e.main.head.main.in_channels, 2 * embed_dim);
        assert_eq!(e.main.head.main.features, features);
    }
}

#[test]
fn one_image_of_several_is_like_one_alone() {
    let e = engine_of(&model(true, weight), false);
    let (depth, pose) = e.depth_pose_image(&image(5), &no_aids()).unwrap();
    let batch = e.depth_pose_multi_image::<Fixed>(&[image(5)], &no_aids()).unwrap();
    assert_eq!((batch.views.len(), batch.ref_view), (1, 0));
    assert_eq!((&batch.views[0].depth, &batch.views[0].conf), (&depth.depth, &depth.conf));
    assert_eq!((batch.views[0].ext, batch.views[0].intr), (pose.ext, pose.intr));
}

#[test]
fn views_have_one_size() {
    let e = engine_of(&model(true, weight), false);
    let mut wide = image(0);
    wide.w = 8;
    wide.chw.extend(vec![Fixed(0); 48]);
    let r = e.depth_pose_multi_image::<Fixed>(&[image(0), image(1), wide], &no_aids());
    assert_eq!(
        r.err().unwrap().message(),
        "model error: depth_pose_multi: view 2 preprocesses to 4x8, expected 4x4"
    );
}

#[test]
fn out_layers_have_to_be_blocks() {
    let mut w = Writer::new();
    base_config(&mut w);
    w.i32s(&key("out_layers"), &[0, 1, 2, 9]);
    branch(&mut w, "", false, weight);
    let e = engine_of(&w.bytes(), false);
    let r = e.depth_image(&image(0), &no_aids());
    assert!(matches!(r, Err(Error::Model(ModelError::LayerNotCaptured(9)))));
}

#[test]
fn a_nested_model_gives_metric_depth() {
    let e = engine_of(&model(true, weight), false);
    let mut w = Writer::new();
    base_config(&mut w);
    branch(&mut w, "m_", true, |_| 0.0);
    let bytes = w.bytes();
    let f = GgufFile::open(&bytes).unwrap();
    let cfg: Config<Fixed> = Config::from_gguf(&f).unwrap();
    let e = e.load_nested(cfg, &f, blocks()).unwrap();
    assert!(e.is_nested());
    assert_eq!(e.metric_config().unwrap().patch_size, 2);
    let out = e.depth_metric_image::<Fixed>(&image(3), &no_aids(), &no_aids()).unwrap();
    let (depth, pose) = e.depth_pose_image(&image(3), &no_aids()).unwrap();
    assert_eq!((out.h, out.w), (4, 4));
    assert_eq!(out.intrinsics, pose.intr);
    assert_eq!(out.depth.len(), depth.depth.len());
    for i in [0, 1, 2, 4, 5, 6, 8, 9, 10] {
        assert_eq!(out.extrinsics[i], pose.ext[i]);
    }
    assert_eq!(out.write_pfm(4, 4).len(), b"Pf\n4 4\n-1.0\n".len() + 64);
}

#[test]
fn a_metric_branch_needs_a_sky_map() {
    let e = engine_of(&model(true, weight), false);
    let mut w = Writer::new();
    base_config(&mut w);
    branch(&mut w, "m_", false, weight);
    let bytes = w.bytes();
    let f = GgufFile::open(&bytes).unwrap();
    let cfg: Config<Fixed> = Config::from_gguf(&f).unwrap();
    let e = e.load_nested(cfg, &f, blocks()).unwrap();
    let r = e.depth_metric_image::<Fixed>(&image(3), &no_aids(), &no_aids());
    assert!(matches!(r, Err(Error::Model(ModelError::NoSky))));
}

#[test]
fn a_metric_branch_has_its_own_patches() {
    let e = engine_of(&model(true, weight), false);
    let mut w = Writer::new();
    base_config(&mut w);
    branch(&mut w, "m_", true, weight);
    let bytes = w.bytes();
    let f = GgufFile::open(&bytes).unwrap();
    let cfg: Config<Fixed> = Config::from_gguf(&f).unwrap();
    let mut e = e.load_nested(cfg, &f, blocks()).unwrap();
    e.metric.as_mut().unwrap().backbone.cfg.patch_size = 3;
    let r = e.depth_metric_image::<Fixed>(&image(3), &no_aids(), &no_aids());
    assert!(matches!(
        r,
        Err(Error::Model(ModelError::NotPatchAligned { height: 4, width: 4, patch: 3 }))
    ));
}

#[test]
fn weights_of_another_shape_are_refused() {
    let mut w = Writer::new();
    base_config(&mut w);
    branch(&mut w, "", false, weight);
    w.tensor("vit.norm.weight", &[2, 2], weight);
    let bytes = w.bytes();
    let f = GgufFile::open(&bytes).unwrap();
    let cfg: Config<Fixed> = Config::from_gguf(&f).unwrap();
    let r = Engine::load(cfg, &f, blocks(), false);
    assert!(
        matches!(r.err(), Some(Error::Model(ModelError::BadShape(n))) if n == "vit.norm.weight")
    );

    let mut w = Writer::new();
    base_config(&mut w);
    branch(&mut w, "", false, weight);
    w.tensor("vit.pos_embed", &[4, 4], weight);
    let bytes = w.bytes();
    let f = GgufFile::open(&bytes).unwrap();
    let cfg: Config<Fixed> = Config::from_gguf(&f).unwrap();
    let r = Engine::load(cfg, &f, blocks(), false);
    assert!(matches!(r.err(), Some(Error::Model(ModelError::PosEmbedLength { got: 16, want: 20 }))));

    let mut w = Writer::new();
    base_config(&mut w);
    let bytes = w.bytes();
    let f = GgufFile::open(&bytes).unwrap();
    let cfg: Config<Fixed> = Config::from_gguf(&f).unwrap();
    assert!(!gs_head::has_gs_head(&f));
    let r = Engine::load(cfg, &f, blocks(), false);
    assert!(matches!(
        r.err(),
        Some(Error::Model(ModelError::TensorNotFound(n))) if n == "vit.patch_embed.weight"
    ));
}

#[test]
fn parts_that_a_model_lacks_are_named() {
    let refused = |w: &Writer| {
        let bytes = w.bytes();
        let f = GgufFile::open(&bytes).unwrap();
        let cfg: Config<Fixed> = Config::from_gguf(&f).unwrap();
        Engine::load(cfg, &f, blocks(), false).err().unwrap().message()
    };
    let mut w = Writer::new();
    base_config(&mut w);
    branch(&mut w, "", false, weight);
    w.tensor("cam.bb0.weight", &[3, 7], weight);
    assert_eq!(
        refused(&w),
        "model error: cam.bb0.weight: unexpected shape [3, 7], expected [hidden, 8]"
    );
    let fusions = |w: &mut Writer| {
        for r in 1..5 {
            let rn = format!("head.scratch.rn{r}_aux");
            for c in ["rc1.c1", "rc1.c2", "rc2.c1", "rc2.c2"] {
                conv(w, &format!("{rn}.{c}"), &[2, 2, 3, 3], 2, weight);
            }
            conv(w, &format!("{rn}.out"), &[2, 2, 1, 1], 2, weight);
        }
    };
    let mut w = Writer::new();
    base_config(&mut w);
    branch(&mut w, "", false, weight);
    fusions(&mut w);
    assert_eq!(refused(&w), "model error: aux head: missing out1_aux.0.weight");
    w.tensor("head.scratch.out1_aux.0.weight", &[2, 2], weight);
    assert_eq!(
        refused(&w),
        "model error: conv weight head.scratch.out1_aux.0.weight: expected 4 dims, got [2, 2]"
    );
}

#[test]
fn a_metric_branch_says_what_it_lacks() {
    let mut w = Writer::new();
    base_config(&mut w);
    let bytes = w.bytes();
    let f = GgufFile::open(&bytes).unwrap();
    let cfg: Config<Fixed> = Config::from_gguf(&f).unwrap();
    let r = engine_of(&model(true, weight), false).load_nested(cfg, &f, blocks());
    assert_eq!(
        r.err().unwrap().message(),
        "model error: nested metric backbone load failed: \
         model error: tensor not found: m_vit.patch_embed.weight"
    );
}

#[test]
fn layers_need_their_biases() {
    let mut raw = raw_block();
    raw.attn.proj.bias = None;
    let r = FastVitBlock::from_candle(raw, Fixed(1));
    assert!(
        matches!(r.err(), Some(Error::Model(ModelError::NoBias(n))) if n == "fast_attn: proj linear")
    );
}

#[test]
fn tiles_and_stored_scores_attend_alike() {
    // Fixed point rounds, so the two orders agree to a few steps.
    let a = engine_of(&model(false, weight), false).depth_image(&image(3), &no_aids()).unwrap();
    let b = engine_of(&model(false, weight), true).depth_image(&image(3), &no_aids()).unwrap();
    for (x, y) in a.depth.iter().zip(&b.depth) {
        assert!((x.0 - y.0).abs() < 2000, "{x:?} {y:?}");
    }
}

#[test]
fn rotary_tables_are_used_from_their_block_on() {
    let mut w = Writer::new();
    base_config(&mut w);
    branch(&mut w, "", false, weight);
    w.raw(&key("rope_start"), 5, &1i32.to_le_bytes());
    let e = engine_of(&w.bytes(), false);
    let still = (vec![Fixed(65536); 20], vec![Fixed(0); 20]);
    // The first token stays, all others turn by a quarter.
    let on = |first: i64, rest: i64| {
        (0..20).map(|i| Fixed(if i < 4 { first } else { rest })).collect::<Vec<Fixed>>()
    };
    let turned = (on(65536, 0), on(0, 65536));
    let tables = |t: &(Vec<Fixed>, Vec<Fixed>)| RopeTables { local: t.clone(), global: t.clone() };
    let plain = engine_of(&model(false, weight), false);
    let pre = image(3);
    let run = |e: &Engine<Fixed>, t: Option<&RopeTables<Fixed>>| {
        e.main.backbone.forward(&pre.chw, 2, 2, t, false).unwrap().feats
    };
    let want = run(&plain, None);
    assert_eq!(run(&e, Some(&tables(&still))), want);
    let got = run(&e, Some(&tables(&turned)));
    assert_eq!(got[0], want[0]);
    assert_ne!(got[1], want[1]);
}

#[test]
fn a_model_without_out_layers_gives_no_camera_token() {
    let mut w = Writer::new();
    base_config(&mut w);
    w.i32s(&key("out_layers"), &[]);
    branch(&mut w, "", false, weight);
    let bytes = w.bytes();
    let f = GgufFile::open(&bytes).unwrap();
    let cfg: Config<Fixed> = Config::from_gguf(&f).unwrap();
    let b = backbone::Backbone::load(cfg, &f, "", blocks()).unwrap();
    let r = b.forward(&image(0).chw, 2, 2, None, false);
    assert!(matches!(r, Err(Error::Model(ModelError::NoOutLayers))));
}

#[test]
fn positions_of_views_that_share_a_place() {
    let p: Vec<Fixed> = backbone::nodiff_positions(3, 2);
    let (o, u) = (Fixed(0), Fixed(65536));
    assert_eq!(p, vec![o, o, u, u, u, u, o, o, u, u, u, u]);
}

#[test]
fn rays_and_gaussians_are_split_by_pixel() {
    // Seven planes of two pixels: six numbers of a ray and its confidence.
    let host: Vec<Fixed> = (0..14).map(|i| Fixed(i * 65536)).collect();
    let r = dpt_head::split_rays(&host, 1, 2);
    let want: Vec<Fixed> = [0, 2, 4, 6, 8, 10, 1, 3, 5, 7, 9, 11]
        .iter()
        .map(|i| Fixed(i * 65536))
        .collect();
    assert_eq!(r.ray, want);
    assert_eq!(r.conf.len(), 2);

    let host: Vec<Fixed> = (0..76).map(|i| Fixed(i * 65536)).collect();
    let g = gs_head::split_gaussians(&host, 1, 2);
    assert_eq!(g.raw_gs[0..3], [Fixed(0), Fixed(2 * 65536), Fixed(4 * 65536)]);
    assert_eq!(g.raw_gs[37..40], [Fixed(65536), Fixed(3 * 65536), Fixed(5 * 65536)]);
    assert_eq!(g.raw_gs.len(), 74);
    assert_eq!(g.gs_conf.len(), 2);
}

// ---- timings and exports ----------------------------------------------------------

#[test]
fn timings_add_up_where_they_are_wanted() {
    let ms = |n: i64| Fixed(n * 65536);
    let pass = || Timings {
        load_ms: ms(1),
        preprocess_ms: ms(2),
        backbone_ms: ms(4),
        head_ms: ms(8),
        pose_ms: ms(16),
        activate_ms: ms(32),
        total_ms: ms(0),
    };
    let mut c: Clock<Fixed> = Clock::new(true);
    assert_eq!(c.last_timings().total_ms, ms(0));
    c.record(pass());
    assert_eq!(c.last_timings().total_ms, ms(62));
    let mut off: Clock<Fixed> = Clock::new(false);
    off.record(pass());
    assert_eq!(off.last_timings().total_ms, ms(0));
    assert_eq!(off.last_timings().backbone_ms, ms(0));
    let shared = pass().per_view(2);
    assert_eq!((shared.backbone_ms, shared.head_ms, shared.pose_ms), (ms(2), ms(4), ms(16)));
}

#[test]
fn exports_hold_what_is_asked_for() {
    let e = engine_of(&model(true, weight), false);
    let (depth, pose) = e.depth_pose_image(&image(3), &no_aids()).unwrap();
    let points = || WorldPoints {
        xyz: vec![Fixed(65536); 3],
        rgb: vec![1, 2, 3],
        frame: vec![0],
        u: vec![0],
        v: vec![0],
    };
    let inputs = ExportInputs {
        scene_points: points(),
        model_points: points(),
        intrinsics_inverse: None,
        ext_inverse: None,
        qvec: [Fixed(65536), Fixed(0), Fixed(0), Fixed(0)],
    };
    let nothing: ExportSpec<Fixed> = ExportSpec::default();
    assert!(nothing.colmap_binary);
    let out = engine::write_exports::<Fixed, Fixed>(&nothing, &image(3), &depth, &pose, &inputs);
    assert!(out.glb.is_none() && out.colmap.is_none());
    assert!(!out.result().glb_written && !out.result().colmap_written);
    let all = ExportSpec {
        glb_path: Some("a.glb".to_string()),
        colmap_dir: Some("sparse".to_string()),
        colmap_binary: false,
        ..ExportSpec::default()
    };
    let out = engine::write_exports::<Fixed, Fixed>(&all, &image(3), &depth, &pose, &inputs);
    assert!(out.result().glb_written && out.result().colmap_written);
    assert_eq!(&out.glb.unwrap()[0..4], b"glTF");
    let images = String::from_utf8(out.colmap.unwrap().images).unwrap();
    assert!(images.contains("image0001.png"));
    let four = engine::pose_ext_to_4x4(&pose.ext);
    assert_eq!(four[0..12], pose.ext);
    assert_eq!(four[12..16], [Fixed(0), Fixed(0), Fixed(0), Fixed(65536)]);
}

#[test]
fn a_solved_camera_is_given_out_as_it_is() {
    let (ext, intr) = ([Fixed(3); 12], [Fixed(5); 9]);
    let (focal, pp) = ([Fixed(7), Fixed(8)], [Fixed(9), Fixed(10)]);
    let out = engine::ray_pose_output(ext, intr, 17, focal, pp);
    assert_eq!((out.ext, out.intr), (ext, intr));
    assert_eq!(out.diag.n_inlier_best, 17);
    assert_eq!((out.diag.focal, out.diag.pp), (focal, pp));
}

#[test]
fn a_camera_that_is_not_turned_sees_the_world_moved() {
    let pose: Vec<Fixed> =
        [3, -5, 7, 0, 0, 0, 1, 1, 1].iter().map(|x| Fixed(x * 65536)).collect();
    let (ext, intr) = cam_pose::decode_pose(&pose, 6, 4).unwrap();
    let want = [1, 0, 0, -3, 0, 1, 0, 5, 0, 0, 1, -7];
    assert_eq!(ext.to_vec(), want.iter().map(|x| Fixed(x * 65536)).collect::<Vec<_>>());
    assert_eq!((intr[2], intr[5], intr[8]), (Fixed(3 * 65536), Fixed(2 * 65536), Fixed(65536)));
}

#[test]
fn a_turn_does_not_depend_on_the_length_of_its_quaternion() {
    let pose = |n: i64| -> Vec<Fixed> {
        [3, -5, 7, n, n, n, n, 1, 1].iter().map(|x| Fixed(x * 65536)).collect()
    };
    let (short, intr) = cam_pose::decode_pose(&pose(1), 6, 4).unwrap();
    let (long, _) = cam_pose::decode_pose(&pose(2), 6, 4).unwrap();
    assert_eq!(short, long);
    for i in 0..3 {
        for j in 0..3 {
            let dot: i64 = (0..3).map(|k| short[i * 4 + k].0 * short[j * 4 + k].0 / 65536).sum();
            assert_eq!(dot, if i == j { 65536 } else { 0 });
        }
    }
    assert_eq!((intr[2], intr[5]), (Fixed(3 * 65536), Fixed(2 * 65536)));
}

#[test]
fn poses_of_too_few_numbers_are_refused() {
    let r = cam_pose::decode_pose(&[Fixed(0); 8], 4, 4);
    assert!(matches!(r, Err(Error::Model(ModelError::PoseLength { got: 8 }))));
}

#[test]
fn errors_say_what_went_wrong() {
    let said = |e: Error| e.message();
    assert_eq!(said(Error::Gguf(GgufError::BadMagic(0xab))), "gguf error: bad magic: 0x000000ab");
    assert_eq!(
        said(Error::Gguf(GgufError::UnsupportedVersion(1))),
        "gguf error: unsupported GGUF version 1 (need 2 or 3)"
    );
    assert_eq!(
        said(Error::Model(ModelError::TensorNotFound("x".to_string()))),
        "model error: tensor not found: x"
    );
    assert_eq!(
        said(Error::Model(ModelError::LayerNotCaptured(-3))),
        "model error: out_layer -3 not captured"
    );
    assert_eq!(
        said(Error::Model(ModelError::FieldLength { array: "depth", expected: 3, got: 2 })),
        "model error: gs_adapter: depth expected length 3, got 2"
    );
    assert_eq!(
        said(Error::Model(ModelError::NotPatchAligned { height: 4, width: 6, patch: 5 })),
        "model error: nested metric: processed dims 4x6 not divisible by metric patch_size 5"
    );
    assert_eq!(
        said(Error::Model(ModelError::GaussianOutput { channels: 3, height: 4, width: 6 })),
        "model error: gs_head: expected logits [1, 38, H, W], got [1, 3, 4, 6]"
    );
    assert_eq!(
        said(Error::Model(ModelError::PoseLength { got: 8 })),
        "model error: pose_enc needs 9 values, got 8"
    );
    assert_eq!(
        said(Error::Model(ModelError::Missing("z".to_string()))),
        "model error: missing z"
    );
    assert_eq!(
        said(Error::Model(ModelError::NoViews)),
        "model error: forward_mv: empty view batch"
    );
    assert_eq!(said(Error::Unimplemented("y".to_string())), "not yet implemented: y");
}
