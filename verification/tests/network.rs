use depth_anything::attention;
use depth_anything::dpt_head;
use depth_anything::fast_attn;
use depth_anything::fast_block;
use depth_anything::fast_conv;
use depth_anything::fast_dpt;
use depth_anything::flash_attn;
use depth_anything::norm;
use depth_anything::pos_embed;
use depth_anything::scalar::{Analytic, Scalar};
use depth_anything::winograd;

/// Single precision.
#[derive(Clone, Copy, Debug, PartialEq)]
struct F(f32);

impl Scalar for F {
    fn ratio(num: i32, den: u32) -> Self {
        F(num as f32 / den as f32)
    }
    fn from_count(n: usize) -> Self {
        F(n as f32)
    }
    fn from_bits(bits: u32) -> Self {
        F(f32::from_bits(bits))
    }
    fn from_half_bits(bits: u16) -> Self {
        F(half::f16::from_bits(bits).to_f32())
    }
    fn from_double_bits(bits: u64) -> Self {
        F(f64::from_bits(bits) as f32)
    }
    fn plus(self, other: Self) -> Self {
        F(self.0 + other.0)
    }
    fn minus(self, other: Self) -> Self {
        F(self.0 - other.0)
    }
    fn times(self, other: Self) -> Self {
        F(self.0 * other.0)
    }
    fn over(self, other: Self) -> Self {
        F(self.0 / other.0)
    }
    fn negated(self) -> Self {
        F(-self.0)
    }
    fn less(self, other: Self) -> bool {
        self.0 < other.0
    }
    fn same(self, other: Self) -> bool {
        self.0 == other.0
    }
    fn larger(self, other: Self) -> Self {
        F(self.0.max(other.0))
    }
    fn floor_count(self) -> usize {
        self.0 as usize
    }
    fn precedes(self, other: Self) -> bool {
        self.0.total_cmp(&other.0).is_lt()
    }
    fn ratio_spec(num: i32, den: u32) -> Self {
        Self::ratio(num, den)
    }
    fn from_count_spec(n: usize) -> Self {
        Self::from_count(n)
    }
    fn from_bits_spec(bits: u32) -> Self {
        Self::from_bits(bits)
    }
    fn from_half_bits_spec(bits: u16) -> Self {
        Self::from_half_bits(bits)
    }
    fn from_double_bits_spec(bits: u64) -> Self {
        Self::from_double_bits(bits)
    }
    fn plus_spec(self, other: Self) -> Self {
        self.plus(other)
    }
    fn minus_spec(self, other: Self) -> Self {
        self.minus(other)
    }
    fn times_spec(self, other: Self) -> Self {
        self.times(other)
    }
    fn over_spec(self, other: Self) -> Self {
        self.over(other)
    }
    fn negated_spec(self) -> Self {
        self.negated()
    }
    fn less_spec(self, other: Self) -> bool {
        self.less(other)
    }
    fn same_spec(self, other: Self) -> bool {
        self.same(other)
    }
    fn smaller(self, other: Self) -> Self {
        F(self.0.min(other.0))
    }
    fn smaller_spec(self, other: Self) -> Self {
        self.smaller(other)
    }
    fn larger_spec(self, other: Self) -> Self {
        self.larger(other)
    }
    fn floor_count_spec(self) -> usize {
        self.floor_count()
    }
    fn precedes_spec(self, other: Self) -> bool {
        self.precedes(other)
    }
}

impl Analytic for F {
    fn lowest() -> Self {
        F(f32::NEG_INFINITY)
    }
    fn root(self) -> Self {
        F(self.0.sqrt())
    }
    fn exponential(self) -> Self {
        F(self.0.exp())
    }
    fn magnitude(self) -> Self {
        F(self.0.abs())
    }
    fn signed_like(self, other: Self) -> Self {
        F(self.0.copysign(other.0))
    }
    fn rounded_down(self) -> Self {
        F(self.0.floor())
    }
    fn rounded_up(self) -> Self {
        F(self.0.ceil())
    }
    fn rounded(self) -> Self {
        F(self.0.round())
    }
    fn greatest() -> Self {
        F(f32::INFINITY)
    }
    fn nearest(self) -> Self {
        F(self.0.round_ties_even())
    }
    fn greatest_spec() -> Self {
        Self::greatest()
    }
    fn nearest_spec(self) -> Self {
        self.nearest()
    }
    fn lowest_spec() -> Self {
        Self::lowest()
    }
    fn root_spec(self) -> Self {
        self.root()
    }
    fn exponential_spec(self) -> Self {
        self.exponential()
    }
    fn magnitude_spec(self) -> Self {
        self.magnitude()
    }
    fn signed_like_spec(self, other: Self) -> Self {
        self.signed_like(other)
    }
    fn rounded_down_spec(self) -> Self {
        self.rounded_down()
    }
    fn rounded_up_spec(self) -> Self {
        self.rounded_up()
    }
    fn rounded_spec(self) -> Self {
        self.rounded()
    }
}

/// The numbers of a slice.
fn up(v: &[f32]) -> Vec<F> {
    v.iter().map(|&x| F(x)).collect()
}

/// What the numbers hold.
fn down(v: &[F]) -> Vec<f32> {
    v.iter().map(|x| x.0).collect()
}

fn opts() -> fast_conv::ConvOptions {
    fast_conv::ConvOptions::default()
}

fn conv3x3_pad1(
    x: &[f32],
    w: &[f32],
    b: &[f32],
    n: usize,
    ic: usize,
    h: usize,
    wid: usize,
    oc: usize,
) -> Vec<f32> {
    down(&fast_conv::conv3x3_pad1(&up(x), &up(w), &up(b), n, ic, h, wid, oc, opts()))
}

fn conv3x3_pad1_wino(
    x: &[f32],
    w: &[f32],
    b: &[f32],
    n: usize,
    ic: usize,
    h: usize,
    wid: usize,
    oc: usize,
    relu_input: bool,
    residual: Option<&[f32]>,
    relu_output: bool,
) -> Vec<f32> {
    let residual: Option<Vec<F>> = residual.map(up);
    down(&fast_conv::conv3x3_pad1_wino::<F, winograd::F4>(
        &up(x),
        &up(w),
        &up(b),
        n,
        ic,
        h,
        wid,
        oc,
        h,
        wid,
        relu_input,
        residual.as_deref(),
        relu_output,
        None,
    ))
}

fn conv3x3_pad1_relu_out_upsample(
    x: &[f32],
    w: &[f32],
    b: &[f32],
    n: usize,
    ic: usize,
    h_lo: usize,
    w_lo: usize,
    oc: usize,
    h: usize,
    wid: usize,
    add: Option<&[f32]>,
) -> Vec<f32> {
    let add: Option<Vec<F>> = add.map(up);
    down(&fast_conv::conv3x3_pad1_relu_out_upsample(
        &up(x),
        &up(w),
        &up(b),
        n,
        ic,
        h_lo,
        w_lo,
        oc,
        h,
        wid,
        add.as_deref(),
        opts(),
    ))
}

fn conv1x1(
    x: &[f32],
    w: &[f32],
    b: &[f32],
    n: usize,
    ic: usize,
    h: usize,
    wid: usize,
    oc: usize,
) -> Vec<f32> {
    down(&fast_conv::conv1x1(&up(x), &up(w), &up(b), n, ic, h, wid, oc))
}

fn conv1x1_upsample(
    x: &[f32],
    w: &[f32],
    b: &[f32],
    n: usize,
    ic: usize,
    h_lo: usize,
    w_lo: usize,
    oc: usize,
    h: usize,
    wid: usize,
) -> Vec<f32> {
    down(&fast_conv::conv1x1_upsample(&up(x), &up(w), &up(b), n, ic, h_lo, w_lo, oc, h, wid))
}

fn forward(
    q: &[f32],
    k: &[f32],
    v: &[f32],
    out: &mut Vec<f32>,
    heads: usize,
    n: usize,
    hd: usize,
    scale: f32,
) {
    *out = down(&flash_attn::forward(&up(q), &up(k), &up(v), heads, n, hd, F(scale)));
}

fn forward_per_query(
    q: &[f32],
    k: &[f32],
    v: &[f32],
    out: &mut Vec<f32>,
    heads: usize,
    n: usize,
    hd: usize,
    scale: f32,
) {
    *out = down(&flash_attn::forward_per_query(&up(q), &up(k), &up(v), heads, n, hd, F(scale)));
}

fn softmax_rows_inplace(buf: &mut Vec<f32>, rows: usize) {
    let mut v: Vec<F> = up(buf);
    flash_attn::softmax_rows_inplace(&mut v, rows);
    *buf = down(&v);
}

fn layernorm_1d(x: &mut Vec<f32>, w: &[f32], b: &[f32], eps: f32) {
    *x = down(&norm::layernorm_1d(&up(x), &up(w), &up(b), F(eps)));
}

fn layernorm_rows(
    x: &[f32],
    dst: &mut Vec<f32>,
    n: usize,
    dim: usize,
    w: &[f32],
    b: &[f32],
    eps: f32,
) {
    *dst = down(&fast_block::layernorm_rows(&up(x), n, dim, &up(w), &up(b), F(eps)));
}

fn exp_fast(x: f32) -> f32 {
    fast_block::exp_fast(F(x)).0
}

fn erff(x: f32) -> f32 {
    fast_block::erff(F(x)).0
}

fn gelu_erf(x: f32) -> f32 {
    fast_block::gelu_erf(F(x)).0
}

fn silu(x: f32) -> f32 {
    fast_block::silu(F(x)).0
}

fn gelu_erf_slice(x: &mut Vec<f32>) {
    let mut v: Vec<F> = up(x);
    fast_block::gelu_erf_slice(&mut v);
    *x = down(&v);
}

fn apply_rope2d_1d(src: &[f32], dst: &mut Vec<f32>, cos: &[f32], sin: &[f32]) {
    *dst = down(&fast_attn::apply_rope2d_1d(&up(src), &up(cos), &up(sin)));
}

/// Attention over plain slices.
struct FastAttention(fast_attn::FastAttention<F>);

impl FastAttention {
    fn from_raw_weights(
        qkv_w: &[f32],
        qkv_b: &[f32],
        proj_w: &[f32],
        proj_b: &[f32],
        heads: usize,
        head_dim: usize,
        embed: usize,
    ) -> Self {
        FastAttention(fast_attn::FastAttention::from_raw_weights(
            &up(qkv_w),
            &up(qkv_b),
            &up(proj_w),
            &up(proj_b),
            None,
            None,
            heads,
            head_dim,
            embed,
        ))
    }

    fn forward(&self, x: &[f32], n: usize, rope: Option<(&[f32], &[f32])>) -> Vec<f32> {
        let rope: Option<(Vec<F>, Vec<F>)> = rope.map(|(cos, sin)| (up(cos), up(sin)));
        let flash: bool = fast_attn::flash_attn_enabled(None);
        down(&match &rope {
            Some((cos, sin)) => self.0.forward(&up(x), n, Some((cos, sin)), flash),
            None => self.0.forward(&up(x), n, None, flash),
        })
    }
}

fn cubic(x: f32) -> f32 {
    pos_embed::cubic(F(x)).0
}

fn interp_pos_embed(
    pe: &[f32],
    embed: usize,
    m: usize,
    gh: usize,
    gw: usize,
    offset: f32,
) -> Vec<f32> {
    down(&pos_embed::interp_pos_embed(&up(pe), embed, m, gh, gw, F(offset)))
}

fn pseudo_random(seed: u64, len: usize) -> Vec<f32> {
    let mut state = seed;
    (0..len)
        .map(|_| {
            state = state
                .wrapping_mul(6364136223846793005)
                .wrapping_add(1442695040888963407);
            ((state >> 33) as f32) / (1u64 << 31) as f32 - 1.0
        })
        .collect()
}

fn max_abs_diff(a: &[f32], b: &[f32]) -> f32 {
    a.iter()
        .zip(b.iter())
        .map(|(x, y)| (x - y).abs())
        .fold(0.0f32, f32::max)
}

fn reference_attention(
    x: &[f32],
    n: usize,
    qkv_w: &[f32],
    qkv_b: &[f32],
    proj_w: &[f32],
    proj_b: &[f32],
    heads: usize,
    head_dim: usize,
) -> Vec<f32> {
    let embed = heads * head_dim;
    let mut qkv = vec![0.0f32; n * 3 * embed];
    for i in 0..n {
        for j in 0..3 * embed {
            let mut s = qkv_b[j];
            for k in 0..embed {
                s += x[i * embed + k] * qkv_w[j * embed + k];
            }
            qkv[i * 3 * embed + j] = s;
        }
    }
    let mut out = vec![0.0f32; n * embed];
    for h in 0..heads {
        let scale = 1.0 / (head_dim as f32).sqrt();
        let mut scores = vec![0.0f32; n * n];
        for i in 0..n {
            for j in 0..n {
                let mut s = 0.0f32;
                for d in 0..head_dim {
                    let q = qkv[i * 3 * embed + h * head_dim + d];
                    let k = qkv[j * 3 * embed + embed + h * head_dim + d];
                    s += q * k;
                }
                scores[i * n + j] = s * scale;
            }
        }
        for r in 0..n {
            let row = &mut scores[r * n..(r + 1) * n];
            let mut max = f32::NEG_INFINITY;
            for &v in row.iter() {
                if v > max {
                    max = v;
                }
            }
            let mut sum = 0.0;
            for v in row.iter_mut() {
                *v = (*v - max).exp();
                sum += *v;
            }
            for v in row.iter_mut() {
                *v /= sum;
            }
        }
        for i in 0..n {
            for d in 0..head_dim {
                let mut s = 0.0f32;
                for j in 0..n {
                    let v = qkv[j * 3 * embed + 2 * embed + h * head_dim + d];
                    s += scores[i * n + j] * v;
                }
                out[i * embed + h * head_dim + d] = s;
            }
        }
    }
    let mut result = vec![0.0f32; n * embed];
    for i in 0..n {
        for j in 0..embed {
            let mut s = proj_b[j];
            for k in 0..embed {
                s += out[i * embed + k] * proj_w[j * embed + k];
            }
            result[i * embed + j] = s;
        }
    }
    result
}

#[test]
fn forward_matches_reference_no_rope() {
    let heads = 4;
    let head_dim = 16;
    let embed = heads * head_dim;
    let n = 8;

    let qkv_w = pseudo_random(1, 3 * embed * embed);
    let qkv_b = pseudo_random(2, 3 * embed);
    let proj_w = pseudo_random(3, embed * embed);
    let proj_b = pseudo_random(4, embed);
    let x = pseudo_random(5, n * embed);

    let fast = FastAttention::from_raw_weights(
        &qkv_w, &qkv_b, &proj_w, &proj_b, heads, head_dim, embed,
    );
    let got = fast.forward(&x, n, None);
    let expected = reference_attention(
        &x,
        n,
        &qkv_w,
        &qkv_b,
        &proj_w,
        &proj_b,
        heads,
        head_dim,
    );
    let diff = max_abs_diff(&got, &expected);
    assert!(
        diff < 1e-2,
        "fast attention disagrees with reference (max |d| = {diff})"
    );
}

#[test]
fn forward_matches_reference_with_rope() {
    let heads = 4;
    let head_dim = 16;
    let embed = heads * head_dim;
    let n = 8;

    let qkv_w = pseudo_random(11, 3 * embed * embed);
    let qkv_b = pseudo_random(12, 3 * embed);
    let proj_w = pseudo_random(13, embed * embed);
    let proj_b = pseudo_random(14, embed);
    let x = pseudo_random(15, n * embed);
    let cos = pseudo_random(16, n * head_dim);
    let sin = pseudo_random(17, n * head_dim);

    let fast = FastAttention::from_raw_weights(
        &qkv_w, &qkv_b, &proj_w, &proj_b, heads, head_dim, embed,
    );
    let got = fast.forward(&x, n, Some((&cos, &sin)));
    for &v in &got {
        assert!(v.is_finite(), "non-finite output from forward_with_rope");
    }
}

#[test]
fn rope2d_leaves_zero_position_unchanged() {
    let head_dim = 16usize;
    let mut cos = vec![0.0f32; head_dim];
    let mut sin = vec![0.0f32; head_dim];
    for i in 0..head_dim {
        cos[i] = if i == 0 { 1.0 } else { 0.7 };
        sin[i] = 0.0;
    }
    let src: Vec<f32> = (0..head_dim).map(|i| i as f32).collect();
    let mut dst = vec![0.0f32; head_dim];
    apply_rope2d_1d(&src, &mut dst, &cos, &sin);
    assert!((dst[0] - src[0]).abs() < 1e-6);
    for i in 1..head_dim {
        assert!((dst[i] - src[i] * 0.7).abs() < 1e-5, "i={i}");
    }
}

#[test]
fn softmax_sums_to_one() {
    let mut buf = vec![1.0f32, 2.0, 3.0, -1.0, 0.5, 0.0];
    softmax_rows_inplace(&mut buf, 2);
    let s0: f32 = buf[0..3].iter().sum();
    let s1: f32 = buf[3..6].iter().sum();
    assert!((s0 - 1.0).abs() < 1e-5, "row0 sum={s0}");
    assert!((s1 - 1.0).abs() < 1e-5, "row1 sum={s1}");
    for &v in &buf {
        assert!(v >= 0.0 && v <= 1.0);
    }
}

#[test]
fn layernorm_zero_mean_unit_variance_before_affine() {
    let mut x = vec![1.0f32, 2.0, 3.0, 4.0];
    let w = vec![1.0f32; 4];
    let b = vec![0.0f32; 4];
    layernorm_1d(&mut x, &w, &b, 0.0);
    let mean = x.iter().sum::<f32>() / 4.0;
    assert!(mean.abs() < 1e-5, "post-ln mean={mean}");
    let var = x.iter().map(|v| v * v).sum::<f32>() / 4.0;
    assert!((var - 1.0).abs() < 1e-4, "post-ln var={var}");
}

#[test]
fn repeated_forwards_match_fresh_instance() {
    let heads = 4;
    let head_dim = 16;
    let embed = heads * head_dim;
    let n = 8;
    let qkv_w = pseudo_random(31, 3 * embed * embed);
    let qkv_b = pseudo_random(32, 3 * embed);
    let proj_w = pseudo_random(33, embed * embed);
    let proj_b = pseudo_random(34, embed);
    let x = pseudo_random(35, n * embed);

    let reused = FastAttention::from_raw_weights(
        &qkv_w, &qkv_b, &proj_w, &proj_b, heads, head_dim, embed,
    );
    let y1 = reused.forward(&x, n, None);
    let y2 = reused.forward(&x, n, None);
    let diff = max_abs_diff(&y1, &y2);
    assert!(diff < 1e-5, "repeated forwards disagree by {diff}");
}

#[test]
fn handles_variable_n_with_reused_buffers() {
    let heads = 2;
    let head_dim = 8;
    let embed = heads * head_dim;
    let qkv_w = pseudo_random(41, 3 * embed * embed);
    let qkv_b = pseudo_random(42, 3 * embed);
    let proj_w = pseudo_random(43, embed * embed);
    let proj_b = pseudo_random(44, embed);

    let fast = FastAttention::from_raw_weights(
        &qkv_w, &qkv_b, &proj_w, &proj_b, heads, head_dim, embed,
    );
    let x_big = pseudo_random(45, 16 * embed);
    let _ = fast.forward(&x_big, 16, None);
    let x_small = pseudo_random(46, 4 * embed);
    let got = fast.forward(&x_small, 4, None);

    let fresh = FastAttention::from_raw_weights(
        &qkv_w, &qkv_b, &proj_w, &proj_b, heads, head_dim, embed,
    );
    let expected = fresh.forward(&x_small, 4, None);
    let diff = max_abs_diff(&got, &expected);
    assert!(diff < 1e-4, "variable-n disagree by {diff}");
}

#[test]
fn gelu_erf_matches_known_values() {
    assert!((gelu_erf(0.0) - 0.0).abs() < 1e-5);
    assert!(
        (gelu_erf(1.0) - 0.84119).abs() < 1e-3,
        "gelu(1)={}",
        gelu_erf(1.0)
    );
    assert!((gelu_erf(-1.0) - (-0.15880)).abs() < 1e-3);
    assert!((gelu_erf(2.0) - 1.95449).abs() < 1e-3);
}

#[test]
fn silu_matches_known_values() {
    assert!((silu(0.0) - 0.0).abs() < 1e-5);
    assert!((silu(1.0) - 0.73105).abs() < 1e-3);
    assert!((silu(2.0) - 1.76159).abs() < 1e-3);
}

fn erff_reference(x: f32) -> f32 {
    let sign: f32 = if x < 0.0 { -1.0 } else { 1.0 };
    let ax = x.abs();
    let p = 0.3275911_f32;
    let a1 = 0.254829592_f32;
    let a2 = -0.284496736_f32;
    let a3 = 1.421413741_f32;
    let a4 = -1.453152027_f32;
    let a5 = 1.061405429_f32;
    let t = 1.0 / (1.0 + p * ax);
    let poly = ((((a5 * t + a4) * t + a3) * t + a2) * t + a1) * t;
    let y = 1.0 - poly * (-ax * ax).exp();
    sign * y
}

#[test]
fn exp_fast_matches_libm() {
    let mut max_rel = 0.0_f32;
    let mut worst_x = 0.0_f32;
    let mut i = 0;
    while i < 2000 {
        let x = -18.0_f32 + (i as f32) * (36.0 / 2000.0);
        let got = exp_fast(x);
        let want = x.exp();
        let abs = (got - want).abs();
        let rel = abs / want.abs().max(1e-30);
        if rel > max_rel {
            max_rel = rel;
            worst_x = x;
        }
        i += 1;
    }
    assert!(
        max_rel < 2e-6,
        "exp_fast max rel error {max_rel:e} at x={worst_x} exceeds 2e-6"
    );
}

#[test]
fn exp_fast_known_values() {
    assert!(
        (exp_fast(0.0) - 1.0).abs() < 1e-6,
        "exp(0)={}",
        exp_fast(0.0)
    );
    assert!((exp_fast(1.0) - core::f32::consts::E).abs() < 1e-5);
    assert!((exp_fast(-1.0) - (1.0 / core::f32::consts::E)).abs() < 1e-5);
    assert!(
        exp_fast(-40.0) < 1e-10,
        "exp(-40)={} should underflow",
        exp_fast(-40.0)
    );
    assert!(exp_fast(10.0) > 22000.0, "exp(10)={}", exp_fast(10.0));
}

#[test]
fn erff_matches_reference_within_budget() {
    let mut max_diff = 0.0_f32;
    let mut worst_x = 0.0_f32;
    let mut i = 0;
    while i < 4000 {
        let x = -4.5_f32 + (i as f32) * (9.0 / 4000.0);
        let got = erff(x);
        let want = erff_reference(x);
        let d = (got - want).abs();
        if d > max_diff {
            max_diff = d;
            worst_x = x;
        }
        i += 1;
    }
    assert!(
        max_diff < 2e-7,
        "erff max diff vs reference = {max_diff:e} at x={worst_x}"
    );
}

#[test]
fn gelu_erf_stays_bounded_vs_reference() {
    let mut max_diff = 0.0_f32;
    let mut worst_x = 0.0_f32;
    let mut i = 0;
    while i < 4000 {
        let x = -6.0_f32 + (i as f32) * (12.0 / 4000.0);
        let got = gelu_erf(x);
        let want = 0.5 * x * (1.0 + erff_reference(x * (1.0_f32 / core::f32::consts::SQRT_2)));
        let d = (got - want).abs();
        if d > max_diff {
            max_diff = d;
            worst_x = x;
        }
        i += 1;
    }
    assert!(
        max_diff < 3e-7,
        "gelu_erf max diff vs reference = {max_diff:e} at x={worst_x}"
    );
}

#[test]
fn gelu_erf_slice_matches_scalar() {
    let mut rng: u64 = 0x1234_5678_9abc_def0;
    let mut next = || {
        rng ^= rng << 13;
        rng ^= rng >> 7;
        rng ^= rng << 17;
        ((rng as f32) / (u32::MAX as f32) - 0.5) * 12.0
    };
    let n = 865 * 3072;
    let mut input: Vec<f32> = (0..n).map(|_| next()).collect();
    let reference: Vec<f32> = input.iter().map(|&v| gelu_erf(v)).collect();
    gelu_erf_slice(&mut input);
    let mut max_diff = 0.0_f32;
    for (got, want) in input.iter().zip(reference.iter()) {
        let d = (got - want).abs();
        if d > max_diff {
            max_diff = d;
        }
    }
    assert!(
        max_diff < 1e-6,
        "gelu_erf_slice max diff vs scalar = {max_diff:e}"
    );
}

#[test]
fn gelu_erf_slice_tail_handles_non_multiple_of_8() {
    for len in [1usize, 7, 8, 9, 15, 16, 17, 100, 103] {
        let mut got = vec![0.5_f32; len];
        let mut want = got.clone();
        gelu_erf_slice(&mut got);
        for v in want.iter_mut() {
            *v = gelu_erf(*v);
        }
        let max_diff = got
            .iter()
            .zip(want.iter())
            .map(|(a, b)| (a - b).abs())
            .fold(0.0_f32, f32::max);
        assert!(
            max_diff < 1e-6,
            "len={len}: gelu_erf_slice max diff vs scalar = {max_diff:e}"
        );
    }
}

#[test]
fn layernorm_rows_zero_mean_unit_var_before_affine() {
    let n = 2;
    let dim = 4;
    let x = vec![1.0_f32, 2.0, 3.0, 4.0, 5.0, 6.0, 7.0, 8.0];
    let w = vec![1.0_f32; dim];
    let b = vec![0.0_f32; dim];
    let mut dst = vec![0.0_f32; n * dim];
    layernorm_rows(&x, &mut dst, n, dim, &w, &b, 0.0);
    for ni in 0..n {
        let row = &dst[ni * dim..(ni + 1) * dim];
        let mean = row.iter().sum::<f32>() / dim as f32;
        assert!(mean.abs() < 1e-5, "row {ni} mean={mean}");
        let var = row.iter().map(|v| v * v).sum::<f32>() / dim as f32;
        assert!((var - 1.0).abs() < 1e-4, "row {ni} var={var}");
    }
}

fn ref_attention(
    q: &[f32],
    k: &[f32],
    v: &[f32],
    heads: usize,
    n: usize,
    hd: usize,
    scale: f32,
) -> Vec<f32> {
    let per_head = n * hd;
    let mut out = vec![0.0f32; heads * per_head];
    for h in 0..heads {
        let qh = &q[h * per_head..(h + 1) * per_head];
        let kh = &k[h * per_head..(h + 1) * per_head];
        let vh = &v[h * per_head..(h + 1) * per_head];
        for i in 0..n {
            let mut scores = vec![0.0f32; n];
            let mut mx = f32::NEG_INFINITY;
            for j in 0..n {
                let mut d = 0.0f32;
                for d2 in 0..hd {
                    d += qh[i * hd + d2] * kh[j * hd + d2];
                }
                scores[j] = d * scale;
                if scores[j] > mx {
                    mx = scores[j];
                }
            }
            let mut sum = 0.0f32;
            for j in 0..n {
                scores[j] = (scores[j] - mx).exp();
                sum += scores[j];
            }
            let inv = if sum > 0.0 { 1.0 / sum } else { 0.0 };
            for d in 0..hd {
                let mut acc = 0.0f32;
                for j in 0..n {
                    acc += scores[j] * vh[j * hd + d];
                }
                out[h * per_head + i * hd + d] = acc * inv;
            }
        }
    }
    out
}

#[test]
fn tiled_matches_reference_small() {
    let (heads, n, hd) = (2, 5, 16);
    let len = heads * n * hd;
    let q: Vec<f32> = (0..len).map(|i| (i as f32 * 0.1).sin() * 0.5).collect();
    let k: Vec<f32> = (0..len).map(|i| (i as f32 * 0.07).cos() * 0.5).collect();
    let v: Vec<f32> = (0..len).map(|i| (i as f32 * 0.11).tan() * 0.1).collect();
    let scale = 1.0 / (hd as f32).sqrt();
    let mut out = vec![0.0f32; len];
    forward(&q, &k, &v, &mut out, heads, n, hd, scale);
    let reference = ref_attention(&q, &k, &v, heads, n, hd, scale);
    let d = max_abs_diff(&out, &reference);
    assert!(d < 1e-4, "tiled vs reference max abs diff = {d}");
}

#[test]
fn tiled_matches_reference_da3_shape() {
    let (heads, n, hd) = (1, 864, 64);
    let len = heads * n * hd;
    let q: Vec<f32> = (0..len)
        .map(|i| ((i as f32 * 0.013).fract() - 0.5) * 2.0)
        .collect();
    let k: Vec<f32> = (0..len)
        .map(|i| ((i as f32 * 0.017).fract() - 0.5) * 2.0)
        .collect();
    let v: Vec<f32> = (0..len)
        .map(|i| ((i as f32 * 0.019).fract() - 0.5) * 2.0)
        .collect();
    let scale = 1.0 / (hd as f32).sqrt();
    let mut out = vec![0.0f32; len];
    forward(&q, &k, &v, &mut out, heads, n, hd, scale);
    let reference = ref_attention(&q, &k, &v, heads, n, hd, scale);
    let d = max_abs_diff(&out, &reference);
    assert!(d < 5e-4, "tiled vs reference max abs diff = {d}");
}

#[test]
fn tiled_matches_reference_multi_head() {
    let (heads, n, hd) = (12, 200, 64);
    let len = heads * n * hd;
    let q: Vec<f32> = (0..len)
        .map(|i| ((i as f32 * 0.013).fract() - 0.5) * 2.0)
        .collect();
    let k: Vec<f32> = (0..len)
        .map(|i| ((i as f32 * 0.017).fract() - 0.5) * 2.0)
        .collect();
    let v: Vec<f32> = (0..len)
        .map(|i| ((i as f32 * 0.019).fract() - 0.5) * 2.0)
        .collect();
    let scale = 1.0 / (hd as f32).sqrt();
    let mut out = vec![0.0f32; len];
    forward(&q, &k, &v, &mut out, heads, n, hd, scale);
    let reference = ref_attention(&q, &k, &v, heads, n, hd, scale);
    let d = max_abs_diff(&out, &reference);
    assert!(d < 5e-4, "tiled vs reference max abs diff = {d}");
}

#[test]
fn tiled_and_per_query_agree() {
    let (heads, n, hd) = (3, 130, 32);
    let len = heads * n * hd;
    let q: Vec<f32> = (0..len)
        .map(|i| ((i as f32 * 0.013).fract() - 0.5) * 2.0)
        .collect();
    let k: Vec<f32> = (0..len)
        .map(|i| ((i as f32 * 0.017).fract() - 0.5) * 2.0)
        .collect();
    let v: Vec<f32> = (0..len)
        .map(|i| ((i as f32 * 0.019).fract() - 0.5) * 2.0)
        .collect();
    let scale = 1.0 / (hd as f32).sqrt();
    let mut out_tiled = vec![0.0f32; len];
    let mut out_pq = vec![0.0f32; len];
    forward(&q, &k, &v, &mut out_tiled, heads, n, hd, scale);
    forward_per_query(&q, &k, &v, &mut out_pq, heads, n, hd, scale);
    let d = max_abs_diff(&out_tiled, &out_pq);
    assert!(d < 1e-5, "tiled vs per-query max abs diff = {d}");
}

#[test]
fn zero_input_gives_zero_output() {
    let (heads, n, hd) = (1, 4, 8);
    let len = heads * n * hd;
    let q = vec![0.0f32; len];
    let k = vec![0.0f32; len];
    let v = vec![0.0f32; len];
    let scale = 1.0 / (hd as f32).sqrt();
    let mut out = vec![0.0f32; len];
    forward(&q, &k, &v, &mut out, heads, n, hd, scale);
    for &o in &out {
        assert!(o.abs() < 1e-6, "expected ~0 output, got {o}");
    }
}

fn naive_conv3x3_pad1(
    x: &[f32],
    w: &[f32],
    b: &[f32],
    n: usize,
    ic: usize,
    h: usize,
    wid: usize,
    oc: usize,
) -> Vec<f32> {
    let pad = 1usize;
    let mut out = vec![0.0f32; n * oc * h * wid];
    for n_i in 0..n {
        for oc_i in 0..oc {
            for y in 0..h {
                for x_i in 0..wid {
                    let mut s = b[oc_i];
                    for ic_i in 0..ic {
                        for ky in 0..3usize {
                            for kx in 0..3usize {
                                let iy = y as i32 + ky as i32 - pad as i32;
                                let ix = x_i as i32 + kx as i32 - pad as i32;
                                if iy >= 0 && iy < h as i32 && ix >= 0 && ix < wid as i32 {
                                    let xv = x[((n_i * ic + ic_i) * h + iy as usize) * wid
                                        + ix as usize];
                                    let wv = w[((oc_i * ic + ic_i) * 3 + ky) * 3 + kx];
                                    s += xv * wv;
                                }
                            }
                        }
                    }
                    out[((n_i * oc + oc_i) * h + y) * wid + x_i] = s;
                }
            }
        }
    }
    out
}
fn naive_conv1x1(
    x: &[f32],
    w: &[f32],
    b: &[f32],
    n: usize,
    ic: usize,
    h: usize,
    wid: usize,
    oc: usize,
) -> Vec<f32> {
    let hw = h * wid;
    let mut out = vec![0.0f32; n * oc * hw];
    for n_i in 0..n {
        for oc_i in 0..oc {
            for px in 0..hw {
                let mut s = b[oc_i];
                for ic_i in 0..ic {
                    s += x[((n_i * ic + ic_i) * hw) + px] * w[oc_i * ic + ic_i];
                }
                out[(n_i * oc + oc_i) * hw + px] = s;
            }
        }
    }
    out
}

fn approx_eq(a: &[f32], b: &[f32], tol: f32) -> bool {
    assert_eq!(a.len(), b.len());
    let mut max_diff = 0.0f32;
    for (x, y) in a.iter().zip(b.iter()) {
        let d = (x - y).abs();
        if d > max_diff {
            max_diff = d;
        }
    }
    if max_diff > tol {
        false
    } else {
        true
    }
}

#[test]
fn winograd_matches_naive_small() {
    let n = 1;
    let ic = 3;
    let h = 4;
    let wid = 4;
    let oc = 2;
    let x: Vec<f32> = (0..n * ic * h * wid)
        .map(|i| (i as f32) * 0.1 - 0.5)
        .collect();
    let w: Vec<f32> = (0..oc * ic * 9).map(|i| (i as f32) * 0.01 - 0.4).collect();
    let b: Vec<f32> = vec![0.5, -0.3];

    let naive = naive_conv3x3_pad1(&x, &w, &b, n, ic, h, wid, oc);
    let fast = conv3x3_pad1(&x, &w, &b, n, ic, h, wid, oc);
    assert!(approx_eq(&naive, &fast, 1e-4), "winograd vs naive mismatch");
}

#[test]
fn winograd_matches_naive_medium() {
    let n = 1;
    let ic = 4;
    let h = 8;
    let wid = 8;
    let oc = 4;
    let x: Vec<f32> = (0..n * ic * h * wid)
        .map(|i| (((i as f32) * 0.37) % 2.0) - 1.0)
        .collect();
    let w: Vec<f32> = (0..oc * ic * 9)
        .map(|i| (((i as f32) * 0.71) % 2.0) - 1.0)
        .collect();
    let b: Vec<f32> = vec![0.1, -0.2, 0.3, -0.4];

    let naive = naive_conv3x3_pad1(&x, &w, &b, n, ic, h, wid, oc);
    let fast = conv3x3_pad1(&x, &w, &b, n, ic, h, wid, oc);
    assert!(approx_eq(&naive, &fast, 1e-4));
}

#[test]
fn winograd_matches_naive_odd_dims() {
    let n = 1;
    let ic = 2;
    let h = 5;
    let wid = 7;
    let oc = 3;
    let x: Vec<f32> = (0..n * ic * h * wid).map(|i| (i as f32) * 0.03).collect();
    let w: Vec<f32> = (0..oc * ic * 9).map(|i| (i as f32) * 0.05 - 0.5).collect();
    let b: Vec<f32> = vec![1.0, 2.0, 3.0];

    let naive = naive_conv3x3_pad1(&x, &w, &b, n, ic, h, wid, oc);
    let fast = conv3x3_pad1(&x, &w, &b, n, ic, h, wid, oc);
    assert_eq!(naive.len(), fast.len(), "output length mismatch");
    assert!(approx_eq(&naive, &fast, 1e-4));
}

#[test]
fn winograd_matches_naive_batch2() {
    let n = 2;
    let ic = 2;
    let h = 6;
    let wid = 6;
    let oc = 2;
    let x: Vec<f32> = (0..n * ic * h * wid).map(|i| (i as f32) * 0.07).collect();
    let w: Vec<f32> = (0..oc * ic * 9).map(|i| (i as f32) * 0.11).collect();
    let b: Vec<f32> = vec![0.0, 0.0];

    let naive = naive_conv3x3_pad1(&x, &w, &b, n, ic, h, wid, oc);
    let fast = conv3x3_pad1(&x, &w, &b, n, ic, h, wid, oc);
    assert!(approx_eq(&naive, &fast, 1e-4));
}

#[test]
fn winograd_matches_naive_dpt_shape() {
    let n = 1;
    let ic = 16;
    let h = 42;
    let wid = 62;
    let oc = 16;
    let mut rng: u64 = 0x9e37_79b9_7f4a_7c15;
    let mut next = || {
        rng ^= rng << 13;
        rng ^= rng >> 7;
        rng ^= rng << 17;
        ((rng as u32) as f32) / (u32::MAX as f32) * 2.0 - 1.0
    };
    let x: Vec<f32> = (0..n * ic * h * wid).map(|_| next()).collect();
    let w: Vec<f32> = (0..oc * ic * 9).map(|_| next()).collect();
    let b: Vec<f32> = (0..oc).map(|_| next()).collect();

    let naive = naive_conv3x3_pad1(&x, &w, &b, n, ic, h, wid, oc);
    let fast = conv3x3_pad1(&x, &w, &b, n, ic, h, wid, oc);
    assert!(
        approx_eq(&naive, &fast, 1e-3),
        "DPT-shape winograd mismatch"
    );
}

#[test]
fn conv1x1_matches_naive() {
    let n = 1;
    let ic = 4;
    let h = 8;
    let wid = 8;
    let oc = 3;
    let x: Vec<f32> = (0..n * ic * h * wid).map(|i| (i as f32) * 0.03).collect();
    let w: Vec<f32> = (0..oc * ic).map(|i| (i as f32) * 0.05).collect();
    let b: Vec<f32> = vec![0.1, 0.2, 0.3];

    let naive = naive_conv1x1(&x, &w, &b, n, ic, h, wid, oc);
    let fast = conv1x1(&x, &w, &b, n, ic, h, wid, oc);
    assert!(approx_eq(&naive, &fast, 1e-4));
}

#[test]
fn winograd_identity_filter() {
    let n = 1;
    let ic = 1;
    let h = 6;
    let wid = 6;
    let oc = 1;
    let x: Vec<f32> = (0..n * ic * h * wid).map(|i| (i as f32) * 0.1).collect();
    let mut w = vec![0.0f32; oc * ic * 9];
    w[4] = 1.0;
    let b = vec![0.0];

    let fast = conv3x3_pad1(&x, &w, &b, n, ic, h, wid, oc);
    for y in 1..h - 1 {
        for x_i in 1..wid - 1 {
            let off = y * wid + x_i;
            assert!(
                (fast[off] - x[off]).abs() < 1e-5,
                "identity mismatch at ({y},{x_i}): fast={} vs x={}",
                fast[off],
                x[off]
            );
        }
    }
}

#[test]
fn winograd_zero_input() {
    let n = 1;
    let ic = 4;
    let h = 8;
    let wid = 8;
    let oc = 4;
    let x = vec![0.0f32; n * ic * h * wid];
    let w: Vec<f32> = (0..oc * ic * 9).map(|i| (i as f32) * 0.1).collect();
    let b: Vec<f32> = vec![1.0, 2.0, 3.0, 4.0];

    let fast = conv3x3_pad1(&x, &w, &b, n, ic, h, wid, oc);
    for oc_i in 0..oc {
        for px in 0..h * wid {
            let off = oc_i * h * wid + px;
            assert!(
                (fast[off] - b[oc_i]).abs() < 1e-5,
                "zero-input mismatch at oc={oc_i} px={px}: {} vs {}",
                fast[off],
                b[oc_i]
            );
        }
    }
}
fn conv3x3_f4(
    x: &[f32],
    w: &[f32],
    b: &[f32],
    n: usize,
    ic: usize,
    h: usize,
    wid: usize,
    oc: usize,
) -> Vec<f32> {
    conv3x3_pad1_wino(x, w, b, n, ic, h, wid, oc, false, None, false)
}

#[test]
fn winograd_f4_matches_naive_small() {
    let n = 1;
    let ic = 3;
    let h = 8;
    let wid = 8;
    let oc = 2;
    let x: Vec<f32> = (0..n * ic * h * wid)
        .map(|i| (i as f32) * 0.1 - 0.5)
        .collect();
    let w: Vec<f32> = (0..oc * ic * 9).map(|i| (i as f32) * 0.01 - 0.4).collect();
    let b: Vec<f32> = vec![0.5, -0.3];

    let naive = naive_conv3x3_pad1(&x, &w, &b, n, ic, h, wid, oc);
    let f4 = conv3x3_f4(&x, &w, &b, n, ic, h, wid, oc);
    assert!(
        approx_eq(&naive, &f4, 1e-3),
        "F(4,3) vs naive mismatch (max_diff = {:?})",
        naive.iter().zip(f4.iter()).map(|(a, b)| (a - b).abs()).fold(0.0f32, f32::max)
    );
}

#[test]
fn winograd_f4_matches_naive_dpt_shape() {
    let n = 1;
    let ic = 16;
    let h = 48;
    let wid = 64;
    let oc = 16;
    let mut rng: u64 = 0x9e37_79b9_7f4a_7c15;
    let mut next = || {
        rng ^= rng << 13;
        rng ^= rng >> 7;
        rng ^= rng << 17;
        ((rng as u32) as f32) / (u32::MAX as f32) * 2.0 - 1.0
    };
    let x: Vec<f32> = (0..n * ic * h * wid).map(|_| next()).collect();
    let w: Vec<f32> = (0..oc * ic * 9).map(|_| next()).collect();
    let b: Vec<f32> = (0..oc).map(|_| next()).collect();

    let naive = naive_conv3x3_pad1(&x, &w, &b, n, ic, h, wid, oc);
    let f4 = conv3x3_f4(&x, &w, &b, n, ic, h, wid, oc);
    assert!(
        approx_eq(&naive, &f4, 1e-3),
        "F(4,3) DPT-shape mismatch"
    );
}

#[test]
fn winograd_f4_matches_f2() {
    let n = 1;
    let ic = 8;
    let h = 16;
    let wid = 16;
    let oc = 8;
    let mut rng: u64 = 0x1234_5678_9abc_def0;
    let mut next = || {
        rng ^= rng << 13;
        rng ^= rng >> 7;
        rng ^= rng << 17;
        ((rng as u32) as f32) / (u32::MAX as f32) * 2.0 - 1.0
    };
    let x: Vec<f32> = (0..n * ic * h * wid).map(|_| next()).collect();
    let w: Vec<f32> = (0..oc * ic * 9).map(|_| next()).collect();
    let b: Vec<f32> = (0..oc).map(|_| next()).collect();

    let f2 = conv3x3_pad1(&x, &w, &b, n, ic, h, wid, oc);
    let f4 = conv3x3_f4(&x, &w, &b, n, ic, h, wid, oc);
    assert!(
        approx_eq(&f2, &f4, 1e-3),
        "F(2,3) vs F(4,3) mismatch"
    );
}

#[test]
fn winograd_f4_odd_dims() {
    let n = 1;
    let ic = 4;
    let h = 10;
    let wid = 14;
    let oc = 4;
    let x: Vec<f32> = (0..n * ic * h * wid).map(|i| (i as f32) * 0.03).collect();
    let w: Vec<f32> = (0..oc * ic * 9).map(|i| (i as f32) * 0.05 - 0.5).collect();
    let b: Vec<f32> = vec![1.0, 2.0, 3.0, 4.0];

    let naive = naive_conv3x3_pad1(&x, &w, &b, n, ic, h, wid, oc);
    let f4 = conv3x3_f4(&x, &w, &b, n, ic, h, wid, oc);
    assert_eq!(naive.len(), f4.len(), "output length mismatch");
    assert!(approx_eq(&naive, &f4, 1e-3));
}

#[test]
fn winograd_f4_relu_in_res_out() {
    let n = 1;
    let ic = 4;
    let h = 16;
    let wid = 16;
    let oc = 4;
    let x: Vec<f32> = (0..n * ic * h * wid)
        .map(|i| (((i as f32) * 0.37) % 2.0) - 1.0)
        .collect();
    let w: Vec<f32> = (0..oc * ic * 9)
        .map(|i| (((i as f32) * 0.71) % 2.0) - 1.0)
        .collect();
    let b: Vec<f32> = vec![0.1, -0.2, 0.3, -0.4];
    let residual: Vec<f32> = (0..n * oc * h * wid)
        .map(|i| (((i as f32) * 0.13) % 1.0) - 0.5)
        .collect();

    let relu_x: Vec<f32> = x.iter().map(|v| v.max(0.0)).collect();
    let naive_conv = naive_conv3x3_pad1(&relu_x, &w, &b, n, ic, h, wid, oc);
    let expected: Vec<f32> = naive_conv
        .iter()
        .zip(residual.iter())
        .map(|(c, r)| c + r)
        .collect();

    let out = conv3x3_pad1_wino(
        &x, &w, &b, n, ic, h, wid, oc, true, Some(&residual), false,
    );

    assert!(
        approx_eq(&expected, &out, 1e-3),
        "F(4,3) relu-in res-out mismatch"
    );
}

fn naive_upsample_ac(
    x: &[f32],
    c: usize,
    h_lo: usize,
    w_lo: usize,
    h: usize,
    w: usize,
) -> Vec<f32> {
    let mut out = vec![0.0f32; c * h * w];
    let sy = if h > 1 {
        (h_lo - 1) as f32 / (h - 1) as f32
    } else {
        0.0
    };
    let sx = if w > 1 {
        (w_lo - 1) as f32 / (w - 1) as f32
    } else {
        0.0
    };
    for ci in 0..c {
        let in_off = ci * h_lo * w_lo;
        let out_off = ci * h * w;
        for oy in 0..h {
            let fy = oy as f32 * sy;
            let y0 = fy.floor() as usize;
            let y1 = (y0 + 1).min(h_lo - 1);
            let wy = fy - y0 as f32;
            for ox in 0..w {
                let fx = ox as f32 * sx;
                let x0 = fx.floor() as usize;
                let x1 = (x0 + 1).min(w_lo - 1);
                let wx = fx - x0 as f32;
                let p00 = x[in_off + y0 * w_lo + x0];
                let p01 = x[in_off + y0 * w_lo + x1];
                let p10 = x[in_off + y1 * w_lo + x0];
                let p11 = x[in_off + y1 * w_lo + x1];
                let top = p00 * (1.0 - wx) + p01 * wx;
                let bot = p10 * (1.0 - wx) + p11 * wx;
                out[out_off + oy * w + ox] = top * (1.0 - wy) + bot * wy;
            }
        }
    }
    out
}

#[test]
fn upsample_fusion_matches_materialized() {
    let n = 1;
    let ic = 4;
    let h_lo = 12;
    let w_lo = 18;
    let h = 21;
    let w = 32;
    let oc = 3;
    let x: Vec<f32> = (0..n * ic * h_lo * w_lo)
        .map(|i| (((i as f32) * 0.37) % 2.0) - 1.0)
        .collect();
    let wt: Vec<f32> = (0..oc * ic * 9)
        .map(|i| (((i as f32) * 0.71) % 2.0) - 1.0)
        .collect();
    let b: Vec<f32> = vec![0.1, -0.2, 0.3];

    let up = naive_upsample_ac(&x, ic, h_lo, w_lo, h, w);
    let naive_conv = naive_conv3x3_pad1(&up, &wt, &b, n, ic, h, w, oc);
    let expected: Vec<f32> = naive_conv.iter().map(|v| v.max(0.0)).collect();

    let fused = conv3x3_pad1_relu_out_upsample(&x, &wt, &b, n, ic, h_lo, w_lo, oc, h, w, None);
    assert!(
        approx_eq(&expected, &fused, 1e-3),
        "upsample fusion vs materialised mismatch"
    );
}

#[test]
fn upsample_fusion_with_add() {
    let n = 1;
    let ic = 3;
    let h_lo = 8;
    let w_lo = 12;
    let h = 14;
    let w = 21;
    let oc = 2;
    let x: Vec<f32> = (0..n * ic * h_lo * w_lo)
        .map(|i| (((i as f32) * 0.43) % 2.0) - 1.0)
        .collect();
    let wt: Vec<f32> = (0..oc * ic * 9)
        .map(|i| (((i as f32) * 0.29) % 2.0) - 1.0)
        .collect();
    let b: Vec<f32> = vec![0.05, -0.1];
    let add: Vec<f32> = (0..ic * h * w)
        .map(|i| (((i as f32) * 0.13) % 1.0) - 0.5)
        .collect();

    let mut up = naive_upsample_ac(&x, ic, h_lo, w_lo, h, w);
    for (a, b) in up.iter_mut().zip(add.iter()) {
        *a += *b;
    }
    let naive_conv = naive_conv3x3_pad1(&up, &wt, &b, n, ic, h, w, oc);
    let expected: Vec<f32> = naive_conv.iter().map(|v| v.max(0.0)).collect();

    let fused =
        conv3x3_pad1_relu_out_upsample(&x, &wt, &b, n, ic, h_lo, w_lo, oc, h, w, Some(&add));
    assert!(
        approx_eq(&expected, &fused, 1e-3),
        "upsample fusion with add mismatch"
    );
}

#[test]
fn upsample_fusion_identity_filter() {
    let n = 1;
    let ic = 2;
    let h_lo = 8;
    let w_lo = 8;
    let h = 15;
    let w = 15;
    let oc = 2;
    let x: Vec<f32> = (0..n * ic * h_lo * w_lo)
        .map(|i| (((i as f32) * 0.19) % 2.0) - 1.0)
        .collect();
    let mut wt = vec![0.0f32; oc * ic * 9];
    for c in 0..ic.min(oc) {
        wt[(c * ic + c) * 9 + 4] = 1.0;
    }
    let b: Vec<f32> = vec![0.0; oc];

    let fused = conv3x3_pad1_relu_out_upsample(&x, &wt, &b, n, ic, h_lo, w_lo, oc, h, w, None);
    let up = naive_upsample_ac(&x, ic, h_lo, w_lo, h, w);

    for c in 0..oc.min(ic) {
        for oy in 1..h - 1 {
            for ox in 1..w - 1 {
                let idx = c * h * w + oy * w + ox;
                let expected = up[idx].max(0.0);
                let got = fused[idx];
                assert!(
                    (got - expected).abs() < 1e-3,
                    "identity-filter mismatch at c={}, oy={}, ox={}: got={}, expected={}",
                    c, oy, ox, got, expected
                );
            }
        }
    }
}

#[test]
fn conv1x1_upsample_matches_materialized() {
    let n = 1;
    let ic = 4;
    let h_lo = 12;
    let w_lo = 18;
    let h = 21;
    let w = 32;
    let oc = 5;
    let x: Vec<f32> = (0..n * ic * h_lo * w_lo)
        .map(|i| (((i as f32) * 0.37) % 2.0) - 1.0)
        .collect();
    let wt: Vec<f32> = (0..oc * ic)
        .map(|i| (((i as f32) * 0.71) % 2.0) - 1.0)
        .collect();
    let b: Vec<f32> = vec![0.1, -0.2, 0.3, 0.4, -0.5];

    let up = naive_upsample_ac(&x, ic, h_lo, w_lo, h, w);
    let expected = naive_conv1x1(&up, &wt, &b, n, ic, h, w, oc);

    let fused = conv1x1_upsample(&x, &wt, &b, n, ic, h_lo, w_lo, oc, h, w);
    assert!(
        approx_eq(&expected, &fused, 1e-4),
        "conv1x1_upsample vs materialised mismatch"
    );
}

#[test]
fn conv1x1_upsample_identity() {
    let n = 1;
    let ic = 3;
    let h_lo = 8;
    let w_lo = 8;
    let h = 15;
    let w = 15;
    let oc = 3;
    let x: Vec<f32> = (0..n * ic * h_lo * w_lo)
        .map(|i| (((i as f32) * 0.19) % 2.0) - 1.0)
        .collect();
    let mut wt = vec![0.0f32; oc * ic];
    for c in 0..ic.min(oc) {
        wt[c * ic + c] = 1.0;
    }
    let b: Vec<f32> = vec![0.0; oc];

    let fused = conv1x1_upsample(&x, &wt, &b, n, ic, h_lo, w_lo, oc, h, w);
    let expected = naive_upsample_ac(&x, ic, h_lo, w_lo, h, w);
    assert!(
        approx_eq(&expected, &fused, 1e-6),
        "conv1x1_upsample identity mismatch"
    );
}

#[test]
fn conv1x1_upsample_no_scale() {
    let n = 1;
    let ic = 4;
    let h = 12;
    let w = 18;
    let oc = 3;
    let x: Vec<f32> = (0..n * ic * h * w)
        .map(|i| (((i as f32) * 0.5) % 2.0) - 1.0)
        .collect();
    let wt: Vec<f32> = (0..oc * ic)
        .map(|i| (((i as f32) * 0.43) % 2.0) - 1.0)
        .collect();
    let b: Vec<f32> = vec![0.2, -0.1, 0.05];

    let expected = naive_conv1x1(&x, &wt, &b, n, ic, h, w, oc);
    let fused = conv1x1_upsample(&x, &wt, &b, n, ic, h, w, oc, h, w);
    assert!(
        approx_eq(&expected, &fused, 1e-5),
        "conv1x1_upsample no-scale mismatch"
    );
}

#[test]
fn layernorm_rows_matches_naive() {
    let n = 3;
    let dim = 5;
    let src: Vec<f32> = (0..n * dim).map(|i| (i as f32) * 0.1 - 1.0).collect();
    let w: Vec<f32> = (0..dim).map(|i| 0.5 + 0.1 * (i as f32)).collect();
    let b: Vec<f32> = (0..dim).map(|i| 0.01 * (i as f32)).collect();
    let mut dst = vec![0.0f32; n * dim];
    layernorm_rows(&src, &mut dst, n, dim, &w, &b, 1e-5);

    for ni in 0..n {
        let row = &src[ni * dim..(ni + 1) * dim];
        let mean = row.iter().sum::<f32>() / dim as f32;
        let var = row.iter().map(|v| (v - mean) * (v - mean)).sum::<f32>() / dim as f32;
        let inv_std = 1.0 / (var + 1e-5).sqrt();
        for d in 0..dim {
            let expected = (row[d] - mean) * inv_std * w[d] + b[d];
            assert!(
                (dst[ni * dim + d] - expected).abs() < 1e-5,
                "row {ni} dim {d}: got {} expected {}",
                dst[ni * dim + d],
                expected
            );
        }
    }
}

#[test]
fn conv_transpose_k_stride_matches_naive() {
    let in_c = 2;
    let out_c = 3;
    let k = 2;
    let stride = 2;
    let in_h = 2;
    let in_w = 2;
    let raw_weight: Vec<f32> = (0..in_c * out_c * k * k)
        .map(|i| (i as f32) * 0.01)
        .collect();
    let bias: Vec<f32> = vec![0.1; out_c];
    let x: Vec<f32> = (0..in_c * in_h * in_w).map(|i| (i as f32) * 0.5).collect();

    let mut weight = vec![0.0f32; in_c * k * k * out_c];
    for ic in 0..in_c {
        for ky in 0..k {
            for kx in 0..k {
                for oc in 0..out_c {
                    let src = ((ic * out_c + oc) * k + ky) * k + kx;
                    let dst = ((ic * k + ky) * k + kx) * out_c + oc;
                    weight[dst] = raw_weight[src];
                }
            }
        }
    }

    let w = fast_dpt::ConvTransposeW {
        weight: up(&weight),
        bias: up(&bias),
        in_c,
        out_c,
        k,
    };
    let out = fast_dpt::conv_transpose_k_stride(&w, &fast_dpt::Feat::new(up(&x), in_c, in_h, in_w));
    let out = down(&out.data);

    let out_h = (in_h - 1) * stride + k;
    let out_w = (in_w - 1) * stride + k;
    let mut naive = vec![0.0f32; out_c * out_h * out_w];
    for ic in 0..in_c {
        for iy in 0..in_h {
            for ix in 0..in_w {
                let xv = x[(ic * in_h + iy) * in_w + ix];
                for ky in 0..k {
                    for kx in 0..k {
                        let oy = iy * stride + ky;
                        let ox = ix * stride + kx;
                        for oc in 0..out_c {
                            let wv = raw_weight[((ic * out_c + oc) * k + ky) * k + kx];
                            naive[(oc * out_h + oy) * out_w + ox] += wv * xv;
                        }
                    }
                }
            }
        }
    }
    for oc in 0..out_c {
        let bv = bias[oc];
        for i in 0..out_h * out_w {
            naive[oc * out_h * out_w + i] += bv;
        }
    }

    for i in 0..naive.len() {
        assert!(
            (out[i] - naive[i]).abs() < 1e-5,
            "idx {i}: got {} expected {}",
            out[i],
            naive[i]
        );
    }
}

#[test]
fn conv3x3_stride2_pad1_matches_naive() {
    let ic = 2;
    let oc = 3;
    let in_h = 5;
    let in_w = 5;
    let out_h = (in_h + 1) / 2;
    let out_w = (in_w + 1) / 2;
    let weight: Vec<f32> = (0..oc * ic * 9).map(|i| (i as f32) * 0.01).collect();
    let bias: Vec<f32> = vec![0.1; oc];
    let x: Vec<f32> = (0..ic * in_h * in_w).map(|i| (i as f32) * 0.05).collect();
    let w = fast_dpt::Conv3x3W { weight: up(&weight), bias: up(&bias), ic, oc };
    let out = fast_dpt::conv3x3_stride2_pad1(&w, &fast_dpt::Feat::new(up(&x), ic, in_h, in_w));
    let out = down(&out.data);

    let mut naive = vec![0.0f32; oc * out_h * out_w];
    for oc_i in 0..oc {
        for oy in 0..out_h {
            for ox in 0..out_w {
                let mut acc = bias[oc_i];
                for ic_i in 0..ic {
                    for ky in 0..3 {
                        let iy = (2 * oy + ky).wrapping_sub(1);
                        if iy >= in_h {
                            continue;
                        }
                        for kx in 0..3 {
                            let ix = (2 * ox + kx).wrapping_sub(1);
                            if ix >= in_w {
                                continue;
                            }
                            let wv = weight[((oc_i * ic + ic_i) * 3 + ky) * 3 + kx];
                            acc += wv * x[(ic_i * in_h + iy) * in_w + ix];
                        }
                    }
                }
                naive[(oc_i * out_h + oy) * out_w + ox] = acc;
            }
        }
    }

    for i in 0..naive.len() {
        assert!(
            (out[i] - naive[i]).abs() < 1e-4,
            "idx {i}: got {} expected {}",
            out[i],
            naive[i]
        );
    }
}

#[test]
fn upsample_bilinear_ac_matches_naive() {
    let c = 2;
    let in_h = 2;
    let in_w = 2;
    let out_h = 4;
    let out_w = 4;
    let data: Vec<f32> = (0..c * in_h * in_w).map(|i| (i as f32) * 0.5).collect();
    let x = fast_dpt::Feat::new(up(&data), c, in_h, in_w);
    let out = down(&fast_dpt::upsample_bilinear_ac(&x, out_h, out_w, None).data);

    let scale_y = (in_h - 1) as f32 / (out_h - 1) as f32;
    let scale_x = (in_w - 1) as f32 / (out_w - 1) as f32;
    let mut naive = vec![0.0f32; c * out_h * out_w];
    for ci in 0..c {
        for oy in 0..out_h {
            let fy = oy as f32 * scale_y;
            let y0 = fy.floor() as usize;
            let y1 = (y0 + 1).min(in_h - 1);
            let wy = fy - y0 as f32;
            for ox in 0..out_w {
                let fx = ox as f32 * scale_x;
                let x0 = fx.floor() as usize;
                let x1 = (x0 + 1).min(in_w - 1);
                let wx = fx - x0 as f32;
                let p00 = data[ci * in_h * in_w + y0 * in_w + x0];
                let p01 = data[ci * in_h * in_w + y0 * in_w + x1];
                let p10 = data[ci * in_h * in_w + y1 * in_w + x0];
                let p11 = data[ci * in_h * in_w + y1 * in_w + x1];
                let top = p00 * (1.0 - wx) + p01 * wx;
                let bot = p10 * (1.0 - wx) + p11 * wx;
                naive[ci * out_h * out_w + oy * out_w + ox] = top * (1.0 - wy) + bot * wy;
            }
        }
    }
    for i in 0..naive.len() {
        assert!(
            (out[i] - naive[i]).abs() < 1e-5,
            "idx {i}: got {} expected {}",
            out[i],
            naive[i]
        );
    }
}

#[test]
fn cubic_kernel_matches_spec() {
    assert!((cubic(0.0) - 1.0).abs() < 1e-6);
    assert!(cubic(1.0).abs() < 1e-6);
    assert!(cubic(2.0).abs() < 1e-6);
    assert!(cubic(-1.0).abs() < 1e-6);
}

#[test]
fn identity_interp_when_grid_matches() {
    let embed = 4;
    let m = 3;
    let mut pe = vec![0.0f32; (1 + m * m) * embed];
    for (i, v) in pe.iter_mut().enumerate() {
        *v = i as f32 * 0.1;
    }
    let out = interp_pos_embed(&pe, embed, m, m, m, 0.1);
    for ch in 0..embed {
        assert!((out[ch] - pe[ch]).abs() < 1e-4, "CLS row mismatch at {ch}");
    }
    let out0 = interp_pos_embed(&pe, embed, m, m, m, 0.0);
    for i in 0..(1 + m * m) * embed {
        assert!((out0[i] - pe[i]).abs() < 1e-4, "identity mismatch at {i}");
    }
}

#[test]
fn layernorm_channels_last_matches_per_channel_norm() {
    // Two pixels, (0, 2) and (4, 6), stored channel by channel.
    let x = fast_dpt::Feat::new(up(&[0.0, 4.0, 2.0, 6.0]), 2, 1, 2);
    let y = dpt_head::layernorm_channels_last(&x, &up(&[1.0, 1.0]), &up(&[0.0, 0.0]), F(1e-12));
    let v = down(&y.data);
    let expected = [-1.0f32, -1.0, 1.0, 1.0];
    for (i, (got, exp)) in v.iter().zip(expected.iter()).enumerate() {
        assert!((got - exp).abs() < 1e-5, "idx {i}: {got} != {exp}");
    }
}

#[test]
fn layernorm_channels_last_affine_broadcast() {
    let x = fast_dpt::Feat::new(up(&[0.0, 4.0, 2.0, 6.0]), 2, 2, 1);
    let y = dpt_head::layernorm_channels_last(&x, &up(&[3.0, -1.0]), &up(&[10.0, 20.0]), F(1e-12));
    let v = down(&y.data);
    let expected = [7.0f32, 7.0, 19.0, 19.0];
    for (i, (got, exp)) in v.iter().zip(expected.iter()).enumerate() {
        assert!((got - exp).abs() < 1e-5, "idx {i}: {got} != {exp}");
    }
}

/// Cosines and sines of a rotary embedding: for each token the angles of its row
/// in the first half of the width, those of its column in the second.
fn rope_tables(pos: &[f32], width: usize, base: f32) -> (Vec<f32>, Vec<f32>) {
    let half: usize = width / 2;
    let quarter: usize = half / 2;
    let mut cos = Vec::new();
    let mut sin = Vec::new();
    for token in pos.chunks(2) {
        for p in token {
            for i in 0..half {
                let exponent: f32 = 2.0 * (i % quarter) as f32 / half as f32;
                let angle: f32 = p / base.powf(exponent);
                cos.push(angle.cos());
                sin.push(angle.sin());
            }
        }
    }
    (cos, sin)
}

#[test]
fn rope_leaves_cls_unchanged() {
    // The first token stands at the origin.
    let (cos, sin) = rope_tables(&[0.0, 0.0, 1.0, 1.0], 8, 100.0);
    let x: Vec<f32> = (0..16).map(|i| i as f32).collect();
    let y = down(&attention::apply_rope2d(&up(&x), &up(&cos), &up(&sin), 2, 1, 8));
    for i in 0..8 {
        assert!((x[i] - y[i]).abs() < 1e-5, "CLS token modified by rope at {i}");
    }
    assert!((8..16).any(|i| (x[i] - y[i]).abs() > 1e-3));
}
