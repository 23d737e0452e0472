use depth_anything::backbone::{self, reorder_by_reference, restore_original_order};
use depth_anything::colmap_export;
use depth_anything::depth_export;
use depth_anything::glb_export::{self, Camera, GlbOptions};
use depth_anything::gs_adapter::{self, BuildError, GsAdapter};
use depth_anything::linalg;
use depth_anything::nested;
use depth_anything::reconstruct::WorldPoints;
use depth_anything::scalar::{Analytic, Circular, Scalar, Stored, Style, Text, Widens};

/// Single precision.
#[derive(Clone, Copy, Debug, PartialEq)]
struct F(f32);

impl Scalar for F {
    fn ratio(num: i32, den: u32) -> Self {
        F(num as f32 / den as f32)
    }
    fn from_count(n: usize) -> Self {
        F(n as f32)
    }
    fn from_bits(bits: u32) -> Self {
        F(f32::from_bits(bits))
    }
    fn from_half_bits(bits: u16) -> Self {
        F(half::f16::from_bits(bits).to_f32())
    }
    fn from_double_bits(bits: u64) -> Self {
        F(f64::from_bits(bits) as f32)
    }
    fn plus(self, other: Self) -> Self {
        F(self.0 + other.0)
    }
    fn minus(self, other: Self) -> Self {
        F(self.0 - other.0)
    }
    fn times(self, other: Self) -> Self {
        F(self.0 * other.0)
    }
    fn over(self, other: Self) -> Self {
        F(self.0 / other.0)
    }
    fn negated(self) -> Self {
        F(-self.0)
    }
    fn less(self, other: Self) -> bool {
        self.0 < other.0
    }
    fn same(self, other: Self) -> bool {
        self.0 == other.0
    }
    fn larger(self, other: Self) -> Self {
        F(self.0.max(other.0))
    }
    fn floor_count(self) -> usize {
        self.0 as usize
    }
    fn precedes(self, other: Self) -> bool {
        self.0.total_cmp(&other.0).is_lt()
    }
    fn ratio_spec(num: i32, den: u32) -> Self {
        Self::ratio(num, den)
    }
    fn from_count_spec(n: usize) -> Self {
        Self::from_count(n)
    }
    fn from_bits_spec(bits: u32) -> Self {
        Self::from_bits(bits)
    }
    fn from_half_bits_spec(bits: u16) -> Self {
        Self::from_half_bits(bits)
    }
    fn from_double_bits_spec(bits: u64) -> Self {
        Self::from_double_bits(bits)
    }
    fn plus_spec(self, other: Self) -> Self {
        self.plus(other)
    }
    fn minus_spec(self, other: Self) -> Self {
        self.minus(other)
    }
    fn times_spec(self, other: Self) -> Self {
        self.times(other)
    }
    fn over_spec(self, other: Self) -> Self {
        self.over(other)
    }
    fn negated_spec(self) -> Self {
        self.negated()
    }
    fn less_spec(self, other: Self) -> bool {
        self.less(other)
    }
    fn same_spec(self, other: Self) -> bool {
        self.same(other)
    }
    fn smaller(self, other: Self) -> Self {
        F(self.0.min(other.0))
    }
    fn smaller_spec(self, other: Self) -> Self {
        self.smaller(other)
    }
    fn larger_spec(self, other: Self) -> Self {
        self.larger(other)
    }
    fn floor_count_spec(self) -> usize {
        self.floor_count()
    }
    fn precedes_spec(self, other: Self) -> bool {
        self.precedes(other)
    }
}

impl Stored for F {
    fn bits(self) -> u32 {
        (self.0 as f32).to_bits()
    }
    fn double_bits(self) -> u64 {
        (self.0 as f64).to_bits()
    }
    fn shown(self, style: Style) -> String {
        match style {
            Style::Shortest => format!("{:?}", self.0),
            Style::Plain => format!("{}", self.0),
            Style::Scientific => format!("{:.17e}", self.0),
            Style::EightPlaces => format!("{:.8}", self.0),
        }
    }
    fn bits_spec(self) -> u32 {
        self.bits()
    }
    fn double_bits_spec(self) -> u64 {
        self.double_bits()
    }
    fn shown_spec(self, style: Style) -> Text {
        unreachable!("no text of {style:?} is made outside proofs")
    }
}

/// Double precision.
#[derive(Clone, Copy, Debug, PartialEq)]
struct D(f64);

impl Scalar for D {
    fn ratio(num: i32, den: u32) -> Self {
        D(num as f64 / den as f64)
    }
    fn from_count(n: usize) -> Self {
        D(n as f64)
    }
    fn from_bits(bits: u32) -> Self {
        D(f32::from_bits(bits) as f64)
    }
    fn from_half_bits(bits: u16) -> Self {
        D(half::f16::from_bits(bits).to_f64())
    }
    fn from_double_bits(bits: u64) -> Self {
        D(f64::from_bits(bits))
    }
    fn plus(self, other: Self) -> Self {
        D(self.0 + other.0)
    }
    fn minus(self, other: Self) -> Self {
        D(self.0 - other.0)
    }
    fn times(self, other: Self) -> Self {
        D(self.0 * other.0)
    }
    fn over(self, other: Self) -> Self {
        D(self.0 / other.0)
    }
    fn negated(self) -> Self {
        D(-self.0)
    }
    fn less(self, other: Self) -> bool {
        self.0 < other.0
    }
    fn same(self, other: Self) -> bool {
        self.0 == other.0
    }
    fn larger(self, other: Self) -> Self {
        D(self.0.max(other.0))
    }
    fn floor_count(self) -> usize {
        self.0 as usize
    }
    fn precedes(self, other: Self) -> bool {
        self.0.total_cmp(&other.0).is_lt()
    }
    fn ratio_spec(num: i32, den: u32) -> Self {
        Self::ratio(num, den)
    }
    fn from_count_spec(n: usize) -> Self {
        Self::from_count(n)
    }
    fn from_bits_spec(bits: u32) -> Self {
        Self::from_bits(bits)
    }
    fn from_half_bits_spec(bits: u16) -> Self {
        Self::from_half_bits(bits)
    }
    fn from_double_bits_spec(bits: u64) -> Self {
        Self::from_double_bits(bits)
    }
    fn plus_spec(self, other: Self) -> Self {
        self.plus(other)
    }
    fn minus_spec(self, other: Self) -> Self {
        self.minus(other)
    }
    fn times_spec(self, other: Self) -> Self {
        self.times(other)
    }
    fn over_spec(self, other: Self) -> Self {
        self.over(other)
    }
    fn negated_spec(self) -> Self {
        self.negated()
    }
    fn less_spec(self, other: Self) -> bool {
        self.less(other)
    }
    fn same_spec(self, other: Self) -> bool {
        self.same(other)
    }
    fn smaller(self, other: Self) -> Self {
        D(self.0.min(other.0))
    }
    fn smaller_spec(self, other: Self) -> Self {
        self.smaller(other)
    }
    fn larger_spec(self, other: Self) -> Self {
        self.larger(other)
    }
    fn floor_count_spec(self) -> usize {
        self.floor_count()
    }
    fn precedes_spec(self, other: Self) -> bool {
        self.precedes(other)
    }
}

impl Analytic for D {
    fn lowest() -> Self {
        D(f64::NEG_INFINITY)
    }
    fn root(self) -> Self {
        D(self.0.sqrt())
    }
    fn exponential(self) -> Self {
        D(self.0.exp())
    }
    fn magnitude(self) -> Self {
        D(self.0.abs())
    }
    fn signed_like(self, other: Self) -> Self {
        D(self.0.copysign(other.0))
    }
    fn rounded_down(self) -> Self {
        D(self.0.floor())
    }
    fn rounded_up(self) -> Self {
        D(self.0.ceil())
    }
    fn rounded(self) -> Self {
        D(self.0.round())
    }
    fn greatest() -> Self {
        D(f64::INFINITY)
    }
    fn nearest(self) -> Self {
        D(self.0.round_ties_even())
    }
    fn greatest_spec() -> Self {
        Self::greatest()
    }
    fn nearest_spec(self) -> Self {
        self.nearest()
    }
    fn lowest_spec() -> Self {
        Self::lowest()
    }
    fn root_spec(self) -> Self {
        self.root()
    }
    fn exponential_spec(self) -> Self {
        self.exponential()
    }
    fn magnitude_spec(self) -> Self {
        self.magnitude()
    }
    fn signed_like_spec(self, other: Self) -> Self {
        self.signed_like(other)
    }
    fn rounded_down_spec(self) -> Self {
        self.rounded_down()
    }
    fn rounded_up_spec(self) -> Self {
        self.rounded_up()
    }
    fn rounded_spec(self) -> Self {
        self.rounded()
    }
}

impl Circular for D {
    fn sine(self) -> Self {
        D(self.0.sin())
    }
    fn cosine(self) -> Self {
        D(self.0.cos())
    }
    fn tangent(self) -> Self {
        D(self.0.tan())
    }
    fn arc_cosine(self) -> Self {
        D(self.0.acos())
    }
    fn arc_tangent(self, x: Self) -> Self {
        D(self.0.atan2(x.0))
    }
    fn sine_spec(self) -> Self {
        self.sine()
    }
    fn cosine_spec(self) -> Self {
        self.cosine()
    }
    fn tangent_spec(self) -> Self {
        self.tangent()
    }
    fn arc_cosine_spec(self) -> Self {
        self.arc_cosine()
    }
    fn arc_tangent_spec(self, x: Self) -> Self {
        self.arc_tangent(x)
    }
}

impl Widens<F> for D {
    fn widened(narrow: F) -> Self {
        D(narrow.0 as f64)
    }
    fn narrowed(self) -> F {
        F(self.0 as f32)
    }
    fn widened_spec(narrow: F) -> Self {
        Self::widened(narrow)
    }
    fn narrowed_spec(self) -> F {
        self.narrowed()
    }
}

impl Stored for D {
    fn bits(self) -> u32 {
        (self.0 as f32).to_bits()
    }
    fn double_bits(self) -> u64 {
        (self.0 as f64).to_bits()
    }
    fn shown(self, style: Style) -> String {
        match style {
            Style::Shortest => format!("{:?}", self.0),
            Style::Plain => format!("{}", self.0),
            Style::Scientific => format!("{:.17e}", self.0),
            Style::EightPlaces => format!("{:.8}", self.0),
        }
    }
    fn bits_spec(self) -> u32 {
        self.bits()
    }
    fn double_bits_spec(self) -> u64 {
        self.double_bits()
    }
    fn shown_spec(self, style: Style) -> Text {
        unreachable!("no text of {style:?} is made outside proofs")
    }
}

/// The numbers of a slice.
fn up(v: &[f32]) -> Vec<F> {
    v.iter().map(|&x| F(x)).collect()
}

/// What the numbers hold.
fn down(v: &[F]) -> Vec<f32> {
    v.iter().map(|x| x.0).collect()
}

fn wide<const N: usize>(m: &[f64; N]) -> [D; N] {
    m.map(D)
}

fn flat<const N: usize>(m: [D; N]) -> [f64; N] {
    m.map(|x| x.0)
}

fn wide_vec(v: &[f64]) -> Vec<D> {
    v.iter().map(|&x| D(x)).collect()
}

fn flat_vec(v: &[D]) -> Vec<f64> {
    v.iter().map(|x| x.0).collect()
}

fn det3(a: &[f64; 9]) -> f64 {
    linalg::det3(&wide(a)).0
}

fn mat3_mul(a: &[f64; 9], b: &[f64; 9]) -> [f64; 9] {
    flat(linalg::mat3_mul(&wide(a), &wide(b)))
}

fn mat3_transpose(a: &[f64; 9]) -> [f64; 9] {
    flat(linalg::mat3_transpose(&wide(a)))
}

fn mat3_inverse(a: &[f64; 9]) -> Option<[f64; 9]> {
    linalg::mat3_inverse(&wide(a)).map(flat)
}

fn householder_qr(a: &[f64], n: usize) -> (Vec<f64>, Vec<f64>) {
    let (q, r) = linalg::householder_qr(&wide_vec(a), n);
    (flat_vec(&q), flat_vec(&r))
}

fn ql_decomposition(a: &[f64; 9]) -> ([f64; 9], [f64; 9]) {
    let (q, l) = linalg::ql_decomposition(&wide(a));
    (flat(q), flat(l))
}

fn jacobi_eigen_sym(m: &[f64], n: usize) -> (Vec<f64>, Vec<f64>) {
    let (values, vectors) = linalg::jacobi_eigen_sym(&wide_vec(m), n);
    (flat_vec(&values), flat_vec(&vectors))
}

fn smallest_eigvec(m: &[f64], n: usize) -> Vec<f64> {
    flat_vec(&linalg::smallest_eigvec(&wide_vec(m), n))
}

fn homography_weighted(src: &[f64], dst: &[f64], w: &[f64], m: usize) -> Option<[f64; 9]> {
    linalg::homography_weighted(&wide_vec(src), &wide_vec(dst), &wide_vec(w), m).map(flat)
}

fn adapter_inverse(m: &[f64; 9]) -> [f64; 9] {
    flat(gs_adapter::mat3_inverse(&wide(m)))
}

fn matmul(a: &[f64], b: &[f64], n: usize) -> Vec<f64> {
    flat_vec(&linalg::matmul(&wide_vec(a), &wide_vec(b), n))
}

fn quat_xyzw_to_mat(q: &[f64; 4]) -> [f64; 9] {
    flat(gs_adapter::quat_xyzw_to_mat(&wide(q)))
}

fn mat_to_quat_xyzw(m: &[f64; 9]) -> [f64; 4] {
    flat(gs_adapter::mat_to_quat_xyzw(&wide(m)))
}

fn wigner_d(l: usize, a: f64, b: f64, g: f64, out: &mut [f64]) {
    for (o, x) in out.iter_mut().zip(gs_adapter::wigner_d(l, D(a), D(b), D(g))) {
        *o = x.0;
    }
}

/// Gaussians as plain numbers.
#[derive(Debug)]
struct Built {
    means: Vec<f32>,
    scales: Vec<f32>,
    rotations: Vec<f32>,
    harmonics: Vec<f32>,
    opacities: Vec<f32>,
}

fn build(
    ad: &GsAdapter<D>,
    raw_gs: &[f32],
    depth: &[f32],
    gs_conf: &[f32],
    ext: &[f32; 12],
    intr: &[f32; 9],
    h: usize,
    w: usize,
) -> Result<Built, BuildError> {
    let g = ad.build(&up(raw_gs), &up(depth), &up(gs_conf), &ext.map(F), &intr.map(F), h, w)?;
    Ok(Built {
        means: down(&g.means),
        scales: down(&g.scales),
        rotations: down(&g.rotations),
        harmonics: down(&g.harmonics),
        opacities: down(&g.opacities),
    })
}

fn quantile(v: &[f32], q: f32) -> f64 {
    nested::quantile::<F, D>(&up(v), F(q)).0
}

fn process_mono_sky(depth: &mut Vec<f32>, sky: &[f32]) {
    let mut d: Vec<F> = up(depth);
    nested::NestedAligner::process_mono_sky::<F, D>(&mut d, &up(sky));
    *depth = down(&d);
}

struct AnyviewOut {
    depth: Vec<f32>,
    depth_conf: Vec<f32>,
    extrinsics: [f32; 12],
    intrinsics: [f32; 9],
}

struct MetricOut {
    depth: Vec<f32>,
    sky: Vec<f32>,
}

struct NestedOut {
    depth: Vec<f32>,
    extrinsics: [f32; 12],
    intrinsics: [f32; 9],
    scale_factor: f32,
}

fn align(any: &AnyviewOut, metric: &MetricOut, h: usize, w: usize) -> NestedOut {
    let out = nested::NestedAligner::align::<F, D>(
        &nested::AnyviewOut {
            depth: up(&any.depth),
            depth_conf: up(&any.depth_conf),
            extrinsics: any.extrinsics.map(F),
            intrinsics: any.intrinsics.map(F),
        },
        &nested::MetricOut { depth: up(&metric.depth), sky: up(&metric.sky) },
        h,
        w,
    );
    assert_eq!((out.h, out.w), (h, w));
    NestedOut {
        depth: down(&out.depth),
        extrinsics: out.extrinsics.map(|x| x.0),
        intrinsics: out.intrinsics.map(|x| x.0),
        scale_factor: out.scale_factor.0,
    }
}

fn hsv_to_rgb(h: f64, s: f64, v: f64) -> (f64, f64, f64) {
    let (r, g, b) = glb_export::hsv_to_rgb(D(h), D(s), D(v));
    (r.0, g.0, b.0)
}

fn index_color_rgb(i: i32, n: i32) -> [u8; 3] {
    glb_export::index_color_rgb::<D>(i, n)
}

fn select_reference_view_saddle(cls: &[Vec<f64>]) -> usize {
    let cls: Vec<Vec<D>> = cls.iter().map(|c| wide_vec(c)).collect();
    backbone::select_reference_view_saddle(&cls)
}

fn identity_ext() -> [f32; 16] {
    [1.0, 0.0, 0.0, 0.0, 0.0, 1.0, 0.0, 0.0, 0.0, 0.0, 1.0, 0.0, 0.0, 0.0, 0.0, 1.0]
}

fn identity_k() -> [f32; 9] {
    [1.0, 0.0, 0.0, 0.0, 1.0, 0.0, 0.0, 0.0, 1.0]
}

/// The points of one frame that a camera with identity matrices sees: pixels
/// without depth give none.
fn seen(depth: &[f32], img: &[u8], h: usize, w: usize) -> WorldPoints<F> {
    let mut wp = WorldPoints {
        xyz: Vec::new(),
        rgb: Vec::new(),
        frame: Vec::new(),
        u: Vec::new(),
        v: Vec::new(),
    };
    for v in 0..h {
        for u in 0..w {
            let d: f32 = depth[v * w + u];
            if d > 0.0 {
                wp.xyz.extend([F(u as f32 * d), F(v as f32 * d), F(d)]);
                wp.rgb.extend_from_slice(&img[(v * w + u) * 3..(v * w + u) * 3 + 3]);
                wp.frame.push(0);
                wp.u.push(u);
                wp.v.push(v);
            }
        }
    }
    wp
}

fn approx_eq(a: &[f64], b: &[f64], tol: f64) {
    assert_eq!(a.len(), b.len(), "length mismatch");
    for (i, (x, y)) in a.iter().zip(b.iter()).enumerate() {
        assert!((x - y).abs() < tol, "idx {i}: {x} != {y} (tol {tol})");
    }
}

#[test]
fn identity_det() {
    let i = [1.0f64, 0.0, 0.0, 0.0, 1.0, 0.0, 0.0, 0.0, 1.0];
    assert!((det3(&i) - 1.0).abs() < 1e-12);
}

#[test]
fn det3_known() {
    let a = [2.0, 0.0, 1.0, 3.0, 1.0, 1.0, 0.0, 2.0, 2.0];
    assert!((det3(&a) - 6.0).abs() < 1e-12);
}

#[test]
fn transpose_twice_is_identity() {
    let a = [1.0f64, 2.0, 3.0, 4.0, 5.0, 6.0, 7.0, 8.0, 9.0];
    let tt = mat3_transpose(&mat3_transpose(&a));
    approx_eq(&tt, &a, 1e-12);
}

#[test]
fn mat3_mul_identity() {
    let a = [1.0f64, 2.0, 3.0, 4.0, 5.0, 6.0, 7.0, 8.0, 9.0];
    let i = [1.0, 0.0, 0.0, 0.0, 1.0, 0.0, 0.0, 0.0, 1.0];
    approx_eq(&mat3_mul(&a, &i), &a, 1e-12);
    approx_eq(&mat3_mul(&i, &a), &a, 1e-12);
}

#[test]
fn inverse_roundtrip() {
    let a = [4.0, 7.0, 2.0, 3.0, 6.0, 1.0, 2.0, 5.0, 3.0];
    let ai = mat3_inverse(&a).expect("non-singular");
    let prod = mat3_mul(&a, &ai);
    let i = [1.0, 0.0, 0.0, 0.0, 1.0, 0.0, 0.0, 0.0, 1.0];
    approx_eq(&prod, &i, 1e-9);
}

#[test]
fn inverse_singular_is_none() {
    let a = [1.0, 2.0, 3.0, 1.0, 2.0, 3.0, 0.0, 0.0, 1.0];
    assert!(mat3_inverse(&a).is_none());
}

#[test]
fn householder_qr_reconstructs() {
    let a = vec![12.0, -51.0, 4.0, 6.0, 167.0, -68.0, -4.0, 24.0, -41.0];
    let (q, r) = householder_qr(&a, 3);
    let mut qt = [0.0; 9];
    for i in 0..3 {
        for j in 0..3 {
            let mut s = 0.0;
            for k in 0..3 {
                s += q[i * 3 + k] * q[j * 3 + k];
            }
            qt[i * 3 + j] = s;
        }
    }
    let eye = [1.0, 0.0, 0.0, 0.0, 1.0, 0.0, 0.0, 0.0, 1.0];
    approx_eq(&qt, &eye, 1e-9);
    for i in 0..3 {
        for j in 0..i {
            assert!(r[i * 3 + j].abs() < 1e-12, "r not upper-triangular");
        }
    }
    let qr = mat3_mul(&q.try_into().unwrap(), &r.try_into().unwrap());
    approx_eq(&qr, &a, 1e-9);
}

#[test]
fn householder_qr_matches_reference_signs() {
    let a = vec![12.0, -51.0, 4.0, 6.0, 167.0, -68.0, -4.0, 24.0, -41.0];
    let (_q, r) = householder_qr(&a, 3);
    let expected = [-14.0, -21.0, 14.0, 0.0, -175.0, 70.0, 0.0, 0.0, -35.0];
    approx_eq(&r, &expected, 1e-6);
}

#[test]
fn ql_decomposition_reconstructs_and_sign_normalized() {
    let a = [2.0, -1.0, 0.0, -1.0, 2.0, -1.0, 0.0, -1.0, 2.0];
    let (q, l) = ql_decomposition(&a);
    for i in 0..3 {
        for j in (i + 1)..3 {
            assert!(l[i * 3 + j].abs() < 1e-12, "l not lower-triangular");
        }
    }
    for i in 0..3 {
        assert!(l[i * 3 + i] >= -1e-12, "diag(l) negative");
    }
    let mut qtq = [0.0; 9];
    for i in 0..3 {
        for j in 0..3 {
            let mut s = 0.0;
            for k in 0..3 {
                s += q[k * 3 + i] * q[k * 3 + j];
            }
            qtq[i * 3 + j] = s;
        }
    }
    let eye = [1.0, 0.0, 0.0, 0.0, 1.0, 0.0, 0.0, 0.0, 1.0];
    approx_eq(&qtq, &eye, 1e-9);
    let ql = mat3_mul(&q, &l);
    approx_eq(&ql, &a, 1e-9);
}

#[test]
fn jacobi_eigen_of_diagonal() {
    let m = vec![3.0, 0.0, 0.0, 0.0, 1.0, 0.0, 0.0, 0.0, 2.0];
    let (evals, evecs) = jacobi_eigen_sym(&m, 3);
    let eye = vec![1.0, 0.0, 0.0, 0.0, 1.0, 0.0, 0.0, 0.0, 1.0];
    approx_eq(&evecs, &eye, 1e-12);
    let mut sorted = evals.clone();
    sorted.sort_by(|a, b| a.partial_cmp(b).unwrap());
    approx_eq(&sorted, &[1.0, 2.0, 3.0], 1e-12);
}

#[test]
fn jacobi_eigen_symmetric_known() {
    let m = vec![2.0, 1.0, 0.0, 1.0, 2.0, 1.0, 0.0, 1.0, 2.0];
    let (evals, _evecs) = jacobi_eigen_sym(&m, 3);
    let mut sorted = evals;
    sorted.sort_by(|a, b| a.partial_cmp(b).unwrap());
    approx_eq(
        &sorted,
        &[2.0 - 2.0_f64.sqrt(), 2.0, 2.0 + 2.0_f64.sqrt()],
        1e-9,
    );
}

#[test]
fn jacobi_eigen_reconstruction() {
    let m = vec![4.0, 1.0, 2.0, 1.0, 3.0, 0.0, 2.0, 0.0, 5.0];
    let (evals, evecs) = jacobi_eigen_sym(&m, 3);
    let mut rec = [0.0; 9];
    for i in 0..3 {
        for j in 0..3 {
            let mut s = 0.0;
            for k in 0..3 {
                s += evecs[i * 3 + k] * evals[k] * evecs[j * 3 + k];
            }
            rec[i * 3 + j] = s;
        }
    }
    approx_eq(&rec, &m, 1e-9);
}

#[test]
fn smallest_eigvec_picks_smallest() {
    let m = vec![3.0, 0.0, 0.0, 0.0, 1.0, 0.0, 0.0, 0.0, 2.0];
    let v = smallest_eigvec(&m, 3);
    let expected: [f64; 3] = [0.0, 1.0, 0.0];
    for i in 0..3 {
        assert!((v[i].abs() - expected[i].abs()).abs() < 1e-9);
    }
}

#[test]
fn homography_identity_transform() {
    let m = 20;
    let mut src = vec![0.0; 2 * m];
    let mut dst = vec![0.0; 2 * m];
    let w = vec![1.0; m];
    for k in 0..m {
        let x = 0.1 * k as f64 - 1.0;
        let y = 0.2 * (k as f64 % 5.0) - 0.4;
        src[2 * k] = x;
        src[2 * k + 1] = y;
        dst[2 * k] = x;
        dst[2 * k + 1] = y;
    }
    let h = homography_weighted(&src, &dst, &w, m).expect("non-degenerate");
    let eye = [1.0, 0.0, 0.0, 0.0, 1.0, 0.0, 0.0, 0.0, 1.0];
    approx_eq(&h, &eye, 1e-6);
}

#[test]
fn homography_translation() {
    let m = 30;
    let tx = 0.3;
    let ty = -0.2;
    let mut src = vec![0.0; 2 * m];
    let mut dst = vec![0.0; 2 * m];
    let w = vec![0.5; m];
    for k in 0..m {
        let x = -1.0 + 0.07 * k as f64;
        let y = -0.5 + 0.05 * (k as f64 % 11.0);
        src[2 * k] = x;
        src[2 * k + 1] = y;
        dst[2 * k] = x + tx;
        dst[2 * k + 1] = y + ty;
    }
    let h = homography_weighted(&src, &dst, &w, m).expect("non-degenerate");
    let expected = [1.0, 0.0, tx, 0.0, 1.0, ty, 0.0, 0.0, 1.0];
    approx_eq(&h, &expected, 1e-6);
}

fn approx(a: f64, b: f64, tol: f64) -> bool {
    (a - b).abs() <= tol * (1.0 + b.abs())
}

#[test]
fn mat3_inverse_identity() {
    let inv = adapter_inverse(&[1.0, 0.0, 0.0, 0.0, 1.0, 0.0, 0.0, 0.0, 1.0]);
    for v in inv.iter() {
        assert!(approx(*v, 0.0, 1e-12) || approx(*v, 1.0, 1e-12));
    }
}

#[test]
fn mat3_inverse_diagonal() {
    let inv = adapter_inverse(&[2.0, 0.0, 0.0, 0.0, 4.0, 0.0, 0.0, 0.0, 8.0]);
    assert!(approx(inv[0], 0.5, 1e-12));
    assert!(approx(inv[4], 0.25, 1e-12));
    assert!(approx(inv[8], 0.125, 1e-12));
}

#[test]
fn mat3_inverse_singular_returns_zero() {
    let inv = adapter_inverse(&[1.0, 2.0, 3.0, 4.0, 5.0, 6.0, 7.0, 8.0, 9.0]);
    for v in inv.iter() {
        assert!(approx(*v, 0.0, 1e-12));
    }
}

#[test]
fn mat3_inverse_times_original_is_identity() {
    let m = [1.0, 2.0, 3.0, 0.0, 1.0, 4.0, 5.0, 6.0, 0.0];
    let inv = adapter_inverse(&m);
    let prod = matmul(&m, &inv, 3);
    for i in 0..3 {
        for j in 0..3 {
            let want = if i == j { 1.0 } else { 0.0 };
            assert!(
                approx(prod[i * 3 + j], want, 1e-9),
                "[{i},{j}]={}",
                prod[i * 3 + j]
            );
        }
    }
}

#[test]
fn quat_xyzw_identity_to_mat() {
    let r = quat_xyzw_to_mat(&[0.0, 0.0, 0.0, 1.0]);
    let eye = [1.0, 0.0, 0.0, 0.0, 1.0, 0.0, 0.0, 0.0, 1.0];
    for i in 0..9 {
        assert!(approx(r[i], eye[i], 1e-12), "r[{i}]={}", r[i]);
    }
}

#[test]
fn quat_xyzw_180_about_z_to_mat() {
    let r = quat_xyzw_to_mat(&[0.0, 0.0, 1.0, 0.0]);
    assert!(approx(r[0], -1.0, 1e-12));
    assert!(approx(r[4], -1.0, 1e-12));
    assert!(approx(r[8], 1.0, 1e-12));
}

#[test]
fn mat_to_quat_identity_round_trip() {
    let eye = [1.0, 0.0, 0.0, 0.0, 1.0, 0.0, 0.0, 0.0, 1.0];
    let q = mat_to_quat_xyzw(&eye);
    assert!(approx(q[3], 1.0, 1e-9), "w={}", q[3]);
    assert!(approx(q[0], 0.0, 1e-9));
    assert!(approx(q[1], 0.0, 1e-9));
    assert!(approx(q[2], 0.0, 1e-9));
}

#[test]
fn mat_to_quat_180_about_y_round_trip() {
    let m = [-1.0, 0.0, 0.0, 0.0, 1.0, 0.0, 0.0, 0.0, -1.0];
    let q = mat_to_quat_xyzw(&m);
    assert!(approx(q[1], 1.0, 1e-9), "y={}", q[1]);
    assert!(approx(q[0], 0.0, 1e-9));
    assert!(approx(q[2], 0.0, 1e-9));
    assert!(approx(q[3], 0.0, 1e-9));
}

#[test]
fn wigner_d_degree_1_identity() {
    let mut d1 = [0.0f64; 9];
    wigner_d(1, 0.0, 0.0, 0.0, &mut d1);
    for i in 0..3 {
        for j in 0..3 {
            let want = if i == j { 1.0 } else { 0.0 };
            assert!(
                approx(d1[i * 3 + j], want, 1e-12),
                "D1[{i},{j}]={}",
                d1[i * 3 + j]
            );
        }
    }
}

#[test]
fn wigner_d_degree_2_identity() {
    let mut d2 = [0.0f64; 25];
    wigner_d(2, 0.0, 0.0, 0.0, &mut d2);
    for i in 0..5 {
        for j in 0..5 {
            let want = if i == j { 1.0 } else { 0.0 };
            assert!(
                approx(d2[i * 5 + j], want, 1e-12),
                "D2[{i},{j}]={}",
                d2[i * 5 + j]
            );
        }
    }
}

#[test]
fn wigner_d_degree_1_alpha_rotation() {
    let a = 0.7;
    let mut d1 = [0.0f64; 9];
    wigner_d(1, a, 0.0, 0.0, &mut d1);
    assert!(approx(d1[0], a.cos(), 1e-9));
    assert!(approx(d1[2], a.sin(), 1e-9));
    assert!(approx(d1[6], -a.sin(), 1e-9));
    assert!(approx(d1[8], a.cos(), 1e-9));
    assert!(approx(d1[4], 1.0, 1e-9));
}

type TrivialIn = (Vec<f32>, Vec<f32>, Vec<f32>, [f32; 12], [f32; 9]);

fn trivial_input(h: usize, w: usize) -> TrivialIn {
    let hw = h * w;
    let mut raw_gs = vec![0.0f32; hw * 37];
    for pix in 0..hw {
        raw_gs[pix * 37 + 5] = 0.0;
        raw_gs[pix * 37 + 6] = 0.0;
        raw_gs[pix * 37 + 7] = 0.0;
        raw_gs[pix * 37 + 8] = 1.0;
        raw_gs[pix * 37 + 2] = 0.0;
        raw_gs[pix * 37 + 3] = 0.0;
        raw_gs[pix * 37 + 4] = 0.0;
        raw_gs[pix * 37 + 9] = 0.5;
        raw_gs[pix * 37 + 18] = 0.6;
        raw_gs[pix * 37 + 27] = 0.7;
    }
    let depth = vec![10.0; hw];
    let gs_conf = vec![0.5; hw];
    let ext = [1.0, 0.0, 0.0, 0.0, 0.0, 1.0, 0.0, 0.0, 0.0, 0.0, 1.0, 0.0];
    let intr = [
        w as f32,
        0.0,
        w as f32 / 2.0,
        0.0,
        w as f32,
        w as f32 / 2.0,
        0.0,
        0.0,
        1.0,
    ];
    (raw_gs, depth, gs_conf, ext, intr)
}

#[test]
fn build_rejects_bad_lengths() {
    let (raw_gs, depth, gs_conf, ext, intr) = trivial_input(2, 2);
    let ad = GsAdapter::<D>::default();
    let err = build(&ad, &raw_gs[..10], &depth, &gs_conf, &ext, &intr, 2, 2)
        .unwrap_err();
    assert!(matches!(
        err,
        BuildError::BadInputLen { name: "raw_gs", .. }
    ));
    let err = build(&ad, &raw_gs, &depth[..2], &gs_conf, &ext, &intr, 2, 2)
        .unwrap_err();
    assert!(matches!(err, BuildError::BadInputLen { name: "depth", .. }));
    let err = build(&ad, &raw_gs, &depth, &gs_conf[..2], &ext, &intr, 2, 2)
        .unwrap_err();
    assert!(matches!(
        err,
        BuildError::BadInputLen {
            name: "gs_conf",
            ..
        }
    ));
}

#[test]
fn build_opacity_is_identity_at_global_step_zero() {
    let (raw_gs, depth, gs_conf, ext, intr) = trivial_input(2, 2);
    let ad = GsAdapter::<D>::default();
    let g = build(&ad, &raw_gs, &depth, &gs_conf, &ext, &intr, 2, 2)
        .unwrap();
    assert_eq!(g.opacities.len(), 4);
    for v in &g.opacities {
        assert!(approx(*v as f64, 0.5, 1e-6));
    }
}

#[test]
fn build_means_unproject_with_identity_extrinsics() {
    let (raw_gs, depth, gs_conf, ext, intr) = trivial_input(2, 2);
    let ad = GsAdapter::<D>::default();
    let g = build(&ad, &raw_gs, &depth, &gs_conf, &ext, &intr, 2, 2)
        .unwrap();
    let dx = -0.25f64;
    let dy = -0.25f64;
    let dz = 1.0f64;
    let dn = (dx * dx + dy * dy + dz * dz).sqrt();
    let mx = dx / dn * 10.0;
    let my = dy / dn * 10.0;
    let mz = dz / dn * 10.0;
    assert!(
        approx(g.means[0] as f64, mx, 1e-5),
        "got {} want {}",
        g.means[0],
        mx
    );
    assert!(
        approx(g.means[1] as f64, my, 1e-5),
        "got {} want {}",
        g.means[1],
        my
    );
    assert!(
        approx(g.means[2] as f64, mz, 1e-5),
        "got {} want {}",
        g.means[2],
        mz
    );
}

#[test]
fn build_scales_use_sigmoid_depth_multiplier() {
    let (raw_gs, depth, gs_conf, ext, intr) = trivial_input(1, 1);
    let ad = GsAdapter::<D>::default();
    let g = build(&ad, &raw_gs, &depth, &gs_conf, &ext, &intr, 1, 1)
        .unwrap();
    let expected_scale = (1e-5 + (30.0 - 1e-5) * 0.5) * 10.0 * 0.2;
    for d in 0..3 {
        assert!(
            approx(g.scales[d] as f64, expected_scale, 1e-3),
            "scales[{d}]={} expected={expected_scale}",
            g.scales[d]
        );
    }
}

#[test]
fn build_sh_dc_passthrough_when_rotation_is_identity() {
    let (raw_gs, depth, gs_conf, ext, intr) = trivial_input(1, 1);
    let ad = GsAdapter::<D>::default();
    let g = build(&ad, &raw_gs, &depth, &gs_conf, &ext, &intr, 1, 1)
        .unwrap();
    assert!(
        approx(g.harmonics[0] as f64, 0.5, 1e-6),
        "harmonics[0]={}",
        g.harmonics[0]
    );
    assert!(
        approx(g.harmonics[9] as f64, 0.6, 1e-6),
        "harmonics[9]={}",
        g.harmonics[9]
    );
    assert!(
        approx(g.harmonics[18] as f64, 0.7, 1e-6),
        "harmonics[18]={}",
        g.harmonics[18]
    );
}

#[test]
fn build_rotation_buffer_matches_cam_quat_world_with_identity_extrinsics() {
    let (raw_gs, depth, gs_conf, ext, intr) = trivial_input(1, 1);
    let ad = GsAdapter::<D>::default();
    let g = build(&ad, &raw_gs, &depth, &gs_conf, &ext, &intr, 1, 1)
        .unwrap();
    assert!(
        approx(g.rotations[0] as f64, 1.0, 1e-9),
        "x={}",
        g.rotations[0]
    );
    assert!(
        approx(g.rotations[1] as f64, 0.0, 1e-9),
        "y={}",
        g.rotations[1]
    );
    assert!(
        approx(g.rotations[2] as f64, 0.0, 1e-9),
        "z={}",
        g.rotations[2]
    );
    assert!(
        approx(g.rotations[3] as f64, 0.0, 1e-9),
        "w={}",
        g.rotations[3]
    );
}

#[test]
fn build_pred_offset_depth_false_ignores_ch_36() {
    let (mut raw_gs, depth, gs_conf, ext, intr) = trivial_input(1, 1);
    raw_gs[36] = 100.0;
    let ad: GsAdapter<D> = GsAdapter {
        pred_offset_depth: false,
        ..GsAdapter::<D>::default()
    };
    let g = build(&ad, &raw_gs, &depth, &gs_conf, &ext, &intr, 1, 1)
        .unwrap();
    assert!(
        approx(g.means[2] as f64, 10.0, 1e-5),
        "got {} want 10",
        g.means[2]
    );
}

#[test]
fn build_pred_offset_xy_false_ignores_ch_0_1() {
    let (mut raw_gs, depth, gs_conf, ext, intr) = trivial_input(1, 1);
    raw_gs[0] = 100.0;
    raw_gs[1] = 100.0;
    let ad: GsAdapter<D> = GsAdapter {
        pred_offset_xy: false,
        ..GsAdapter::<D>::default()
    };
    let g = build(&ad, &raw_gs, &depth, &gs_conf, &ext, &intr, 1, 1)
        .unwrap();
    assert!(
        approx(g.means[2] as f64, 10.0, 1e-5),
        "got {} want 10",
        g.means[2]
    );
}

#[test]
fn quantile_empty_returns_zero() {
    assert_eq!(quantile(&[], 0.5), 0.0);
}

#[test]
fn quantile_single_element() {
    assert_eq!(quantile(&[7.5], 0.0), 7.5);
    assert_eq!(quantile(&[7.5], 1.0), 7.5);
    assert_eq!(quantile(&[7.5], 0.5), 7.5);
}

#[test]
fn quantile_endpoints() {
    let v = vec![1.0f32, 2.0, 3.0, 4.0, 5.0];
    assert!((quantile(&v, 0.0) - 1.0).abs() < 1e-12);
    assert!((quantile(&v, 1.0) - 5.0).abs() < 1e-12);
}

#[test]
fn quantile_median_odd_n() {
    let v = vec![1.0f32, 2.0, 3.0, 4.0, 5.0];
    assert!((quantile(&v, 0.5) - 3.0).abs() < 1e-12);
}

#[test]
fn quantile_median_even_n_interpolates() {
    let v = vec![1.0f32, 2.0, 4.0, 8.0];
    assert!((quantile(&v, 0.5) - 3.0).abs() < 1e-12);
}

#[test]
fn quantile_p25_interpolates_down() {
    let v = vec![1.0f32, 2.0, 3.0, 4.0, 5.0];
    assert!((quantile(&v, 0.25) - 2.0).abs() < 1e-12);
}

#[test]
fn quantile_p99_clamps_to_last() {
    let v = vec![10.0f32, 20.0, 30.0];
    assert!((quantile(&v, 1.0) - 30.0).abs() < 1e-12);
}

#[test]
fn quantile_unsorted_input() {
    let v = vec![5.0f32, 1.0, 4.0, 2.0, 3.0];
    assert!((quantile(&v, 0.5) - 3.0).abs() < 1e-12);
}

#[test]
fn process_mono_sky_noop_when_too_few_sky() {
    let mut depth = vec![1.0f32; 12];
    let sky = vec![0.0, 0.0, 0.0, 0.0, 0.0, 0.0, 0.0, 0.0, 0.0, 0.0, 0.0, 1.0];
    let before = depth.clone();
    process_mono_sky(&mut depth, &sky);
    assert_eq!(depth, before);
}

#[test]
fn process_mono_sky_noop_when_too_few_nonsky() {
    let mut depth = vec![1.0f32; 12];
    let sky = vec![1.0, 1.0, 1.0, 1.0, 1.0, 1.0, 1.0, 1.0, 1.0, 1.0, 1.0, 0.0];
    let before = depth.clone();
    process_mono_sky(&mut depth, &sky);
    assert_eq!(depth, before);
}

#[test]
fn process_mono_sky_noop_when_empty() {
    let mut depth: Vec<f32> = Vec::new();
    let sky: Vec<f32> = Vec::new();
    process_mono_sky(&mut depth, &sky);
    assert!(depth.is_empty());
}

#[test]
fn process_mono_sky_noop_on_size_mismatch() {
    let mut depth = vec![1.0f32; 12];
    let sky = vec![0.0f32; 5];
    let before = depth.clone();
    process_mono_sky(&mut depth, &sky);
    assert_eq!(depth, before);
}

#[test]
fn process_mono_sky_fills_sky_with_p99_no_cap() {
    let mut depth: Vec<f32> = (1..=11).map(|x| x as f32).collect();
    depth.extend(std::iter::repeat(999.0).take(11));
    let mut sky = vec![0.0f32; 11];
    sky.extend(std::iter::repeat(1.0).take(11));
    process_mono_sky(&mut depth, &sky);
    for i in 0..11 {
        assert_eq!(depth[i], (i + 1) as f32);
    }
    for i in 11..22 {
        assert!((depth[i] - 10.9).abs() < 1e-5, "depth[{i}] = {}", depth[i]);
    }
}

fn toy_pair() -> (AnyviewOut, MetricOut) {
    let any = AnyviewOut {
        depth: vec![1.0, 2.0, 3.0, 4.0],
        depth_conf: vec![1.0; 4],
        extrinsics: [
            1.0, 0.0, 0.0, 10.0,
            0.0, 1.0, 0.0, 20.0,
            0.0, 0.0, 1.0, 30.0,
        ],
        intrinsics: [
            300.0, 0.0, 0.0,
            0.0, 300.0, 0.0,
            0.0, 0.0, 1.0,
        ],
    };
    let metric = MetricOut {
        depth: vec![10.0, 20.0, 30.0, 40.0],
        sky: vec![0.0; 4],
    };
    (any, metric)
}

#[test]
fn align_empty_returns_zero_scale() {
    let any = AnyviewOut {
        depth: Vec::new(),
        depth_conf: Vec::new(),
        extrinsics: [0.0; 12],
        intrinsics: [0.0; 9],
    };
    let metric = MetricOut {
        depth: Vec::new(),
        sky: Vec::new(),
    };
    let out = align(&any, &metric, 0, 0);
    assert!(out.depth.is_empty());
    assert_eq!(out.scale_factor, 0.0);
}

#[test]
fn align_least_squares_scale_factor() {
    let (any, metric) = toy_pair();
    let out = align(&any, &metric, 2, 2);
    assert!(
        (out.scale_factor - 10.0).abs() < 1e-5,
        "got {}",
        out.scale_factor
    );
}

#[test]
fn align_rescales_depth_and_translation() {
    let (any, metric) = toy_pair();
    let out = align(&any, &metric, 2, 2);
    assert_eq!(out.depth, vec![10.0, 20.0, 30.0, 40.0]);
    assert!((out.extrinsics[3] - 100.0).abs() < 1e-5);
    assert!((out.extrinsics[7] - 200.0).abs() < 1e-5);
    assert!((out.extrinsics[11] - 300.0).abs() < 1e-5);
    assert_eq!(out.extrinsics[0], 1.0);
    assert_eq!(out.extrinsics[5], 1.0);
}

#[test]
fn align_preserves_intrinsics() {
    let (any, metric) = toy_pair();
    let out = align(&any, &metric, 2, 2);
    assert_eq!(out.intrinsics, any.intrinsics);
}

#[test]
fn align_metric_scale_uses_focal() {
    let (mut any, metric) = toy_pair();
    any.intrinsics[0] = 600.0;
    any.intrinsics[4] = 600.0;
    let out = align(&any, &metric, 2, 2);
    assert!(
        (out.scale_factor - 20.0).abs() < 1e-5,
        "got {}",
        out.scale_factor
    );
}

#[test]
fn align_fills_sky_pixels_with_p99_capped_at_200() {
    let any = AnyviewOut {
        depth: vec![1.0, 1.0, 1.0, 1.0, 1.0, 1000.0],
        depth_conf: vec![1.0; 6],
        extrinsics: [0.0; 12],
        intrinsics: [300.0, 0.0, 0.0, 0.0, 300.0, 0.0, 0.0, 0.0, 1.0],
    };
    let metric = MetricOut {
        depth: vec![1.0, 1.0, 1.0, 1.0, 1.0, 1000.0],
        sky: vec![0.0, 0.0, 0.0, 0.0, 0.0, 1.0],
    };
    let out = align(&any, &metric, 3, 2);
    assert!((out.scale_factor - 1.0).abs() < 1e-5);
    for i in 0..5 {
        assert!((out.depth[i] - 1.0).abs() < 1e-5);
    }
    assert!((out.depth[5] - 1.0).abs() < 1e-5);
}

#[test]
fn align_sky_fill_caps_at_200() {
    let any = AnyviewOut {
        depth: vec![1000.0; 5]
            .into_iter()
            .chain(std::iter::once(0.0))
            .collect(),
        depth_conf: vec![1.0; 6],
        extrinsics: [0.0; 12],
        intrinsics: [300.0, 0.0, 0.0, 0.0, 300.0, 0.0, 0.0, 0.0, 1.0],
    };
    let metric = MetricOut {
        depth: any.depth.clone(),
        sky: vec![0.0, 0.0, 0.0, 0.0, 0.0, 1.0],
    };
    let out = align(&any, &metric, 3, 2);
    assert!((out.depth[5] - 200.0).abs() < 1e-5, "got {}", out.depth[5]);
    for i in 0..5 {
        assert!((out.depth[i] - 1000.0).abs() < 1e-5);
    }
}

#[test]
fn align_low_confidence_excluded_from_fit() {
    let any = AnyviewOut {
        depth: vec![1.0, 2.0, 3.0, 4.0],
        depth_conf: vec![0.0, 1.0, 1.0, 1.0],
        extrinsics: [0.0; 12],
        intrinsics: [300.0, 0.0, 0.0, 0.0, 300.0, 0.0, 0.0, 0.0, 1.0],
    };
    let metric = MetricOut {
        depth: vec![10.0, 20.0, 30.0, 40.0],
        sky: vec![0.0; 4],
    };
    let out = align(&any, &metric, 2, 2);
    let expected = 290.0 / 29.0;
    assert!(
        (out.scale_factor - expected as f32).abs() < 1e-4,
        "got {} expected {}",
        out.scale_factor,
        expected
    );
}

#[test]
fn align_size_mismatch_returns_any_depth_unchanged() {
    let any = AnyviewOut {
        depth: vec![1.0, 2.0, 3.0],
        depth_conf: vec![1.0; 3],
        extrinsics: [0.0; 12],
        intrinsics: [300.0, 0.0, 0.0, 0.0, 300.0, 0.0, 0.0, 0.0, 1.0],
    };
    let metric = MetricOut {
        depth: vec![10.0, 20.0, 30.0, 40.0],
        sky: vec![0.0; 4],
    };
    let out = align(&any, &metric, 2, 2);
    assert_eq!(out.depth, vec![1.0, 2.0, 3.0]);
    assert_eq!(out.scale_factor, 0.0);
}

#[test]
fn align_den_zero_clamped() {
    let any = AnyviewOut {
        depth: vec![0.0; 4],
        depth_conf: vec![1.0; 4],
        extrinsics: [0.0; 12],
        intrinsics: [300.0, 0.0, 0.0, 0.0, 300.0, 0.0, 0.0, 0.0, 1.0],
    };
    let metric = MetricOut {
        depth: vec![10.0; 4],
        sky: vec![0.0; 4],
    };
    let out = align(&any, &metric, 2, 2);
    assert!(out.scale_factor.abs() < 1e-3, "got {}", out.scale_factor);
}

#[test]
fn saddle_empty_returns_zero() {
    assert_eq!(select_reference_view_saddle(&[]), 0);
}

#[test]
fn saddle_single_returns_zero() {
    assert_eq!(select_reference_view_saddle(&[vec![1.0, 2.0, 3.0]]), 0);
}

#[test]
fn saddle_picks_central_view() {
    let cls = vec![
        vec![1.0f64, 0.0, 0.0],
        vec![1.0f64, 1.0, 0.0],
        vec![1.0f64, 1.0, 1.0],
    ];
    let best = select_reference_view_saddle(&cls);
    assert_eq!(best, 1);
}

#[test]
fn saddle_all_identical_returns_zero() {
    let cls = vec![
        vec![1.0f64, 2.0, 3.0],
        vec![1.0f64, 2.0, 3.0],
        vec![1.0f64, 2.0, 3.0],
    ];
    assert_eq!(select_reference_view_saddle(&cls), 0);
}

#[test]
fn saddle_orthogonal_views() {
    let cls = vec![
        vec![1.0f64, 0.0, 0.0],
        vec![0.0f64, 1.0, 0.0],
        vec![0.0f64, 0.0, 1.0],
    ];
    assert_eq!(select_reference_view_saddle(&cls), 0);
}

fn reorder_restore_roundtrip(s: usize, ref_view: usize) {
    let order = reorder_by_reference(s, ref_view);
    let restore = restore_original_order(s, ref_view);
    for p in 0..s {
        assert_eq!(
            restore[order[p]], p,
            "restore and order are not inverse at p={p}, s={s}, ref={ref_view}"
        );
    }
    let mut sorted = order.clone();
    sorted.sort();
    assert_eq!(
        sorted,
        (0..s).collect::<Vec<_>>(),
        "order not a permutation: s={s}, ref={ref_view}"
    );
}

#[test]
fn reorder_restore_roundtrip_all_configs() {
    for s in 1..=6 {
        for ref_view in 0..s {
            reorder_restore_roundtrip(s, ref_view);
        }
    }
}

#[test]
fn reorder_example_ref1_s4() {
    assert_eq!(reorder_by_reference(4, 1), vec![1, 0, 2, 3]);
    assert_eq!(restore_original_order(4, 1), vec![1, 0, 2, 3]);
}

#[test]
fn reorder_example_ref0_s3() {
    assert_eq!(reorder_by_reference(3, 0), vec![0, 1, 2]);
}



#[test]
fn hsv_to_rgb_red_and_green() {
    let (r, g, b) = hsv_to_rgb(0.0, 1.0, 1.0);
    assert!((r - 1.0).abs() < 1e-9);
    assert!(g.abs() < 1e-9);
    assert!(b.abs() < 1e-9);
    let (r, g, b) = hsv_to_rgb(1.0 / 3.0, 1.0, 1.0);
    assert!(r.abs() < 1e-9);
    assert!((g - 1.0).abs() < 1e-9);
    assert!(b.abs() < 1e-9);
}

#[test]
fn index_color_rgb_in_range() {
    let c0 = index_color_rgb(0, 10);
    let c5 = index_color_rgb(5, 10);
    assert_eq!(c0.len(), 3);
    assert_eq!(c5.len(), 3);
    assert_ne!(c0, c5, "distinct hues should produce distinct colors");
}

fn one_camera() -> Camera<F> {
    Camera {
        ext: identity_ext().map(F),
        intrinsics_inverse: Some(identity_k().map(F)),
        ext_inverse: Some(identity_ext().map(F)),
    }
}

#[test]
fn write_glb_minimal_scene_with_cameras() {
    let h = 2;
    let w = 2;
    let depth = vec![2.0f32; h * w];
    let img: Vec<u8> = (0..(h * w * 3)).map(|i| (i % 200) as u8).collect();
    let opt = GlbOptions { show_cameras: true, ..GlbOptions::default() };
    let bytes = glb_export::write_glb::<F, D>(&seen(&depth, &img, h, w), &[one_camera()], 2, 2, &opt);
    assert_eq!(&bytes[0..4], b"glTF");
    assert_eq!(u32::from_le_bytes(bytes[4..8].try_into().unwrap()), 2);
    let total = u32::from_le_bytes(bytes[8..12].try_into().unwrap()) as usize;
    assert_eq!(total, bytes.len());
    let json_len = u32::from_le_bytes(bytes[12..16].try_into().unwrap()) as usize;
    assert_eq!(&bytes[16..20], b"JSON");
    let json = std::str::from_utf8(&bytes[20..20 + json_len]).unwrap();
    assert!(json.contains("\"mode\":0"), "json missing POINTS: {json}");
    assert!(json.contains("\"mode\":1"), "json missing LINES: {json}");
    // Four points, and eight lines of two ends each.
    assert!(json.contains("\"count\":4"), "{json}");
    assert!(json.contains("\"count\":16"), "{json}");
    let bin_off = 20 + json_len;
    assert_eq!(&bytes[bin_off + 4..bin_off + 8], b"BIN\0");
}

#[test]
fn write_glb_empty_scene_is_valid() {
    let h = 2;
    let w = 2;
    let depth = vec![0.0f32; h * w];
    let img = vec![0u8; h * w * 3];
    let opt = GlbOptions { show_cameras: false, ..GlbOptions::default() };
    let bytes = glb_export::write_glb::<F, D>(&seen(&depth, &img, h, w), &[one_camera()], 2, 2, &opt);
    assert_eq!(&bytes[0..4], b"glTF");
    assert!(bytes.len() >= 20);
    assert_eq!(&bytes[16..20], b"JSON");
    let json_len = u32::from_le_bytes(bytes[12..16].try_into().unwrap()) as usize;
    let json = std::str::from_utf8(&bytes[20..20 + json_len]).unwrap();
    assert!(json.contains("\"scenes\":[{\"nodes\":[]}]"));
    assert!(!json.contains("bufferViews"));
}

fn one_frame(name: &str, orig_w: i64, orig_h: i64) -> colmap_export::Frame<F> {
    colmap_export::Frame {
        k: identity_k().map(F),
        ext: identity_ext().map(F),
        qvec: [F(1.0), F(0.0), F(0.0), F(0.0)],
        name: name.to_string(),
        orig_w,
        orig_h,
    }
}

#[test]
fn write_colmap_binary_roundtrip_header() {
    let h = 2;
    let w = 2;
    let depth = vec![2.0f32; h * w];
    let img = vec![10u8; h * w * 3];
    let model = colmap_export::write_colmap::<F, D>(
        &seen(&depth, &img, h, w),
        &[one_frame("frame0001.png", 100, 100)],
        h,
        w,
        true,
    );
    let cam_bytes = &model.cameras;
    assert_eq!(u64::from_le_bytes(cam_bytes[0..8].try_into().unwrap()), 1);
    let cam_id = i32::from_le_bytes(cam_bytes[8..12].try_into().unwrap());
    let model_id = i32::from_le_bytes(cam_bytes[12..16].try_into().unwrap());
    assert_eq!(cam_id, 1);
    assert_eq!(model_id, 1);
    let cw = u64::from_le_bytes(cam_bytes[16..24].try_into().unwrap());
    let ch = u64::from_le_bytes(cam_bytes[24..32].try_into().unwrap());
    assert_eq!(cw, 100);
    assert_eq!(ch, 100);
    assert_eq!(u64::from_le_bytes(model.images[0..8].try_into().unwrap()), 1);
    assert_eq!(u64::from_le_bytes(model.points[0..8].try_into().unwrap()), 4);
}

#[test]
fn write_colmap_text_has_expected_lines() {
    let h = 1;
    let w = 2;
    let depth = vec![1.5f32, 3.0];
    let img = vec![200u8; h * w * 3];
    let model = colmap_export::write_colmap::<F, D>(
        &seen(&depth, &img, h, w),
        &[one_frame("shot.jpg", 4, 4)],
        h,
        w,
        false,
    );
    let cam = String::from_utf8(model.cameras).unwrap();
    assert!(cam.contains("PINHOLE"));
    assert!(!cam.contains("shot.jpg"));
    let camera_line = cam.lines().find(|l| !l.starts_with('#')).unwrap();
    assert!(camera_line.starts_with("1 PINHOLE 4 4 "));
    let images = String::from_utf8(model.images).unwrap();
    assert!(images.contains("shot.jpg"));
    let pts = String::from_utf8(model.points).unwrap();
    let data_lines: Vec<&str> = pts.lines().filter(|l| !l.starts_with('#')).collect();
    assert_eq!(data_lines.len(), 2);
    assert!(data_lines[0].contains(" 200 200 200 "));
}

#[test]
fn a_camera_has_eight_places_in_json() {
    let mut ext = [F(0.0); 12];
    ext[0] = F(1.0);
    ext[11] = F(-0.5);
    let json = depth_export::write_pose_json(&ext, &[F(0.25); 9]);
    let head = "{\n  \"extrinsics\": [\n    [1.00000000, 0.00000000, 0.00000000, 0.00000000],";
    assert!(json.starts_with(head), "{json}");
    assert!(json.contains("0.00000000, -0.50000000]\n  ],\n"), "{json}");
    assert!(json.ends_with("[0.25000000, 0.25000000, 0.25000000]\n  ]\n}\n"), "{json}");
}

#[test]
fn numbers_of_a_scene_have_a_point() {
    assert_eq!(glb_export::fmt_f(F(2.0)), "2.0");
    assert_eq!(glb_export::fmt_f(F(0.125)), "0.125");
    let mut b = Vec::new();
    glb_export::put_f32(&mut b, F(1.0));
    assert_eq!(b, vec![0, 0, 0x80, 0x3f]);
}
