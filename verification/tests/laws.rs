use depth_anything::attention;
use depth_anything::backbone::select_reference_view_saddle;
use depth_anything::colmap_export;
use depth_anything::depth_export::{activate, grey_levels, sigmoid, write_pfm, write_pose_json};
use depth_anything::fast_attn::flash_attn_enabled;
use depth_anything::fast_block::{exp_fast, fast_block_enabled};
use depth_anything::fast_conv::{
    self, conv1x1_upsample_nc, fast_head_enabled, is_on, select_wino_policy, Conv3x3Mode,
    ConvOptions, UpsampleFusion, UpsampleSpec, WinoChoice, WinoMode,
};
use depth_anything::fast_dpt::{self, fast_dpt_enabled, transpose_npatch_chw, DptOptions, Feat};
use depth_anything::fast_profile::{enabled, Profiler, N_BUCKETS};
use depth_anything::glb_export::{self, frame_glb, Camera, GlbOptions};
use depth_anything::gs_adapter::{self, BuildError, GsAdapter};
use depth_anything::flash_attn::online_softmax_row_scalar;
use depth_anything::kquants::{dequantize_q4_k, dequantize_q5_k, get_scale_min_k4};
use depth_anything::linalg;
use depth_anything::nested::{quantile, AnyviewOut, MetricOut, NestedAligner};
use depth_anything::pos_embed::{
    clear_cache, interp_pos_embed, interp_pos_embed_cached, PosEmbedCache,
};
use depth_anything::reconstruct::{percentile_linear, WorldPoints};
use depth_anything::scalar::{Analytic, Fixed, Scalar};
use depth_anything::sort::sort;
use depth_anything::table::Table;
use depth_anything::text::{decimal, decimal_padded, decimal_signed, pad, put_le};
use depth_anything::tinyblas::{gemm_nn_into, linear, pack_b_nt};
use depth_anything::winograd::F2;

/// Whole numbers.
fn whole(v: &[i64]) -> Vec<Fixed> {
    v.iter().map(|x| Fixed(x * 65536)).collect()
}

fn ramp(n: usize, f: impl Fn(i64) -> i64) -> Vec<Fixed> {
    (0..n as i64).map(|i| Fixed(f(i))).collect()
}

fn options(conv3x3: &str, wino: &str) -> ConvOptions {
    ConvOptions::parse(Some(conv3x3), Some(wino))
}

// ---- convolutions ---------------------------------------------------------------

#[test]
fn tiles_of_two_give_the_direct_sum() {
    let x = ramp(3 * 5 * 7, |i| ((i * 29) % 23 - 11) * 65536);
    let w = ramp(2 * 3 * 9, |i| ((i * 31) % 19 - 9) * 4096);
    let b = ramp(2, |i| i * 12345 - 7);
    let direct = fast_conv::conv3x3_pad1(&x, &w, &b, 1, 3, 5, 7, 2, options("direct", "auto"));
    let tiled = fast_conv::conv3x3_pad1(&x, &w, &b, 1, 3, 5, 7, 2, options("wino", "f2"));
    assert_eq!(direct, tiled);
    assert!(direct.iter().any(|v| v.0 != 0));
}

#[test]
fn numbers_beyond_the_range_agree_all_the_same() {
    // Products and sums beyond 64 bits are cut off alike in both ways.
    let x = ramp(16, |i| ((i % 5) - 2) << 58);
    let w = ramp(9, |i| ((i % 3) - 1) << 59);
    let b = vec![Fixed(i64::MAX)];
    let direct = fast_conv::conv3x3_pad1(&x, &w, &b, 1, 1, 4, 4, 1, options("direct", "auto"));
    let tiled = fast_conv::conv3x3_pad1(&x, &w, &b, 1, 1, 4, 4, 1, options("wino", "f2"));
    assert_eq!(direct, tiled);
}

#[test]
fn one_tap_by_hand() {
    // A filter that reads the pixel to the upper left.
    let x = whole(&[1, 2, 3, 4]);
    let mut w = vec![Fixed(0); 9];
    w[0] = Fixed(65536);
    let b = whole(&[10]);
    for opts in [options("direct", ""), options("wino", "f2")] {
        let y = fast_conv::conv3x3_pad1(&x, &w, &b, 1, 1, 2, 2, 1, opts);
        assert_eq!(y, whole(&[10, 10, 10, 11]));
    }
}

#[test]
fn residuals_and_cuts_are_applied() {
    let x = whole(&[-1, 2, -3, 4]);
    let mut w = vec![Fixed(0); 9];
    w[4] = Fixed(65536);
    let b = whole(&[0]);
    let o = ConvOptions::default();
    let y = fast_conv::conv3x3_pad1_relu_in(&x, &w, &b, 1, 1, 2, 2, 1, o);
    assert_eq!(y, whole(&[0, 2, 0, 4]));
    let y = fast_conv::conv3x3_pad1_relu_out(&x, &w, &b, 1, 1, 2, 2, 1, o);
    assert_eq!(y, whole(&[0, 2, 0, 4]));
    let residual = whole(&[10, 20, 30, 40]);
    let y = fast_conv::conv3x3_pad1_relu_in_res_out(&x, &w, &b, 1, 1, 2, 2, 1, &residual, o);
    assert_eq!(y, whole(&[10, 22, 30, 44]));
}

#[test]
fn fused_upsampling_is_upsampling() {
    let x = ramp(2 * 3 * 4, |i| ((i * 13) % 7 - 3) * 40000);
    let w = ramp(3 * 2 * 9, |i| ((i * 11) % 5 - 2) * 9000);
    let b = whole(&[1, -2, 3]);
    let add = ramp(2 * 6 * 9, |i| i * 100);
    for o in [options("auto", "f2"), options("wino", "f4")] {
        let fused = fast_conv::conv3x3_pad1_relu_out_upsample(
            &x, &w, &b, 1, 2, 3, 4, 3, 6, 9, Some(&add), o,
        );
        let small = Feat::new(x.clone(), 2, 3, 4);
        let up = fast_dpt::upsample_bilinear_ac(&small, 6, 9, Some(&add));
        let stored = fast_conv::conv3x3_pad1_relu_out(&up.data, &w, &b, 1, 2, 6, 9, 3, o);
        assert_eq!(fused, stored);
    }
    // The tables of a fusion drive the tiles in the same way.
    let spec = UpsampleSpec::new_ac(3, 4, 6, 9);
    let fusion = UpsampleFusion { spec: &spec, add: None };
    let y = fast_conv::conv3x3_pad1_wino::<Fixed, F2>(
        &x, &w, &b, 1, 2, 3, 4, 3, 6, 9, false, None, true, Some(&fusion),
    );
    let z = fast_conv::conv3x3_pad1_relu_out_upsample(
        &x, &w, &b, 1, 2, 3, 4, 3, 6, 9, None, options("auto", "f2"),
    );
    assert_eq!(y, z);
}

#[test]
fn upsampling_to_the_same_size_changes_nothing() {
    let x = Feat::new(ramp(2 * 3 * 5, |i| i * 777 - 5000), 2, 3, 5);
    assert_eq!(fast_dpt::upsample_bilinear_ac(&x, 3, 5, None).data, x.data);
    let w = ramp(6, |i| i * 30000);
    let b = whole(&[1, 2, 3]);
    assert_eq!(
        fast_conv::conv1x1_upsample(&x.data, &w, &b, 1, 2, 3, 5, 3, 3, 5),
        fast_conv::conv1x1(&x.data, &w, &b, 1, 2, 3, 5, 3)
    );
}

#[test]
fn the_middle_filter_gives_the_image_back() {
    let x = ramp(6, |i| i * i * 1000 - 3);
    let mut w = vec![Fixed(0); 9];
    w[4] = Fixed(65536);
    let o = options("direct", "");
    assert_eq!(fast_conv::conv3x3_pad1(&x, &w, &[Fixed(0)], 1, 1, 2, 3, 1, o), x);
}

#[test]
fn switches_are_read_from_their_texts() {
    assert_eq!(options("direct", "f4").conv3x3, Conv3x3Mode::Direct);
    assert_eq!(options("wino", "f4").wino, WinoMode::F4);
    assert_eq!(options("", ""), ConvOptions::default());
    assert_eq!(select_wino_policy(WinoMode::F2, 1000, 1000), WinoChoice::F2);
    assert_eq!(select_wino_policy(WinoMode::F4, 1, 1), WinoChoice::F4);
    assert!(is_on(Some("1")) && !is_on(Some("0")) && !is_on(None));
    assert!(!fast_head_enabled(Some("0")));
    assert!(!fast_dpt_enabled(Some("0")));
    assert!(flash_attn_enabled(Some("1")));
    assert!(!fast_block_enabled(Some("0"), None));
    assert!(enabled(Some("1")) && !enabled(Some("on")) && !enabled(Some("0")) && !enabled(None));
    let o = DptOptions::parse(ConvOptions::default(), None, None);
    assert_eq!(o.conv, ConvOptions::default());
    assert_eq!(conv1x1_upsample_nc(4, 100, 8, 1), 100);
    assert_eq!(conv1x1_upsample_nc(4096, 10_000, 8, 1000), 32);
}

// ---- matrices ---------------------------------------------------------------------

#[test]
fn transposing_twice_gives_it_back() {
    let tokens = ramp(12, |i| i * 3);
    let planes = transpose_npatch_chw(&tokens, 4, 3);
    assert_eq!(planes[0..4], [Fixed(0), Fixed(9), Fixed(18), Fixed(27)]);
    assert_eq!(transpose_npatch_chw(&planes, 3, 4), tokens);
    let m: [Fixed; 9] = ramp(9, |i| i).try_into().unwrap();
    assert_eq!(linalg::mat3_transpose(&linalg::mat3_transpose(&m)), m);
}

#[test]
fn a_matrix_is_the_product_of_its_factors() {
    let near = |a: &[Fixed], b: &[Fixed]| a.iter().zip(b).all(|(x, y)| (x.0 - y.0).abs() <= 256);
    let unit = whole(&[1, 0, 0, 0, 1, 0, 0, 0, 1]);
    let (q, l) = linalg::ql_decomposition(&[Fixed(0); 9]);
    assert_eq!(linalg::mat3_mul(&linalg::mat3_transpose(&q), &q).to_vec(), unit);
    assert_eq!(l, [Fixed(0); 9]);
    for m in [[2, 0, 0, 0, -3, 0, 0, 0, 4], [0, 0, 0, 5, 0, 0, 0, 0, 1], [1, 2, 3, 4, 5, 6, 7, 8, 1]] {
        let a: [Fixed; 9] = whole(&m).try_into().unwrap();
        let (q, l) = linalg::ql_decomposition(&a);
        assert!(near(&linalg::mat3_mul(&linalg::mat3_transpose(&q), &q), &unit));
        let product = linalg::mat3_mul(&q, &l);
        assert!(near(&product, &a), "{product:?} is not {a:?}");
        assert!(l[0].0 >= 0 && l[4].0 >= 0 && l[8].0 >= 0);
        let (q, r) = linalg::householder_qr(&a, 3);
        assert!(near(&linalg::matmul(&q, &r, 3), &a));
    }
}

#[test]
fn a_matrix_times_its_inverse_is_the_identity() {
    let a: [Fixed; 9] = whole(&[2, 0, 1, 0, 4, 0, 2, 0, 2]).try_into().unwrap();
    let unit = whole(&[1, 0, 0, 0, 1, 0, 0, 0, 1]);
    let m = linalg::mat3_inverse(&a).unwrap();
    assert_eq!(linalg::mat3_mul(&a, &m).to_vec(), unit);
    assert_eq!(linalg::mat3_mul(&m, &a).to_vec(), unit);
    assert_eq!(gs_adapter::mat3_inverse(&a), m);
    assert_eq!(gs_adapter::mat3_inverse(&[Fixed(0); 9]), [Fixed(0); 9]);
}

#[test]
fn eigenvectors_make_up_the_matrix_again() {
    let m = whole(&[2, 1, 0, 1, 2, 0, 0, 0, 5]);
    let (values, vectors) = linalg::jacobi_eigen_sym(&m, 3);
    let v: [Fixed; 9] = vectors.try_into().unwrap();
    let near = |a: &[Fixed], b: &[Fixed]| a.iter().zip(b).all(|(x, y)| (x.0 - y.0).abs() <= 64);
    let unit = whole(&[1, 0, 0, 0, 1, 0, 0, 0, 1]);
    assert!(near(&linalg::mat3_mul(&linalg::mat3_transpose(&v), &v), &unit));
    let mut d = [Fixed(0); 9];
    for i in 0..3 {
        d[i * 4] = values[i];
    }
    let back = linalg::mat3_mul(&linalg::mat3_mul(&v, &d), &linalg::mat3_transpose(&v));
    assert!(near(&back, &m), "{back:?}");
}

#[test]
fn a_quaternion_comes_back_from_its_matrix() {
    let half = Fixed(32768);
    for q in [[half; 4], [Fixed(65536), Fixed(0), Fixed(0), Fixed(0)]] {
        let m = gs_adapter::quat_xyzw_to_mat(&q);
        assert_eq!(gs_adapter::mat_to_quat_xyzw(&m), q);
        let opposite = q.map(|x| Fixed(-x.0));
        assert_eq!(gs_adapter::quat_xyzw_to_mat(&opposite), m);
    }
    let turned = [half, half, half, Fixed(-32768)];
    let back = gs_adapter::mat_to_quat_xyzw(&gs_adapter::quat_xyzw_to_mat(&turned));
    assert_eq!(back, turned.map(|x| Fixed(-x.0)));
}

#[test]
fn the_identity_is_neutral() {
    let m: [Fixed; 9] = ramp(9, |i| i * 777 - 9).try_into().unwrap();
    let e: [Fixed; 9] = whole(&[1, 0, 0, 0, 1, 0, 0, 0, 1]).try_into().unwrap();
    assert_eq!(linalg::mat3_mul(&m, &e), m);
    assert_eq!(linalg::mat3_mul(&e, &m), m);
    assert_eq!(linalg::det3(&e), Fixed(65536));
    assert_eq!(linalg::mat3_inverse(&e), Some(e));
}

#[test]
fn factors_are_triangular() {
    let m: [Fixed; 9] = whole(&[2, -1, 0, -1, 2, -1, 0, -1, 2]).try_into().unwrap();
    let (_, r) = linalg::qr3x3(&m);
    assert_eq!([r[3], r[6], r[7]], [Fixed(0); 3]);
    let (_, l) = linalg::ql_decomposition(&m);
    assert_eq!([l[1], l[2], l[5]], [Fixed(0); 3]);
    assert!(l[0].0 >= 0 && l[4].0 >= 0 && l[8].0 >= 0);
}

#[test]
fn products_by_hand() {
    let a = whole(&[1, 2, 3, 4, 5, 6]);
    let b = whole(&[1, 0, 2, 1, 0, 3]);
    let mut c = whole(&[100, 0, 0, 0]);
    gemm_nn_into(2, 2, 3, &a, &b, &mut c);
    assert_eq!(c, whole(&[105, 11, 14, 23]));
    // Weights are stored row by row for each output.
    let w = whole(&[1, 2, 3, 4, 5, 6]);
    assert_eq!(pack_b_nt(3, 2, &w), whole(&[1, 4, 2, 5, 3, 6]));
    let y = linear(&whole(&[1, 1, 1]), &pack_b_nt(3, 2, &w), &whole(&[10, 20]), 1, 3, 2);
    assert_eq!(y, whole(&[16, 35]));
}

#[test]
fn tokens_at_the_origin_are_not_turned() {
    let x = ramp(16, |i| i * 1234);
    let (cos, sin) = (vec![Fixed(65536); 16], vec![Fixed(0); 16]);
    assert_eq!(attention::apply_rope2d(&x, &cos, &sin, 2, 1, 8), x);
    // A quarter turn swaps the halves of each axis.
    let (cos, sin) = (vec![Fixed(0); 8], vec![Fixed(65536); 8]);
    let y = attention::apply_rope2d(&whole(&[1, 2, 3, 4, 5, 6, 7, 8]), &cos, &sin, 1, 1, 8);
    assert_eq!(y, whole(&[-3, -4, 1, 2, -7, -8, 5, 6]));
}

#[test]
fn an_embedding_keeps_its_own_grid() {
    let pe = ramp(10 * 2, |i| i * 555 - 99);
    assert_eq!(interp_pos_embed(&pe, 2, 3, 3, 3, Fixed(0)), pe);
    let mut cache = PosEmbedCache::new();
    let wide = interp_pos_embed(&pe, 2, 3, 4, 5, Fixed(6554));
    assert_eq!(wide.len(), (1 + 20) * 2);
    for _ in 0..2 {
        let got = interp_pos_embed_cached(&mut cache, 1, &pe, 2, 3, 4, 5, Fixed(6554));
        assert_eq!(got, wide);
    }
    clear_cache(&mut cache);
    clear_cache(&mut cache);
    assert!(cache.keys.is_empty() && cache.values.is_empty());
    assert_eq!(interp_pos_embed_cached(&mut cache, 1, &pe, 2, 3, 4, 5, Fixed(6554)), wide);
}

// ---- numbers in order ---------------------------------------------------------------

#[test]
fn sorting_orders_and_keeps() {
    let v = whole(&[3, -1, 2, 3, 0]);
    assert_eq!(sort(&v), whole(&[-1, 0, 2, 3, 3]));
    assert_eq!(quantile::<Fixed, Fixed>(&v, Fixed(32768)), Fixed(2 * 65536));
    assert_eq!(quantile::<Fixed, Fixed>(&[], Fixed(32768)), Fixed(0));
    assert_eq!(percentile_linear::<Fixed, Fixed>(&v, Fixed(100 * 65536)), Fixed(3 * 65536));
}

#[test]
fn the_order_of_numbers_does_not_matter() {
    let (a, b) = (whole(&[3, -1, 2, 3, 0]), whole(&[0, 3, 3, 2, -1]));
    assert_eq!(sort(&a), sort(&b));
    let q = Fixed(50000);
    assert_eq!(quantile::<Fixed, Fixed>(&a, q), quantile::<Fixed, Fixed>(&b, q));
}

#[test]
fn the_reference_is_one_of_the_views() {
    let views = vec![whole(&[1, 0]), whole(&[3, 4]), whole(&[0, 2]), whole(&[1, 1])];
    for n in 1..=4 {
        assert!(select_reference_view_saddle(&views[..n]) < n);
    }
    assert_eq!(select_reference_view_saddle(&views[..1]), 0);
    assert_eq!(select_reference_view_saddle::<Fixed>(&[]), 0);
}

#[test]
fn the_reference_is_the_most_balanced_view() {
    let views = vec![whole(&[1, 0, 0]), whole(&[1, 1, 0]), whole(&[1, 1, 1])];
    assert_eq!(select_reference_view_saddle(&views), 1);
    let alike = vec![whole(&[1, 2]), whole(&[1, 2]), whole(&[1, 2])];
    assert_eq!(select_reference_view_saddle(&alike), 0);
}

#[test]
fn quantiles_stay_within_and_grow() {
    let v = whole(&[3, -1, 2, 7, 0]);
    let at = |v: &[Fixed], q: i64| quantile::<Fixed, Fixed>(v, Fixed(q)).0;
    assert_eq!((at(&v, 0), at(&v, 65536)), (-65536, 7 * 65536));
    let rising: Vec<i64> = (0..=16).map(|i| at(&v, i * 4096)).collect();
    assert!(rising.windows(2).all(|w| w[0] <= w[1]));
    let moved: Vec<Fixed> = v.iter().map(|x| Fixed(x.0 + 5 * 65536)).collect();
    for q in [0, 16384, 32768, 49152, 65536] {
        assert_eq!(at(&moved, q), at(&v, q) + 5 * 65536);
    }
}

// ---- numbers ------------------------------------------------------------------------

#[test]
fn exponentials_are_near_and_stay_in_range() {
    assert_eq!(exp_fast(Fixed(0)), Fixed(65536));
    assert!((exp_fast(Fixed(65536)).0 - 178145).abs() < 100);
    assert!((exp_fast(Fixed(-65536)).0 - 24109).abs() < 20);
    assert!((exp_fast(Fixed(5 * 65536)).0 - 9726404).abs() < 5000);
    assert_eq!(Fixed(0).exponential(), Fixed(65536));
    assert_eq!(Fixed(-2048 * 65536).exponential(), Fixed(0));
    assert_eq!(Fixed(-1024 * 65536 - 1).exponential(), Fixed(0));
    assert_eq!(Fixed(2048 * 65536).exponential(), Fixed(i64::MAX));
    assert_eq!(sigmoid(Fixed(2048 * 65536)), Fixed(65536));
    assert_eq!(Fixed(98304).nearest(), Fixed(131072));
    assert_eq!(Fixed(163840).nearest(), Fixed(131072));
    assert_eq!(Fixed(-98304).nearest(), Fixed(-131072));
    assert_eq!(Fixed(32768).nearest(), Fixed(0));
}

#[test]
fn what_is_not_zero_does_not_become_zero() {
    assert_eq!(Fixed::ratio(1, 1_000_000), Fixed(1));
    assert_eq!(Fixed::ratio(-1, 1_000_000), Fixed(-1));
    assert_eq!(Fixed::ratio(0, 5), Fixed(0));
    assert_eq!(Fixed::from_bits(1), Fixed(1));
    assert_eq!(Fixed::from_double_bits(0x01a5_6e1f_c2f8_f359), Fixed(1));
    assert_eq!(Fixed::from_half_bits(0x8001), Fixed(-1));
    assert_eq!(linalg::mat3_inverse(&[Fixed(0); 9]), None);
}

#[test]
fn the_fifth_bit_is_worth_sixteen_steps() {
    let mut four = vec![0u8; 144];
    four[1] = 0x3c;
    four[3] = 0x38;
    for i in 4..144 {
        four[i] = (i * 37 % 251) as u8;
    }
    let mut five = vec![0u8; 176];
    five[..16].copy_from_slice(&four[..16]);
    five[48..].copy_from_slice(&four[16..]);
    let (mut a, mut b) = (vec![Fixed(0); 256], vec![Fixed(0); 256]);
    dequantize_q4_k(&four, 1, &mut a);
    dequantize_q5_k(&five, 1, &mut b);
    assert_eq!(a, b);
    five[16 + 7] = 1 << 3;
    let mut c = vec![Fixed(0); 256];
    dequantize_q5_k(&five, 1, &mut c);
    let scale = get_scale_min_k4(3, &five[4..16]).0 as i64;
    assert!(scale > 0);
    b[3 * 32 + 7].0 += 16 * scale * 65536;
    assert_eq!(b, c);
}

#[test]
fn scales_have_six_bits() {
    let q: Vec<u8> = vec![255; 12];
    for j in 0..8 {
        assert_eq!(get_scale_min_k4(j, &q), (63, 63));
    }
}

// ---- depth --------------------------------------------------------------------------

#[test]
fn raw_depth_is_read_by_the_kind_of_model() {
    let one = Fixed(65536);
    let m = activate(&whole(&[0, 0, 0, 0]), None, 2, 2, Fixed(0));
    assert_eq!((m.depth, m.conf, m.sky), (vec![one; 2], vec![Fixed(131072); 2], vec![]));
    let m = activate(&whole(&[0, 0]), Some(&whole(&[-1, 2])), 2, 1, Fixed(0));
    assert_eq!((m.depth, m.conf, m.sky), (vec![one; 2], vec![], whole(&[0, 2])));
    let m = activate(&whole(&[0, 0]), None, 2, 1, Fixed(20 * 65536));
    assert_eq!(m.depth, whole(&[10, 10]));
    let m = activate(&whole(&[-4, 4]), None, 2, 1, Fixed(0));
    assert_eq!(m.depth, whole(&[0, 4]));
    assert_eq!(sigmoid(Fixed(0)), Fixed(32768));
}

#[test]
fn maps_are_written_from_the_bottom_up() {
    let bytes = write_pfm(&whole(&[1, 2, 3, 4]), 2, 2);
    let header = b"Pf\n2 2\n-1.0\n";
    assert_eq!(&bytes[..header.len()], header);
    let rows: Vec<f32> = bytes[header.len()..]
        .chunks(4)
        .map(|c| f32::from_le_bytes(c.try_into().unwrap()))
        .collect();
    assert_eq!(rows, vec![3.0, 4.0, 1.0, 2.0]);
}

#[test]
fn grey_levels_span_the_map() {
    let d = whole(&[1, 2, 3]);
    assert_eq!(grey_levels(&d, 3, 1, false), vec![0, 128, 255]);
    assert_eq!(grey_levels(&d, 3, 1, true), vec![255, 128, 0]);
    assert_eq!(grey_levels(&whole(&[5, 5]), 2, 1, false), vec![0, 0]);
}

#[test]
fn a_camera_is_written_as_json() {
    let mut ext = [Fixed(0); 12];
    ext[0] = Fixed(65536);
    ext[11] = Fixed(-32768);
    let json = write_pose_json(&ext, &[Fixed(0); 9]);
    let head = "{\n  \"extrinsics\": [\n    [1.0000000000000000, 0.0000000000000000,";
    assert!(json.starts_with(head), "{json}");
    assert!(json.contains(" -0.5000000000000000]\n  ],\n  \"intrinsics\": ["), "{json}");
    assert!(json.ends_with("]\n  ]\n}\n"));
}

#[test]
fn the_sky_is_filled_and_the_rest_stays() {
    let mut depth = ramp(24, |i| i * 65536);
    let before = depth.clone();
    let sky: Vec<Fixed> = (0..24).map(|i| Fixed(if i < 12 { 0 } else { 65536 })).collect();
    NestedAligner::process_mono_sky::<Fixed, Fixed>(&mut depth, &sky);
    assert_eq!(depth[..12], before[..12]);
    assert!(depth[12..].iter().all(|d| *d == depth[12]));
    assert_ne!(depth[12], before[12]);
}

#[test]
fn small_skies_stay() {
    let before = ramp(24, |i| i * 65536);
    for covered in [0, 5, 10, 14, 24] {
        let sky: Vec<Fixed> = (0..24).map(|i| Fixed(if i < covered { 65536 } else { 0 })).collect();
        let mut depth = before.clone();
        NestedAligner::process_mono_sky::<Fixed, Fixed>(&mut depth, &sky);
        assert_eq!(depth, before);
    }
    let mut depth = before.clone();
    NestedAligner::process_mono_sky::<Fixed, Fixed>(&mut depth, &before[..23]);
    assert_eq!(depth, before);
}

#[test]
fn alignment_keeps_what_it_does_not_scale() {
    let any = AnyviewOut {
        depth: whole(&[1, 2]),
        depth_conf: whole(&[1, 1]),
        extrinsics: whole(&[1, 0, 0, 10, 0, 1, 0, 20, 0, 0, 1, 30]).try_into().unwrap(),
        intrinsics: whole(&[300, 0, 0, 0, 300, 0, 0, 0, 1]).try_into().unwrap(),
    };
    let metric = MetricOut { depth: whole(&[3, 6]), sky: whole(&[0, 0]) };
    let out = NestedAligner::align::<Fixed, Fixed>(&any, &metric, 1, 2);
    assert_eq!(out.scale_factor, Fixed(3 * 65536));
    assert_eq!(out.depth, whole(&[3, 6]));
    assert_eq!(out.intrinsics, any.intrinsics);
    assert_eq!(out.extrinsics[3], Fixed(30 * 65536));
    assert_eq!(out.extrinsics[0], Fixed(65536));
    let out = NestedAligner::align::<Fixed, Fixed>(&any, &metric, 2, 2);
    assert_eq!((out.scale_factor, out.depth), (Fixed(0), whole(&[1, 2])));
    assert_eq!(out.extrinsics, any.extrinsics);
    let flat = AnyviewOut { depth: whole(&[0, 0]), ..any };
    let out = NestedAligner::align::<Fixed, Fixed>(&flat, &metric, 1, 2);
    assert_eq!((out.scale_factor, out.depth), (Fixed(0), whole(&[0, 0])));
}

#[test]
fn attention_is_a_mean_of_the_values() {
    let (q, k) = (whole(&[0, 0]), whole(&[1, 2, 3, 4]));
    let row = |v: &[i64]| online_softmax_row_scalar(&q, &k, &whole(v), 2, 2, Fixed(65536));
    assert_eq!(row(&[2, 10, 4, -10]), whole(&[3, 0]));
    assert_eq!(row(&[4, -10, 2, 10]), whole(&[3, 0]));
    let out = online_softmax_row_scalar(
        &whole(&[1, 0]),
        &k,
        &whole(&[2, 10, 4, -10]),
        2,
        2,
        Fixed(65536),
    );
    assert!(out[0].0 > 3 * 65536 && out[0].0 <= 4 * 65536);
    assert!(out[1].0 < 0 && out[1].0 >= -10 * 65536);
}

#[test]
fn gaussians_are_as_opaque_as_confident() {
    let ad: GsAdapter<Fixed> = GsAdapter::default();
    let mut raw = vec![Fixed(0); 37];
    raw[8] = Fixed(65536);
    let ext = whole(&[1, 0, 0, 0, 0, 1, 0, 0, 0, 0, 1, 0]).try_into().unwrap();
    let intr = whole(&[1, 0, 0, 0, 1, 0, 0, 0, 1]).try_into().unwrap();
    let conf = vec![Fixed(12345)];
    let g = ad.build(&raw, &whole(&[2]), &conf, &ext, &intr, 1, 1).unwrap();
    assert_eq!(g.opacities, conf);
    assert_eq!((g.n, g.means.len(), g.harmonics.len()), (1, 3, 27));
    let e = ad.build(&raw, &[], &conf, &ext, &intr, 1, 1).err().unwrap();
    assert_eq!(e, BuildError::BadInputLen { name: "depth", expected: 1, got: 0 });
    assert!(e.message().contains("depth"));
}

#[test]
fn offsets_that_are_switched_off_do_not_matter() {
    let ad = GsAdapter { pred_offset_depth: false, pred_offset_xy: false, ..GsAdapter::default() };
    let on: GsAdapter<Fixed> = GsAdapter { pred_offset_depth: true, pred_offset_xy: true, ..ad };
    let mut raw = vec![Fixed(0); 37];
    raw[8] = Fixed(65536);
    let mut other = raw.clone();
    other[0] = Fixed(40000);
    other[36] = Fixed(65536);
    let ext = whole(&[1, 0, 0, 0, 0, 1, 0, 0, 0, 0, 1, 0]).try_into().unwrap();
    let intr = whole(&[1, 0, 0, 0, 1, 0, 0, 0, 1]).try_into().unwrap();
    let (depth, conf) = (whole(&[2]), vec![Fixed(12345)]);
    let a = ad.build(&raw, &depth, &conf, &ext, &intr, 1, 1).unwrap();
    let b = ad.build(&other, &depth, &conf, &ext, &intr, 1, 1).unwrap();
    assert_eq!((a.means, a.scales, a.rotations), (b.means, b.scales, b.rotations));
    assert_eq!((a.harmonics, a.opacities), (b.harmonics, b.opacities));
    let a = on.build(&raw, &depth, &conf, &ext, &intr, 1, 1).unwrap();
    let b = on.build(&other, &depth, &conf, &ext, &intr, 1, 1).unwrap();
    assert_ne!(a.means, b.means);
}

// ---- files --------------------------------------------------------------------------

fn two_frames() -> WorldPoints<Fixed> {
    WorldPoints {
        xyz: whole(&[1, 2, 3, 4, 5, 6, 7, 8, 9]),
        rgb: vec![10, 20, 30, 40, 50, 60, 70, 80, 90],
        frame: vec![1, 0, 1],
        u: vec![0, 1, 2],
        v: vec![3, 4, 5],
    }
}

fn frame(name: &str) -> colmap_export::Frame<Fixed> {
    let mut ext = [Fixed(0); 16];
    for i in 0..4 {
        ext[i * 5] = Fixed(65536);
    }
    colmap_export::Frame {
        k: whole(&[2, 0, 1, 0, 2, 1, 0, 0, 1]).try_into().unwrap(),
        ext,
        qvec: whole(&[1, 0, 0, 0]).try_into().unwrap(),
        name: name.to_string(),
        orig_w: 6,
        orig_h: 6,
    }
}

#[test]
fn tracks_lead_back_to_their_points() {
    let wp = two_frames();
    let frames = [frame("a.png"), frame("b.png")];
    let m = colmap_export::write_colmap::<Fixed, Fixed>(&wp, &frames, 6, 6, false);
    let points = String::from_utf8(m.points).unwrap();
    let rows: Vec<Vec<&str>> = points
        .lines()
        .filter(|l| !l.starts_with('#'))
        .map(|l| l.split_whitespace().collect())
        .collect();
    let images = String::from_utf8(m.images).unwrap();
    let lists: Vec<Vec<&str>> = images
        .lines()
        .filter(|l| !l.starts_with('#'))
        .map(|l| l.split_whitespace().collect())
        .collect();
    assert_eq!(rows.len(), 3);
    for row in &rows {
        let n = row.len();
        let image: usize = row[n - 2].parse().unwrap();
        let place: usize = row[n - 1].parse().unwrap();
        let line = lists.iter().position(|l| l[0] == image.to_string() && l.len() == 10).unwrap();
        assert_eq!(lists[line + 1][place * 3 + 2], row[0]);
    }
}

#[test]
fn a_scene_file_states_its_length() {
    let bytes = frame_glb(b"{}", &[1, 2, 3, 4]);
    assert_eq!(bytes.len() % 4, 0);
    assert_eq!(u32::from_le_bytes(bytes[8..12].try_into().unwrap()) as usize, bytes.len());
    assert_eq!(&bytes[20..24], b"{}  ");
    assert_eq!(&bytes[28..32], b"BIN\0");
    let alone = frame_glb(b"{}", &[]);
    assert_eq!(alone.len(), 24);
}

#[test]
fn a_scene_buffer_holds_points_and_lines() {
    let wp = two_frames();
    let ext = frame("").ext;
    let cam = Camera {
        ext,
        intrinsics_inverse: Some(whole(&[1, 0, 0, 0, 1, 0, 0, 0, 1]).try_into().unwrap()),
        ext_inverse: Some(ext),
    };
    let opt = GlbOptions::default();
    let s = glb_export::build_scene::<Fixed, Fixed>(&wp, &[cam], 6, 6, &opt);
    assert_eq!((s.pos.len(), s.rgb.len()), (9, 9));
    assert_eq!(s.line_pos.len() / 3, s.line_col.len() / 4);
    assert_eq!(s.line_pos.len() / 3, 16);
    let bytes = glb_export::glb_bytes(&s);
    let json_len = u32::from_le_bytes(bytes[12..16].try_into().unwrap()) as usize;
    let bin_len = u32::from_le_bytes(bytes[20 + json_len..24 + json_len].try_into().unwrap());
    assert_eq!(bin_len, 3 * 12 + 3 * 4 + 16 * 12 + 16 * 4);
    for axis in 0..3 {
        let mut along: Vec<i64> = s.pos.iter().skip(axis).step_by(3).map(|x| x.0).collect();
        along.sort();
        assert_eq!(along[1], 0);
    }
}

#[test]
fn all_points_of_a_scene_are_kept() {
    let wp = two_frames();
    let cams: [Camera<Fixed>; 0] = [];
    let file = |num_max_points| {
        let opt = GlbOptions { num_max_points, ..GlbOptions::default() };
        glb_export::write_glb::<Fixed, Fixed>(&wp, &cams, 6, 6, &opt)
    };
    assert_eq!(file(1), file(1_000_000));
}

#[test]
fn texts_and_bytes_of_numbers() {
    assert_eq!(decimal(0), "0");
    assert_eq!(decimal(18446744073709551615), "18446744073709551615");
    assert_eq!(decimal_padded(7, 3), "007");
    assert_eq!(decimal_signed(-42), "-42");
    let mut b = vec![9];
    put_le(&mut b, 0x0102_0304, 4);
    assert_eq!(b, vec![9, 4, 3, 2, 1]);
    pad(&mut b, 0x20);
    assert_eq!(b, vec![9, 4, 3, 2, 1, 0x20, 0x20, 0x20]);
}

#[test]
fn a_table_holds_each_key_once() {
    let mut t: Table<u32> = Table::new();
    t.insert("a".to_string(), 1);
    t.insert("b".to_string(), 2);
    t.insert("a".to_string(), 3);
    assert_eq!(t.len(), 2);
    assert_eq!((t.get("a"), t.get("b"), t.get("c")), (Some(&3), Some(&2), None));
}

// ---- profiles -----------------------------------------------------------------------

#[test]
fn labels_keep_their_buckets() {
    let mut p = Profiler::new(true);
    let first = p.idx(1000, "first");
    for i in 0..200 {
        p.idx(i, "other");
    }
    assert_eq!(p.idx(1000, "first"), first);
    assert_eq!(p.idx(5000, "late"), N_BUCKETS - 1);
    p.record_idx(first, 30);
    let s = p.scope(1000, "first", 100);
    p.finish(s, 112);
    let r = p.dump_and_reset().unwrap();
    assert_eq!(r.total, 42);
    assert_eq!(r.rows.len(), 1);
    assert_eq!((r.rows[0].label.as_str(), r.rows[0].usec, r.rows[0].calls), ("first", 42, 2));
    let again = p.dump_and_reset().unwrap();
    assert_eq!((again.total, again.rows.len()), (0, 0));
    let mut off = Profiler::new(false);
    let s = off.scope(1, "x", 5);
    off.finish(s, 9);
    assert!(off.dump_and_reset().is_none());
}
