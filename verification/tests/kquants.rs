use depth_anything::kquants::{
    dequantize_q4_k, dequantize_q6_k, dequantize_q8_k, get_scale_min_k4, K_SCALE_SIZE,
    Q4_K_BLOCK_BYTES, Q5_K_BLOCK_BYTES, Q6_K_BLOCK_BYTES, Q8_K_BLOCK_BYTES, QK_K,
};
use depth_anything::scalar::Scalar;
use half::f16;

/// Single precision.
#[derive(Clone, Copy, Debug, PartialEq)]
struct F(f32);

impl Scalar for F {
    fn ratio(num: i32, den: u32) -> Self {
        F(num as f32 / den as f32)
    }
    fn from_count(n: usize) -> Self {
        F(n as f32)
    }
    fn from_bits(bits: u32) -> Self {
        F(f32::from_bits(bits))
    }
    fn from_half_bits(bits: u16) -> Self {
        F(half::f16::from_bits(bits).to_f32())
    }
    fn from_double_bits(bits: u64) -> Self {
        F(f64::from_bits(bits) as f32)
    }
    fn plus(self, other: Self) -> Self {
        F(self.0 + other.0)
    }
    fn minus(self, other: Self) -> Self {
        F(self.0 - other.0)
    }
    fn times(self, other: Self) -> Self {
        F(self.0 * other.0)
    }
    fn over(self, other: Self) -> Self {
        F(self.0 / other.0)
    }
    fn negated(self) -> Self {
        F(-self.0)
    }
    fn less(self, other: Self) -> bool {
        self.0 < other.0
    }
    fn same(self, other: Self) -> bool {
        self.0 == other.0
    }
    fn larger(self, other: Self) -> Self {
        F(self.0.max(other.0))
    }
    fn floor_count(self) -> usize {
        self.0 as usize
    }
    fn precedes(self, other: Self) -> bool {
        self.0.total_cmp(&other.0).is_lt()
    }
    fn ratio_spec(num: i32, den: u32) -> Self {
        Self::ratio(num, den)
    }
    fn from_count_spec(n: usize) -> Self {
        Self::from_count(n)
    }
    fn from_bits_spec(bits: u32) -> Self {
        Self::from_bits(bits)
    }
    fn from_half_bits_spec(bits: u16) -> Self {
        Self::from_half_bits(bits)
    }
    fn from_double_bits_spec(bits: u64) -> Self {
        Self::from_double_bits(bits)
    }
    fn plus_spec(self, other: Self) -> Self {
        self.plus(other)
    }
    fn minus_spec(self, other: Self) -> Self {
        self.minus(other)
    }
    fn times_spec(self, other: Self) -> Self {
        self.times(other)
    }
    fn over_spec(self, other: Self) -> Self {
        self.over(other)
    }
    fn negated_spec(self) -> Self {
        self.negated()
    }
    fn less_spec(self, other: Self) -> bool {
        self.less(other)
    }
    fn same_spec(self, other: Self) -> bool {
        self.same(other)
    }
    fn smaller(self, other: Self) -> Self {
        F(self.0.min(other.0))
    }
    fn smaller_spec(self, other: Self) -> Self {
        self.smaller(other)
    }
    fn larger_spec(self, other: Self) -> Self {
        self.larger(other)
    }
    fn floor_count_spec(self) -> usize {
        self.floor_count()
    }
    fn precedes_spec(self, other: Self) -> bool {
        self.precedes(other)
    }
}

fn make_q4_block() -> Vec<u8> {
    let mut blk = vec![0u8; Q4_K_BLOCK_BYTES];
    blk[0..2].copy_from_slice(&f16::from_f32(2.0).to_le_bytes());
    blk[2..4].copy_from_slice(&f16::from_f32(1.0).to_le_bytes());
    blk[4] = 3;
    blk[8] = 5;
    for i in 0..32 {
        blk[16 + i] = (i % 16) as u8;
    }
    blk
}

#[test]
fn q4_k_known_block() {
    let blk = make_q4_block();
    let mut out = vec![F(0.0); QK_K];
    dequantize_q4_k(&blk, 1, &mut out);
    for l in 0..32 {
        let want = 6.0 * (l % 16) as f32 - 5.0;
        assert!((out[l].0 - want).abs() < 1e-6, "q4_k out[{l}] = {} want {want}", out[l].0);
    }
    for l in 32..QK_K {
        assert!(out[l].0.abs() < 1e-6, "q4_k out[{l}] = {} want 0", out[l].0);
    }
}

#[test]
fn q4_k_block_byte_size() {
    assert_eq!(Q4_K_BLOCK_BYTES, 144);
}

#[test]
fn q5_k_block_byte_size() {
    assert_eq!(Q5_K_BLOCK_BYTES, 176);
}

#[test]
fn q6_k_block_byte_size() {
    assert_eq!(Q6_K_BLOCK_BYTES, 210);
}

#[test]
fn q8_k_block_byte_size() {
    assert_eq!(Q8_K_BLOCK_BYTES, 292);
}

#[test]
fn scale_min_k4_direct_path() {
    let mut s = [0u8; K_SCALE_SIZE];
    s[0] = 0b101011;
    s[4] = 0b110001;
    let (d, m) = get_scale_min_k4(0, &s);
    assert_eq!(d, 43);
    assert_eq!(m, 49);
}

#[test]
fn scale_min_k4_packed_path() {
    let mut s = [0u8; K_SCALE_SIZE];
    s[0] = 0b11_000000;
    s[4] = 0b10_000000;
    s[8] = 0b0010_1011;
    let (d, m) = get_scale_min_k4(4, &s);
    assert_eq!(d, 0b111011);
    assert_eq!(m, 0b100010);
}

#[test]
fn q8_k_trivial() {
    let mut blk = vec![0u8; Q8_K_BLOCK_BYTES];
    blk[0..4].copy_from_slice(&0.5f32.to_le_bytes());
    let qs = &mut blk[4..4 + QK_K];
    for j in 0..QK_K {
        qs[j] = j as u8;
    }
    let mut out = vec![F(0.0); QK_K];
    dequantize_q8_k(&blk, 1, &mut out);
    for j in 0..QK_K {
        let want = 0.5 * (j as i8 as f32);
        assert!((out[j].0 - want).abs() < 1e-6, "q8_k out[{j}] = {} want {want}", out[j].0);
    }
}

#[test]
fn q6_k_known_block() {
    let mut blk = vec![0u8; Q6_K_BLOCK_BYTES];
    let d_off = QK_K / 2 + QK_K / 4 + QK_K / 16;
    blk[d_off..d_off + 2].copy_from_slice(&f16::from_f32(1.0).to_le_bytes());
    for i in 0..QK_K / 16 {
        blk[d_off - QK_K / 16 + i] = 2;
    }
    blk[0] = 0x12;
    let qh_off = QK_K / 2;
    blk[qh_off] = 0x10;
    let mut out = vec![F(0.0); QK_K];
    dequantize_q6_k(&blk, 1, &mut out);
    assert!((out[0].0 - (-60.0)).abs() < 1e-6, "q6_k out[0] = {} want -60", out[0].0);
}
