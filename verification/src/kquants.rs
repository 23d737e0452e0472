//! Expansion of K-quant blocks (q4_K, q5_K, q6_K, q8_K) to numbers.
//!
//! Every block spans [`QK_K`] elements. The byte layouts are
//!
//! | type | layout                                              | bytes |
//! |------|-----------------------------------------------------|-------|
//! | q4_K | `d: half, dmin: half, scales[12], qs[128]`          | 144   |
//! | q5_K | `d: half, dmin: half, scales[12], qh[32], qs[128]`  | 176   |
//! | q6_K | `ql[128], qh[64], scales[16]: i8, d: half`          | 210   |
//! | q8_K | `d: single, qs[256]: i8, bsums[16]: i16`            | 292   |

use crate::gguf::GgufDType;
use crate::scalar::Scalar;
use vstd::prelude::*;

verus! {

/// Elements per K-quant super-block.
pub const QK_K: usize = 256;

/// Bytes that hold the eight packed (scale, min) pairs of q4_K and q5_K.
pub const K_SCALE_SIZE: usize = 12;

/// Bytes of one q4_K block.
pub const Q4_K_BLOCK_BYTES: usize = 144;

/// Bytes of one q5_K block.
pub const Q5_K_BLOCK_BYTES: usize = 176;

/// Bytes of one q6_K block.
pub const Q6_K_BLOCK_BYTES: usize = 210;

/// Bytes of one q8_K block.
pub const Q8_K_BLOCK_BYTES: usize = 292;

/// The little-endian 16-bit integer at `at`.
pub open spec fn u16_at(bytes: Seq<u8>, at: int) -> u16 {
    (bytes[at] + 0x100 * bytes[at + 1]) as u16
}

fn read_u16(bytes: &[u8], at: usize) -> (r: u16)
    requires
        at + 1 < bytes.len(),
    ensures
        r == u16_at(bytes@, at as int),
{
    bytes[at] as u16 + 0x100 * (bytes[at + 1] as u16)
}

/// The `j`-th six-bit scale packed into `q`: stored directly for the first
/// four; for the others the low four bits and, from four bytes earlier, the
/// high two.
pub open spec fn k4_scale(j: int, q: Seq<u8>) -> u8 {
    if j < 4 {
        q[j] % 64
    } else {
        (q[j + 4] % 16 + 16 * (q[j - 4] / 64)) as u8
    }
}

/// The `j`-th six-bit min packed into `q`.
pub open spec fn k4_min(j: int, q: Seq<u8>) -> u8 {
    if j < 4 {
        q[j + 4] % 64
    } else {
        (q[j + 4] / 16 + 16 * (q[j] / 64)) as u8
    }
}

/// Decodes the `j`-th (scale, min) pair of a q4_K or q5_K scale array.
pub fn get_scale_min_k4(j: usize, q: &[u8]) -> (r: (u8, u8))
    requires
        j < 8,
        q.len() >= 12,
    ensures
        r.0 == k4_scale(j as int, q@),
        r.1 == k4_min(j as int, q@),
{
    if j < 4 {
        (q[j] % 64, q[j + 4] % 64)
    } else {
        (q[j + 4] % 16 + 16 * (q[j - 4] / 64), q[j + 4] / 16 + 16 * (q[j] / 64))
    }
}

/// The byte as a two's-complement integer.
pub open spec fn signed(b: u8) -> i32 {
    (if b < 128 {
        b as int
    } else {
        b - 256
    }) as i32
}

fn signed_byte(b: u8) -> (r: i32)
    ensures
        r == signed(b),
{
    if b < 128 {
        b as i32
    } else {
        b as i32 - 256
    }
}

/// Block number `b` of `blocks`, each `size` bytes long.
pub open spec fn block_of(blocks: Seq<u8>, size: int, b: int) -> Seq<u8> {
    blocks.subrange(b * size, (b + 1) * size)
}

/// Element `i` of a q4_K block: sub-block `i / 32` scales a nibble of `qs`, the
/// low one for even sub-blocks, and takes off its min.
pub open spec fn q4_k_value<T: Scalar>(block: Seq<u8>, i: int) -> T {
    let sub = i / 32;
    let scales = block.subrange(4, 16);
    let byte = block[16 + 32 * (i / 64) + i % 32];
    let q = if sub % 2 == 0 {
        byte % 16
    } else {
        byte / 16
    };
    let d = T::from_half_bits_spec(u16_at(block, 0));
    let dmin = T::from_half_bits_spec(u16_at(block, 2));
    d.times_spec(T::from_count_spec(k4_scale(sub, scales) as usize)).times_spec(
        T::from_count_spec(q as usize),
    ).minus_spec(dmin.times_spec(T::from_count_spec(k4_min(sub, scales) as usize)))
}

/// Element `i` of a q5_K block: as in q4_K, with bit `i / 32` of `qh` worth 16
/// more.
pub open spec fn q5_k_value<T: Scalar>(block: Seq<u8>, i: int) -> T {
    let sub = i / 32;
    let scales = block.subrange(4, 16);
    let byte = block[48 + 32 * (i / 64) + i % 32];
    let low = if sub % 2 == 0 {
        byte % 16
    } else {
        byte / 16
    };
    let high: usize = if (block[16 + i % 32] >> (sub as u8)) % 2 == 1 {
        16
    } else {
        0
    };
    let d = T::from_half_bits_spec(u16_at(block, 0));
    let dmin = T::from_half_bits_spec(u16_at(block, 2));
    d.times_spec(T::from_count_spec(k4_scale(sub, scales) as usize)).times_spec(
        T::from_count_spec(low as usize).plus_spec(T::from_count_spec(high)),
    ).minus_spec(dmin.times_spec(T::from_count_spec(k4_min(sub, scales) as usize)))
}

/// Element `i` of a q6_K block: four low bits from `ql`, two high bits from
/// `qh`, biased by 32, times the scale of its group of sixteen.
pub open spec fn q6_k_value<T: Scalar>(block: Seq<u8>, i: int) -> T {
    let chunk = i / 128;
    let part = (i % 128) / 32;
    let l = i % 32;
    let ql = block[64 * chunk + 32 * (part % 2) + l];
    let low = if part < 2 {
        ql % 16
    } else {
        ql / 16
    };
    let high = (block[128 + 32 * chunk + l] >> ((2 * part) as u8)) % 4;
    let scale = block[192 + 8 * chunk + l / 16 + 2 * part];
    T::from_half_bits_spec(u16_at(block, 208)).times_spec(
        T::ratio_spec(signed(scale), 1),
    ).times_spec(T::ratio_spec((low + 16 * high - 32) as i32, 1))
}

/// The little-endian 32-bit integer at `at`.
pub open spec fn u32_at(bytes: Seq<u8>, at: int) -> u32 {
    (bytes[at] + 0x100 * bytes[at + 1] + 0x1_0000 * bytes[at + 2] + 0x100_0000 * bytes[at
        + 3]) as u32
}

/// Element `i` of a q8_K block: the block's factor times a signed byte.
pub open spec fn q8_k_value<T: Scalar>(block: Seq<u8>, i: int) -> T {
    T::from_bits_spec(u32_at(block, 0)).times_spec(T::ratio_spec(signed(block[4 + i]), 1))
}

/// Expands `n_blocks` consecutive q4_K blocks into `out`.
pub fn dequantize_q4_k<T: Scalar>(blocks: &[u8], n_blocks: usize, out: &mut Vec<T>)
    requires
        n_blocks * Q4_K_BLOCK_BYTES <= blocks.len(),
        n_blocks * QK_K <= old(out).len(),
    ensures
        final(out).len() == old(out).len(),
        forall|i: int|
            0 <= i < n_blocks * QK_K ==> #[trigger] final(out)[i] == q4_k_value::<T>(
                block_of(blocks@, Q4_K_BLOCK_BYTES as int, i / 256),
                i % 256,
            ),
        forall|i: int|
            n_blocks * QK_K <= i < old(out).len() ==> #[trigger] final(out)[i] == old(out)[i],
{
    let mut b: usize = 0;
    while b < n_blocks
        invariant
            b <= n_blocks,
            n_blocks * Q4_K_BLOCK_BYTES <= blocks.len(),
            n_blocks * QK_K <= out.len(),
            out.len() == old(out).len(),
            forall|i: int|
                0 <= i < b * 256 ==> #[trigger] out[i] == q4_k_value::<T>(
                    block_of(blocks@, Q4_K_BLOCK_BYTES as int, i / 256),
                    i % 256,
                ),
            forall|i: int| b * 256 <= i < old(out).len() ==> #[trigger] out[i] == old(out)[i],
        decreases n_blocks - b,
    {
        let base: usize = b * Q4_K_BLOCK_BYTES;
        let ghost block = block_of(blocks@, Q4_K_BLOCK_BYTES as int, b as int);
        let d: T = T::from_half_bits(read_u16(blocks, base));
        let dmin: T = T::from_half_bits(read_u16(blocks, base + 2));
        let scales: &[u8] = &blocks[base + 4..base + 16];
        assert(scales@ =~= block.subrange(4, 16));
        let mut i: usize = 0;
        while i < 256
            invariant
                i <= 256,
                b < n_blocks,
                n_blocks * Q4_K_BLOCK_BYTES <= blocks.len(),
                n_blocks * QK_K <= out.len(),
                out.len() == old(out).len(),
                base == b * Q4_K_BLOCK_BYTES,
                block == block_of(blocks@, Q4_K_BLOCK_BYTES as int, b as int),
                scales@ == block.subrange(4, 16),
                scales.len() == 12,
                d == T::from_half_bits_spec(u16_at(block, 0)),
                dmin == T::from_half_bits_spec(u16_at(block, 2)),
                forall|k: int|
                    0 <= k < b * 256 + i ==> #[trigger] out[k] == q4_k_value::<T>(
                        block_of(blocks@, Q4_K_BLOCK_BYTES as int, k / 256),
                        k % 256,
                    ),
                forall|k: int|
                    b * 256 + i <= k < old(out).len() ==> #[trigger] out[k] == old(out)[k],
            decreases 256 - i,
        {
            let sub: usize = i / 32;
            let pair: (u8, u8) = get_scale_min_k4(sub, scales);
            let byte: u8 = blocks[base + 16 + 32 * (i / 64) + i % 32];
            let q: u8 = if sub % 2 == 0 {
                byte % 16
            } else {
                byte / 16
            };
            let scaled: T = d.times(T::from_count(pair.0 as usize)).times(
                T::from_count(q as usize),
            );
            let value: T = scaled.minus(dmin.times(T::from_count(pair.1 as usize)));
            assert((b * 256 + i) / 256 == b && (b * 256 + i) % 256 == i);
            out[b * 256 + i] = value;
            i = i + 1;
        }
        b = b + 1;
    }
}

/// Expands `n_blocks` consecutive q5_K blocks into `out`.
pub fn dequantize_q5_k<T: Scalar>(blocks: &[u8], n_blocks: usize, out: &mut Vec<T>)
    requires
        n_blocks * Q5_K_BLOCK_BYTES <= blocks.len(),
        n_blocks * QK_K <= old(out).len(),
    ensures
        final(out).len() == old(out).len(),
        forall|i: int|
            0 <= i < n_blocks * QK_K ==> #[trigger] final(out)[i] == q5_k_value::<T>(
                block_of(blocks@, Q5_K_BLOCK_BYTES as int, i / 256),
                i % 256,
            ),
        forall|i: int|
            n_blocks * QK_K <= i < old(out).len() ==> #[trigger] final(out)[i] == old(out)[i],
{
    let mut b: usize = 0;
    while b < n_blocks
        invariant
            b <= n_blocks,
            n_blocks * Q5_K_BLOCK_BYTES <= blocks.len(),
            n_blocks * QK_K <= out.len(),
            out.len() == old(out).len(),
            forall|i: int|
                0 <= i < b * 256 ==> #[trigger] out[i] == q5_k_value::<T>(
                    block_of(blocks@, Q5_K_BLOCK_BYTES as int, i / 256),
                    i % 256,
                ),
            forall|i: int| b * 256 <= i < old(out).len() ==> #[trigger] out[i] == old(out)[i],
        decreases n_blocks - b,
    {
        let base: usize = b * Q5_K_BLOCK_BYTES;
        let ghost block = block_of(blocks@, Q5_K_BLOCK_BYTES as int, b as int);
        let d: T = T::from_half_bits(read_u16(blocks, base));
        let dmin: T = T::from_half_bits(read_u16(blocks, base + 2));
        let scales: &[u8] = &blocks[base + 4..base + 16];
        assert(scales@ =~= block.subrange(4, 16));
        let mut i: usize = 0;
        while i < 256
            invariant
                i <= 256,
                b < n_blocks,
                n_blocks * Q5_K_BLOCK_BYTES <= blocks.len(),
                n_blocks * QK_K <= out.len(),
                out.len() == old(out).len(),
                base == b * Q5_K_BLOCK_BYTES,
                block == block_of(blocks@, Q5_K_BLOCK_BYTES as int, b as int),
                scales@ == block.subrange(4, 16),
                scales.len() == 12,
                d == T::from_half_bits_spec(u16_at(block, 0)),
                dmin == T::from_half_bits_spec(u16_at(block, 2)),
                forall|k: int|
                    0 <= k < b * 256 + i ==> #[trigger] out[k] == q5_k_value::<T>(
                        block_of(blocks@, Q5_K_BLOCK_BYTES as int, k / 256),
                        k % 256,
                    ),
                forall|k: int|
                    b * 256 + i <= k < old(out).len() ==> #[trigger] out[k] == old(out)[k],
            decreases 256 - i,
        {
            let sub: usize = i / 32;
            let pair: (u8, u8) = get_scale_min_k4(sub, scales);
            let byte: u8 = blocks[base + 48 + 32 * (i / 64) + i % 32];
            let low: u8 = if sub % 2 == 0 {
                byte % 16
            } else {
                byte / 16
            };
            let shift: u8 = sub as u8;
            let high: usize = if (blocks[base + 16 + i % 32] >> shift) % 2 == 1 {
                16
            } else {
                0
            };
            let q: T = T::from_count(low as usize).plus(T::from_count(high));
            let scaled: T = d.times(T::from_count(pair.0 as usize)).times(q);
            let value: T = scaled.minus(dmin.times(T::from_count(pair.1 as usize)));
            assert((b * 256 + i) / 256 == b && (b * 256 + i) % 256 == i);
            out[b * 256 + i] = value;
            i = i + 1;
        }
        b = b + 1;
    }
}

/// Expands `n_blocks` consecutive q6_K blocks into `out`.
pub fn dequantize_q6_k<T: Scalar>(blocks: &[u8], n_blocks: usize, out: &mut Vec<T>)
    requires
        n_blocks * Q6_K_BLOCK_BYTES <= blocks.len(),
        n_blocks * QK_K <= old(out).len(),
    ensures
        final(out).len() == old(out).len(),
        forall|i: int|
            0 <= i < n_blocks * QK_K ==> #[trigger] final(out)[i] == q6_k_value::<T>(
                block_of(blocks@, Q6_K_BLOCK_BYTES as int, i / 256),
                i % 256,
            ),
        forall|i: int|
            n_blocks * QK_K <= i < old(out).len() ==> #[trigger] final(out)[i] == old(out)[i],
{
    let mut b: usize = 0;
    while b < n_blocks
        invariant
            b <= n_blocks,
            n_blocks * Q6_K_BLOCK_BYTES <= blocks.len(),
            n_blocks * QK_K <= out.len(),
            out.len() == old(out).len(),
            forall|i: int|
                0 <= i < b * 256 ==> #[trigger] out[i] == q6_k_value::<T>(
                    block_of(blocks@, Q6_K_BLOCK_BYTES as int, i / 256),
                    i % 256,
                ),
            forall|i: int| b * 256 <= i < old(out).len() ==> #[trigger] out[i] == old(out)[i],
        decreases n_blocks - b,
    {
        let base: usize = b * Q6_K_BLOCK_BYTES;
        let ghost block = block_of(blocks@, Q6_K_BLOCK_BYTES as int, b as int);
        let d: T = T::from_half_bits(read_u16(blocks, base + 208));
        let mut i: usize = 0;
        while i < 256
            invariant
                i <= 256,
                b < n_blocks,
                n_blocks * Q6_K_BLOCK_BYTES <= blocks.len(),
                n_blocks * QK_K <= out.len(),
                out.len() == old(out).len(),
                base == b * Q6_K_BLOCK_BYTES,
                block == block_of(blocks@, Q6_K_BLOCK_BYTES as int, b as int),
                d == T::from_half_bits_spec(u16_at(block, 208)),
                forall|k: int|
                    0 <= k < b * 256 + i ==> #[trigger] out[k] == q6_k_value::<T>(
                        block_of(blocks@, Q6_K_BLOCK_BYTES as int, k / 256),
                        k % 256,
                    ),
                forall|k: int|
                    b * 256 + i <= k < old(out).len() ==> #[trigger] out[k] == old(out)[k],
            decreases 256 - i,
        {
            let chunk: usize = i / 128;
            let part: usize = (i % 128) / 32;
            let l: usize = i % 32;
            let ql: u8 = blocks[base + 64 * chunk + 32 * (part % 2) + l];
            let low: u8 = if part < 2 {
                ql % 16
            } else {
                ql / 16
            };
            let shift: u8 = (2 * part) as u8;
            let high: u8 = (blocks[base + 128 + 32 * chunk + l] >> shift) % 4;
            let scale: u8 = blocks[base + 192 + 8 * chunk + l / 16 + 2 * part];
            let q: i32 = low as i32 + 16 * (high as i32) - 32;
            let value: T = d.times(T::ratio(signed_byte(scale), 1)).times(T::ratio(q, 1));
            assert((b * 256 + i) / 256 == b && (b * 256 + i) % 256 == i);
            out[b * 256 + i] = value;
            i = i + 1;
        }
        b = b + 1;
    }
}

/// Expands `n_blocks` consecutive q8_K blocks into `out`.
pub fn dequantize_q8_k<T: Scalar>(blocks: &[u8], n_blocks: usize, out: &mut Vec<T>)
    requires
        n_blocks * Q8_K_BLOCK_BYTES <= blocks.len(),
        n_blocks * QK_K <= old(out).len(),
    ensures
        final(out).len() == old(out).len(),
        forall|i: int|
            0 <= i < n_blocks * QK_K ==> #[trigger] final(out)[i] == q8_k_value::<T>(
                block_of(blocks@, Q8_K_BLOCK_BYTES as int, i / 256),
                i % 256,
            ),
        forall|i: int|
            n_blocks * QK_K <= i < old(out).len() ==> #[trigger] final(out)[i] == old(out)[i],
{
    let mut b: usize = 0;
    while b < n_blocks
        invariant
            b <= n_blocks,
            n_blocks * Q8_K_BLOCK_BYTES <= blocks.len(),
            n_blocks * QK_K <= out.len(),
            out.len() == old(out).len(),
            forall|i: int|
                0 <= i < b * 256 ==> #[trigger] out[i] == q8_k_value::<T>(
                    block_of(blocks@, Q8_K_BLOCK_BYTES as int, i / 256),
                    i % 256,
                ),
            forall|i: int| b * 256 <= i < old(out).len() ==> #[trigger] out[i] == old(out)[i],
        decreases n_blocks - b,
    {
        let base: usize = b * Q8_K_BLOCK_BYTES;
        let ghost block = block_of(blocks@, Q8_K_BLOCK_BYTES as int, b as int);
        let bits: u32 = blocks[base] as u32 + 0x100 * (blocks[base + 1] as u32) + 0x1_0000 * (
        blocks[base + 2] as u32) + 0x100_0000 * (blocks[base + 3] as u32);
        let d: T = T::from_bits(bits);
        let mut i: usize = 0;
        while i < 256
            invariant
                i <= 256,
                b < n_blocks,
                n_blocks * Q8_K_BLOCK_BYTES <= blocks.len(),
                n_blocks * QK_K <= out.len(),
                out.len() == old(out).len(),
                base == b * Q8_K_BLOCK_BYTES,
                block == block_of(blocks@, Q8_K_BLOCK_BYTES as int, b as int),
                d == T::from_bits_spec(u32_at(block, 0)),
                forall|k: int|
                    0 <= k < b * 256 + i ==> #[trigger] out[k] == q8_k_value::<T>(
                        block_of(blocks@, Q8_K_BLOCK_BYTES as int, k / 256),
                        k % 256,
                    ),
                forall|k: int|
                    b * 256 + i <= k < old(out).len() ==> #[trigger] out[k] == old(out)[k],
            decreases 256 - i,
        {
            let value: T = d.times(T::ratio(signed_byte(blocks[base + 4 + i]), 1));
            assert((b * 256 + i) / 256 == b && (b * 256 + i) % 256 == i);
            out[b * 256 + i] = value;
            i = i + 1;
        }
        b = b + 1;
    }
}

/// Byte size of one block of a K-quant type, 0 for the other types.
pub open spec fn block_bytes_of(dtype: GgufDType) -> usize {
    match dtype {
        GgufDType::Q4_K => 144,
        GgufDType::Q5_K => 176,
        GgufDType::Q6_K => 210,
        GgufDType::Q8_K => 292,
        _ => 0,
    }
}

/// Byte size of one block of the given K-quant type.
pub fn block_bytes(dtype: GgufDType) -> (r: usize)
    ensures
        r == block_bytes_of(dtype),
{
    match dtype {
        GgufDType::Q4_K => Q4_K_BLOCK_BYTES,
        GgufDType::Q5_K => Q5_K_BLOCK_BYTES,
        GgufDType::Q6_K => Q6_K_BLOCK_BYTES,
        GgufDType::Q8_K => Q8_K_BLOCK_BYTES,
        _ => 0,
    }
}

/// Scales and mins have six bits.
pub proof fn law_six_bits(j: int, q: Seq<u8>)
    requires
        0 <= j < 8,
        q.len() >= 12,
    ensures
        k4_scale(j, q) < 64,
        k4_min(j, q) < 64,
{
}

} // verus!
