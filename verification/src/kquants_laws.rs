//! How the block formats of [`crate::kquants`] hang together.

use crate::exact::{lemma_plus, lemma_wrap};
use crate::kquants::{
    k4_min, k4_scale, q4_k_value, q5_k_value, q6_k_value, q8_k_value, u16_at,
};
use crate::reals::{faithful, lemma_prod, lemma_prod_plus, prod};
use crate::scalar::{Fixed, Scalar};
use vstd::prelude::*;

verus! {

/// Adding zero keeps every number.
pub open spec fn zero_is_neutral<T: Scalar>() -> bool {
    forall|x: T| #[trigger] x.plus_spec(T::from_count_spec(0)) == x
}

/// Adding zero keeps every fixed-point number.
pub proof fn law_fixed_zero_is_neutral()
    ensures
        zero_is_neutral::<Fixed>(),
{
    assert forall|x: Fixed| #[trigger] x.plus_spec(Fixed::from_count_spec(0)) == x by {
        lemma_wrap(0);
        lemma_plus(x, Fixed(0));
    }
}

/// The q4_K block with the same scales and low bits as a q5_K block.
pub open spec fn without_high_bits(block: Seq<u8>) -> Seq<u8> {
    block.subrange(0, 16) + block.subrange(48, 176)
}

/// A q5_K block whose high bits are all clear holds what the q4_K block without
/// them holds.
pub proof fn law_clear_high_bits<T: Scalar>(block: Seq<u8>, i: int)
    requires
        zero_is_neutral::<T>(),
        block.len() == 176,
        forall|l: int| 16 <= l < 48 ==> #[trigger] block[l] == 0,
        0 <= i < 256,
    ensures
        q5_k_value::<T>(block, i) == q4_k_value::<T>(without_high_bits(block), i),
{
    let other = without_high_bits(block);
    assert(other.subrange(4, 16) =~= block.subrange(4, 16));
    let sub = (i / 32) as u8;
    assert(0u8 >> sub == 0) by (bit_vector);
    assert(block[16 + i % 32] == 0);
    let at = 32 * (i / 64) + i % 32;
    assert(0 <= at < 128);
    assert(other[16 + at] == block[48 + at]);
}

/// Setting the high bit of one element adds sixteen times its scale to that
/// element, where arithmetic is exact, and changes no other.
pub proof fn law_high_bit<T: Scalar>(
    v: spec_fn(T) -> real,
    clear: Seq<u8>,
    set: Seq<u8>,
    sub: int,
    l: int,
    i: int,
)
    requires
        faithful(v),
        clear.len() == 176,
        set.len() == 176,
        0 <= sub < 8,
        0 <= l < 32,
        0 <= i < 256,
        forall|p: int| 0 <= p < 176 && p != 16 + l ==> #[trigger] set[p] == clear[p],
        forall|b: u8| b < 8 && b != sub ==> (#[trigger] (set[16 + l] >> b)) % 2 == (clear[16 + l]
            >> b) % 2,
        (set[16 + l] >> (sub as u8)) % 2 == 1,
        (clear[16 + l] >> (sub as u8)) % 2 == 0,
    ensures
        i != 32 * sub + l ==> q5_k_value::<T>(set, i) == q5_k_value::<T>(clear, i),
        i == 32 * sub + l ==> v(q5_k_value::<T>(set, i)) == v(q5_k_value::<T>(clear, i)) + prod(
            prod(
                v(T::from_half_bits_spec(u16_at(clear, 0))),
                k4_scale(sub, clear.subrange(4, 16)) as int as real,
            ),
            16 as real,
        ),
{
    assert(set.subrange(4, 16) =~= clear.subrange(4, 16));
    let at = 32 * (i / 64) + i % 32;
    assert(0 <= at < 128);
    assert(set[48 + at] == clear[48 + at]);
    let s = i / 32;
    if i % 32 == l {
        if s != sub {
            assert((set[16 + l] >> (s as u8)) % 2 == (clear[16 + l] >> (s as u8)) % 2);
        } else {
            let byte = clear[48 + at];
            let low = if s % 2 == 0 {
                byte % 16
            } else {
                byte / 16
            };
            let d = v(T::from_half_bits_spec(u16_at(clear, 0)));
            let sc = k4_scale(s, clear.subrange(4, 16)) as usize;
            let x = low as int as real;
            lemma_prod_plus(prod(d, sc as int as real), x, 16 as real);
            lemma_prod_plus(prod(d, sc as int as real), x, 0 as real);
            lemma_prod(prod(d, sc as int as real), 0 as real);
        }
    } else {
        assert(set[16 + i % 32] == clear[16 + i % 32]);
    }
}

/// The codes that a block of 256 numbers is made of: eight scales and eight mins of six
/// bits, and a code for each number.
pub struct Codes {
    pub scale: spec_fn(int) -> int,
    pub min: spec_fn(int) -> int,
    pub code: spec_fn(int) -> int,
}

/// Twelve bytes hold eight six-bit scales and mins. The first four of each stand in the
/// low bits of a byte of their own; of the last four the low halves share a byte and the
/// high bits stand above the first four.
pub open spec fn holds_scales(q: Seq<u8>, c: Codes) -> bool {
    &&& q.len() == 12
    &&& forall|j: int| 0 <= j < 8 ==> 0 <= #[trigger] (c.scale)(j) < 64
    &&& forall|j: int| 0 <= j < 8 ==> 0 <= #[trigger] (c.min)(j) < 64
    &&& q[0] == (c.scale)(0) + 64 * ((c.scale)(4) / 16)
    &&& q[1] == (c.scale)(1) + 64 * ((c.scale)(5) / 16)
    &&& q[2] == (c.scale)(2) + 64 * ((c.scale)(6) / 16)
    &&& q[3] == (c.scale)(3) + 64 * ((c.scale)(7) / 16)
    &&& q[4] == (c.min)(0) + 64 * ((c.min)(4) / 16)
    &&& q[5] == (c.min)(1) + 64 * ((c.min)(5) / 16)
    &&& q[6] == (c.min)(2) + 64 * ((c.min)(6) / 16)
    &&& q[7] == (c.min)(3) + 64 * ((c.min)(7) / 16)
    &&& q[8] == (c.scale)(4) % 16 + 16 * ((c.min)(4) % 16)
    &&& q[9] == (c.scale)(5) % 16 + 16 * ((c.min)(5) % 16)
    &&& q[10] == (c.scale)(6) % 16 + 16 * ((c.min)(6) % 16)
    &&& q[11] == (c.scale)(7) % 16 + 16 * ((c.min)(7) % 16)
}

/// A byte with six bits of one number below two of another.
proof fn lemma_above(b: int, low: int, high: int)
    requires
        0 <= low < 64,
        0 <= high < 64,
        b == low + 64 * (high / 16),
    ensures
        b % 64 == low,
        b / 64 == high / 16,
{
}

/// A byte with four bits of one number below four of another.
proof fn lemma_beside(b: int, low: int, high: int)
    requires
        0 <= low < 64,
        0 <= high < 64,
        b == low % 16 + 16 * (high % 16),
    ensures
        b % 16 == low % 16,
        b / 16 == high % 16,
{
}

/// Scales and mins are read back from their bytes.
pub proof fn law_scales_read_back(q: Seq<u8>, c: Codes, j: int)
    requires
        holds_scales(q, c),
        0 <= j < 8,
    ensures
        k4_scale(j, q) == (c.scale)(j),
        k4_min(j, q) == (c.min)(j),
{
    let k = if j < 4 {
        j
    } else {
        j - 4
    };
    assert(k == 0 || k == 1 || k == 2 || k == 3);
    let (s, t) = ((c.scale)(k), (c.scale)(k + 4));
    let (m, n) = ((c.min)(k), (c.min)(k + 4));
    assert(q[k] == s + 64 * (t / 16) && q[k + 4] == m + 64 * (n / 16) && q[k + 8] == t % 16 + 16 * (
    n % 16));
    lemma_above(q[k] as int, s, t);
    lemma_above(q[k + 4] as int, m, n);
    lemma_beside(q[k + 8] as int, t, n);
}

/// Bytes from `at` on hold the low four bits of the codes of 256 numbers, 32 bytes for
/// each 64: the first 32 numbers in the low halves, the next 32 in the high halves.
pub open spec fn holds_halves(block: Seq<u8>, at: int, c: Codes) -> bool {
    forall|g: int, l: int|
        0 <= g < 4 && 0 <= l < 32 ==> #[trigger] block[at + 32 * g + l] == (c.code)(64 * g + l)
            % 16 + 16 * ((c.code)(64 * g + 32 + l) % 16)
}

/// What number `i` stands for: its code times the scale of its 32 numbers, less their min.
pub open spec fn coded<T: Scalar>(block: Seq<u8>, c: Codes, i: int) -> T {
    T::from_half_bits_spec(u16_at(block, 0)).times_spec(
        T::from_count_spec((c.scale)(i / 32) as usize),
    ).times_spec(T::from_count_spec((c.code)(i) as usize)).minus_spec(
        T::from_half_bits_spec(u16_at(block, 2)).times_spec(
            T::from_count_spec((c.min)(i / 32) as usize),
        ),
    )
}

/// The half of a byte that belongs to a number.
proof fn lemma_half(block: Seq<u8>, at: int, c: Codes, i: int)
    requires
        holds_halves(block, at, c),
        0 <= i < 256,
    ensures
        (i / 32) % 2 == 0 ==> block[at + 32 * (i / 64) + i % 32] % 16 == (c.code)(i) % 16,
        (i / 32) % 2 == 1 ==> block[at + 32 * (i / 64) + i % 32] / 16 == (c.code)(i) % 16,
{
    let (g, l) = (i / 64, i % 32);
    assert(0 <= g < 4 && 0 <= l < 32);
    let b = block[at + 32 * g + l];
    let (low, high) = ((c.code)(64 * g + l) % 16, (c.code)(64 * g + 32 + l) % 16);
    assert(b == low + 16 * high);
    lemma_nibbles(b as int, low, high);
    if (i / 32) % 2 == 0 {
        assert(i == 64 * g + l);
    } else {
        assert(i == 64 * g + 32 + l);
    }
}

/// A byte with four bits below four others.
proof fn lemma_nibbles(b: int, low: int, high: int)
    requires
        0 <= low < 16,
        0 <= high < 16,
        b == low + 16 * high,
    ensures
        b % 16 == low,
        b / 16 == high,
{
}

/// A q4_K block gives back what was packed into it.
pub proof fn law_q4_k_reads_back<T: Scalar>(block: Seq<u8>, c: Codes, i: int)
    requires
        block.len() == 144,
        holds_scales(block.subrange(4, 16), c),
        holds_halves(block, 16, c),
        0 <= i < 256,
        0 <= (c.code)(i) < 16,
    ensures
        q4_k_value::<T>(block, i) == coded::<T>(block, c, i),
{
    law_scales_read_back(block.subrange(4, 16), c, i / 32);
    lemma_half(block, 16, c, i);
}

/// Eight bits make up a byte.
proof fn lemma_bits(b: u8, a0: u8, a1: u8, a2: u8, a3: u8, a4: u8, a5: u8, a6: u8, a7: u8)
    requires
        a0 <= 1 && a1 <= 1 && a2 <= 1 && a3 <= 1 && a4 <= 1 && a5 <= 1 && a6 <= 1 && a7 <= 1,
        b == a0 + 2 * a1 + 4 * a2 + 8 * a3 + 16 * a4 + 32 * a5 + 64 * a6 + 128 * a7,
    ensures
        (b >> 0u8) % 2 == a0 && (b >> 1u8) % 2 == a1 && (b >> 2u8) % 2 == a2 && (b >> 3u8) % 2
            == a3 && (b >> 4u8) % 2 == a4 && (b >> 5u8) % 2 == a5 && (b >> 6u8) % 2 == a6 && (b
            >> 7u8) % 2 == a7,
{
    assert((b >> 0u8) % 2 == a0 && (b >> 1u8) % 2 == a1 && (b >> 2u8) % 2 == a2 && (b >> 3u8) % 2
        == a3 && (b >> 4u8) % 2 == a4 && (b >> 5u8) % 2 == a5 && (b >> 6u8) % 2 == a6 && (b >> 7u8)
        % 2 == a7) by (bit_vector)
        requires
            a0 <= 1 && a1 <= 1 && a2 <= 1 && a3 <= 1 && a4 <= 1 && a5 <= 1 && a6 <= 1 && a7 <= 1,
            b == a0 + 2 * a1 + 4 * a2 + 8 * a3 + 16 * a4 + 32 * a5 + 64 * a6 + 128 * a7,
    ;
}

/// Bytes from `at` on hold the fifth bits of the codes of 256 numbers: byte `l` those of
/// every 32nd number from `l` on, the first one lowest.
pub open spec fn holds_fifth_bits(block: Seq<u8>, at: int, c: Codes) -> bool {
    forall|l: int|
        0 <= l < 32 ==> #[trigger] block[at + l] == (c.code)(l) / 16 + 2 * ((c.code)(32 + l) / 16)
            + 4 * ((c.code)(64 + l) / 16) + 8 * ((c.code)(96 + l) / 16) + 16 * ((c.code)(128 + l)
            / 16) + 32 * ((c.code)(160 + l) / 16) + 64 * ((c.code)(192 + l) / 16) + 128 * ((c.code)(
            224 + l,
        ) / 16)
}

/// A q5_K block gives back what was packed into it, where arithmetic is exact.
pub proof fn law_q5_k_reads_back<T: Scalar>(
    v: spec_fn(T) -> real,
    block: Seq<u8>,
    c: Codes,
    i: int,
)
    requires
        faithful(v),
        block.len() == 176,
        holds_scales(block.subrange(4, 16), c),
        holds_fifth_bits(block, 16, c),
        holds_halves(block, 48, c),
        0 <= i < 256,
        forall|k: int| 0 <= k < 256 ==> 0 <= #[trigger] (c.code)(k) < 32,
    ensures
        v(q5_k_value::<T>(block, i)) == v(coded::<T>(block, c, i)),
{
    law_scales_read_back(block.subrange(4, 16), c, i / 32);
    lemma_half(block, 48, c, i);
    let l = i % 32;
    let sub = i / 32;
    let b = block[16 + l];
    assert(0 <= (c.code)(l) < 32 && 0 <= (c.code)(32 + l) < 32 && 0 <= (c.code)(64 + l) < 32 && 0
        <= (c.code)(96 + l) < 32);
    assert(0 <= (c.code)(128 + l) < 32 && 0 <= (c.code)(160 + l) < 32 && 0 <= (c.code)(192 + l)
        < 32 && 0 <= (c.code)(224 + l) < 32);
    lemma_bits(
        b,
        ((c.code)(l) / 16) as u8,
        ((c.code)(32 + l) / 16) as u8,
        ((c.code)(64 + l) / 16) as u8,
        ((c.code)(96 + l) / 16) as u8,
        ((c.code)(128 + l) / 16) as u8,
        ((c.code)(160 + l) / 16) as u8,
        ((c.code)(192 + l) / 16) as u8,
        ((c.code)(224 + l) / 16) as u8,
    );
    assert(i == 32 * sub + l);
    assert(0 <= (c.code)(i) < 32);
    assert((b >> (sub as u8)) % 2 == (c.code)(i) / 16) by {
        assert(sub == 0 || sub == 1 || sub == 2 || sub == 3 || sub == 4 || sub == 5 || sub == 6
            || sub == 7);
    }
    let low = (c.code)(i) % 16;
    let high: int = if (c.code)(i) / 16 == 1 {
        16
    } else {
        0
    };
    assert(low + high == (c.code)(i));
    let x = T::from_count_spec(low as usize).plus_spec(T::from_count_spec(high as usize));
    assert(v(x) == v(T::from_count_spec((c.code)(i) as usize)));
}

/// Four pairs of bits make up a byte.
proof fn lemma_pairs(b: u8, a0: u8, a1: u8, a2: u8, a3: u8)
    requires
        a0 <= 3 && a1 <= 3 && a2 <= 3 && a3 <= 3,
        b == a0 + 4 * a1 + 16 * a2 + 64 * a3,
    ensures
        (b >> 0u8) % 4 == a0 && (b >> 2u8) % 4 == a1 && (b >> 4u8) % 4 == a2 && (b >> 6u8) % 4
            == a3,
{
    assert((b >> 0u8) % 4 == a0 && (b >> 2u8) % 4 == a1 && (b >> 4u8) % 4 == a2 && (b >> 6u8) % 4
        == a3) by (bit_vector)
        requires
            a0 <= 3 && a1 <= 3 && a2 <= 3 && a3 <= 3,
            b == a0 + 4 * a1 + 16 * a2 + 64 * a3,
    ;
}

/// A q6_K block holds 256 codes of six bits and sixteen signed scales. Of each 128 codes,
/// 64 bytes hold the low halves, the first 64 low and the last 64 high, and 32 bytes hold
/// the upper pairs of bits, those of every 32nd code together.
pub open spec fn holds_six_bits(block: Seq<u8>, code: spec_fn(int) -> int) -> bool {
    &&& block.len() == 210
    &&& forall|k: int| 0 <= k < 256 ==> 0 <= #[trigger] code(k) < 64
    &&& forall|h: int, l: int|
        0 <= h < 2 && 0 <= l < 64 ==> #[trigger] block[64 * h + l] == code(128 * h + l) % 16 + 16
            * (code(128 * h + 64 + l) % 16)
    &&& forall|h: int, l: int|
        0 <= h < 2 && 0 <= l < 32 ==> #[trigger] block[128 + 32 * h + l] == code(128 * h + l) / 16
            + 4 * (code(128 * h + 32 + l) / 16) + 16 * (code(128 * h + 64 + l) / 16) + 64 * (code(
            128 * h + 96 + l,
        ) / 16)
}

/// A q6_K block gives back what was packed into it: each number is the block's factor
/// times the scale of its sixteen numbers times its code less 32.
pub proof fn law_q6_k_reads_back<T: Scalar>(block: Seq<u8>, code: spec_fn(int) -> int, i: int)
    requires
        holds_six_bits(block, code),
        0 <= i < 256,
    ensures
        q6_k_value::<T>(block, i) == T::from_half_bits_spec(u16_at(block, 208)).times_spec(
            T::ratio_spec(
                (if block[192 + i / 16] < 128 {
                    block[192 + i / 16] as int
                } else {
                    block[192 + i / 16] - 256
                }) as i32,
                1,
            ),
        ).times_spec(T::ratio_spec((code(i) - 32) as i32, 1)),
{
    let h = i / 128;
    let part = (i % 128) / 32;
    let l = i % 32;
    assert(i == 128 * h + 32 * part + l);
    assert(0 <= code(i) < 64);
    let k = 32 * (part % 2) + l;
    assert(block[64 * h + k] == code(128 * h + k) % 16 + 16 * (code(128 * h + 64 + k) % 16));
    lemma_nibbles(
        block[64 * h + k] as int,
        code(128 * h + k) % 16,
        code(128 * h + 64 + k) % 16,
    );
    let b = block[128 + 32 * h + l];
    assert(0 <= code(128 * h + l) < 64 && 0 <= code(128 * h + 32 + l) < 64 && 0 <= code(
        128 * h + 64 + l,
    ) < 64 && 0 <= code(128 * h + 96 + l) < 64);
    assert(b == code(128 * h + l) / 16 + 4 * (code(128 * h + 32 + l) / 16) + 16 * (code(
        128 * h + 64 + l,
    ) / 16) + 64 * (code(128 * h + 96 + l) / 16));
    lemma_pairs(
        b,
        (code(128 * h + l) / 16) as u8,
        (code(128 * h + 32 + l) / 16) as u8,
        (code(128 * h + 64 + l) / 16) as u8,
        (code(128 * h + 96 + l) / 16) as u8,
    );
    assert(part == 0 || part == 1 || part == 2 || part == 3);
    assert(192 + 8 * h + l / 16 + 2 * part == 192 + i / 16);
    if part < 2 {
        assert(i == 128 * h + k);
    } else {
        assert(i == 128 * h + 64 + k);
    }
}

/// A q8_K block gives back what was packed into it: the block's factor times a signed
/// byte for each number.
pub proof fn law_q8_k_reads_back<T: Scalar>(block: Seq<u8>, bits: u32, code: spec_fn(int) -> int, i: int)
    requires
        block.len() == 292,
        block[0] == bits % 256,
        block[1] == bits / 256 % 256,
        block[2] == bits / 65536 % 256,
        block[3] == bits / 16777216,
        0 <= i < 256,
        -128 <= code(i) < 128,
        block[4 + i] == (if code(i) < 0 {
            code(i) + 256
        } else {
            code(i)
        }),
    ensures
        q8_k_value::<T>(block, i) == T::from_bits_spec(bits).times_spec(
            T::ratio_spec(code(i) as i32, 1),
        ),
{
}

} // verus!
