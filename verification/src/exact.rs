//! Where fixed-point arithmetic is exact.

use crate::scalar::{lemma_product_fits, wrap64, Fixed, Scalar};
use vstd::prelude::*;

verus! {

/// Equal up to what 64 bits cannot hold.
#[verifier::opaque]
pub open spec fn cong(a: int, b: int) -> bool {
    (a - b) % 0x1_0000_0000_0000_0000 == 0
}

/// Numbers of 64 bits that agree in all of them are equal.
pub proof fn lemma_cong_equal(a: i64, b: i64)
    requires
        cong(a as int, b as int),
    ensures
        a == b,
{
    reveal(cong);
}

pub proof fn lemma_wrap(n: int)
    requires
        i128::MIN <= n <= i128::MAX,
    ensures
        cong(wrap64(n) as int, n),
        i64::MIN <= n <= i64::MAX ==> wrap64(n) == n,
{
    reveal(cong);
    let m = n as i128;
    assert(((m as i64) as i128 - m) % 0x1_0000_0000_0000_0000 == 0) by (bit_vector);
}

pub proof fn lemma_plus(a: Fixed, b: Fixed)
    ensures
        cong(a.plus_spec(b).0 as int, a.0 + b.0),
        i64::MIN <= a.0 + b.0 <= i64::MAX ==> a.plus_spec(b).0 == a.0 + b.0,
        cong(a.minus_spec(b).0 as int, a.0 - b.0),
        i64::MIN <= a.0 - b.0 <= i64::MAX ==> a.minus_spec(b).0 == a.0 - b.0,
{
    lemma_wrap(a.0 + b.0);
    lemma_wrap(a.0 - b.0);
}

/// Multiplying with a whole number loses nothing.
pub proof fn lemma_times_whole(a: Fixed, b: Fixed, k: int)
    requires
        b.0 == 65536 * k,
    ensures
        cong(a.times_spec(b).0 as int, a.0 * k),
{
    lemma_product_fits(a.0, b.0);
    let n = (a.0 * b.0) as i128;
    assert(a.0 * b.0 == 65536 * (a.0 * k)) by (nonlinear_arith)
        requires
            b.0 == 65536 * k,
    ;
    assert(n >> 16 == n / 65536) by (bit_vector);
    let m = n >> 16;
    assert(m == a.0 * k);
    lemma_wrap(m as int);
}

/// Half of a number, rounded down.
pub proof fn lemma_half(s: Fixed)
    ensures
        Fixed::ratio_spec(1, 2).times_spec(s).0 == s.0 as int / 2,
{
    assert(65536u64 / 2u64 == 32768);
    assert(Fixed::ratio_spec(1, 2).0 == 32768);
    let n = (32768 * s.0) as i128;
    assert(n >> 16 == n / 65536) by (bit_vector);
    let m = n >> 16;
    assert(m == s.0 as int / 2);
    lemma_wrap(m as int);
}

/// Sums and differences of congruent numbers, taken in 64 bits, are congruent.
pub proof fn lemma_cong_plus(a: Fixed, b: Fixed, y: int, z: int)
    requires
        cong(a.0 as int, y),
        cong(b.0 as int, z),
    ensures
        cong(a.plus_spec(b).0 as int, y + z),
        cong(a.minus_spec(b).0 as int, y - z),
{
    reveal(cong);
    lemma_plus(a, b);
    let s = a.plus_spec(b).0 as int;
    let d = a.minus_spec(b).0 as int;
    let (m, n) = (a.0 as int, b.0 as int);
    assert((s - (y + z)) % 0x1_0000_0000_0000_0000 == 0) by {
        assert(s - (y + z) == (s - (m + n)) + (m - y) + (n - z));
    }
    assert((d - (y - z)) % 0x1_0000_0000_0000_0000 == 0) by {
        assert(d - (y - z) == (d - (m - n)) + (m - y) - (n - z));
    }
}

/// A product that a number can hold.
pub proof fn lemma_exact_product(a: Fixed, b: Fixed, r: i64)
    requires
        a.0 * b.0 == 65536 * r,
    ensures
        a.times_spec(b) == Fixed(r),
{
    let n = (a.0 * b.0) as i128;
    assert(n >> 16 == n / 65536) by (bit_vector);
}

/// Multiplying with zero, with one and with minus one.
pub proof fn lemma_times_unit(a: Fixed)
    ensures
        a.times_spec(Fixed(0)) == Fixed(0),
        Fixed(0).times_spec(a) == Fixed(0),
        Fixed(65536).times_spec(a) == a,
        a.times_spec(Fixed(65536)) == a,
        a.0 != i64::MIN ==> a.times_spec(Fixed((-65536) as i64)) == Fixed((-a.0) as i64),
{
    assert(0 * a.0 == 65536 * 0) by (nonlinear_arith);
    lemma_exact_product(a, Fixed(0), 0);
    lemma_exact_product(Fixed(0), a, 0);
    lemma_exact_product(Fixed(65536), a, a.0);
    lemma_exact_product(a, Fixed(65536), a.0);
    if a.0 != i64::MIN {
        let minus_one = Fixed((-65536) as i64);
        assert(a.0 * minus_one.0 == 65536 * (-a.0)) by (nonlinear_arith)
            requires
                minus_one.0 == -65536,
        ;
        lemma_exact_product(a, minus_one, (-a.0) as i64);
    }
}

} // verus!
