//! The number type the kernels compute with.
//!
//! [`Scalar`] and [`Analytic`] name the operations; each method is tied to a
//! spec function of the same name, so a kernel's contract can say exactly which
//! expression it evaluates, in which order. [`Fixed`] implements both in
//! two's-complement fixed point with sixteen fractional bits.

use vstd::prelude::*;

verus! {

/// Field-like arithmetic with an order and conversions from integers.
pub trait Scalar: Copy + Sized {
    spec fn ratio_spec(num: i32, den: u32) -> Self;

    spec fn from_count_spec(n: usize) -> Self;

    spec fn from_bits_spec(bits: u32) -> Self;

    spec fn from_half_bits_spec(bits: u16) -> Self;

    spec fn from_double_bits_spec(bits: u64) -> Self;

    spec fn plus_spec(self, other: Self) -> Self;

    spec fn minus_spec(self, other: Self) -> Self;

    spec fn times_spec(self, other: Self) -> Self;

    spec fn over_spec(self, other: Self) -> Self;

    spec fn negated_spec(self) -> Self;

    spec fn less_spec(self, other: Self) -> bool;

    spec fn same_spec(self, other: Self) -> bool;

    spec fn larger_spec(self, other: Self) -> Self;

    spec fn smaller_spec(self, other: Self) -> Self;

    spec fn floor_count_spec(self) -> usize;

    spec fn precedes_spec(self, other: Self) -> bool;

    /// The number `num / den`.
    fn ratio(num: i32, den: u32) -> (r: Self)
        requires
            den > 0,
        ensures
            r == Self::ratio_spec(num, den),
    ;

    /// The number `n`.
    fn from_count(n: usize) -> (r: Self)
        ensures
            r == Self::from_count_spec(n),
    ;

    /// The number that an IEEE 754 single-precision bit pattern stands for.
    fn from_bits(bits: u32) -> (r: Self)
        ensures
            r == Self::from_bits_spec(bits),
    ;

    /// The number that an IEEE 754 half-precision bit pattern stands for.
    fn from_half_bits(bits: u16) -> (r: Self)
        ensures
            r == Self::from_half_bits_spec(bits),
    ;

    /// The number that an IEEE 754 double-precision bit pattern stands for,
    /// rounded to what `Self` can hold.
    fn from_double_bits(bits: u64) -> (r: Self)
        ensures
            r == Self::from_double_bits_spec(bits),
    ;

    fn plus(self, other: Self) -> (r: Self)
        ensures
            r == self.plus_spec(other),
    ;

    fn minus(self, other: Self) -> (r: Self)
        ensures
            r == self.minus_spec(other),
    ;

    fn times(self, other: Self) -> (r: Self)
        ensures
            r == self.times_spec(other),
    ;

    fn over(self, other: Self) -> (r: Self)
        ensures
            r == self.over_spec(other),
    ;

    fn negated(self) -> (r: Self)
        ensures
            r == self.negated_spec(),
    ;

    /// Whether `self` is strictly below `other`.
    fn less(self, other: Self) -> (r: bool)
        ensures
            r == self.less_spec(other),
    ;

    /// Whether the two numbers are equal.
    fn same(self, other: Self) -> (r: bool)
        ensures
            r == self.same_spec(other),
    ;

    /// The larger of the two numbers.
    fn larger(self, other: Self) -> (r: Self)
        ensures
            r == self.larger_spec(other),
    ;

    /// The smaller of the two numbers.
    fn smaller(self, other: Self) -> (r: Self)
        ensures
            r == self.smaller_spec(other),
    ;

    /// The number rounded down to an integer, clamped to what a `usize` holds.
    fn floor_count(self) -> (r: usize)
        ensures
            r == self.floor_count_spec(),
    ;

    /// Whether `self` comes before `other` in a fixed order of all numbers.
    fn precedes(self, other: Self) -> (r: bool)
        ensures
            r == self.precedes_spec(other),
    ;
}

/// The operations that normalisation, softmax and activations add.
pub trait Analytic: Scalar {
    spec fn lowest_spec() -> Self;

    spec fn greatest_spec() -> Self;

    spec fn root_spec(self) -> Self;

    spec fn exponential_spec(self) -> Self;

    spec fn magnitude_spec(self) -> Self;

    spec fn signed_like_spec(self, other: Self) -> Self;

    spec fn rounded_down_spec(self) -> Self;

    spec fn rounded_up_spec(self) -> Self;

    spec fn rounded_spec(self) -> Self;

    spec fn nearest_spec(self) -> Self;

    /// A number below every other, the identity of [`Scalar::larger`].
    fn lowest() -> (r: Self)
        ensures
            r == Self::lowest_spec(),
    ;

    /// A number that no other is above.
    fn greatest() -> (r: Self)
        ensures
            r == Self::greatest_spec(),
    ;

    /// The square root.
    fn root(self) -> (r: Self)
        ensures
            r == self.root_spec(),
    ;

    /// The exponential function.
    fn exponential(self) -> (r: Self)
        ensures
            r == self.exponential_spec(),
    ;

    /// The absolute value.
    fn magnitude(self) -> (r: Self)
        ensures
            r == self.magnitude_spec(),
    ;

    /// The absolute value of `self` with the sign of `other`.
    fn signed_like(self, other: Self) -> (r: Self)
        ensures
            r == self.signed_like_spec(other),
    ;

    /// The largest whole number that is not above `self`.
    fn rounded_down(self) -> (r: Self)
        ensures
            r == self.rounded_down_spec(),
    ;

    /// The smallest whole number that is not below `self`.
    fn rounded_up(self) -> (r: Self)
        ensures
            r == self.rounded_up_spec(),
    ;

    /// The nearest whole number, the one farther from zero of two.
    fn rounded(self) -> (r: Self)
        ensures
            r == self.rounded_spec(),
    ;

    /// The nearest whole number, the even one of two.
    fn nearest(self) -> (r: Self)
        ensures
            r == self.nearest_spec(),
    ;
}

/// The error function.
pub trait Gaussian: Analytic {
    spec fn error_function_spec(self) -> Self;

    /// The error function.
    fn error_function(self) -> (r: Self)
        ensures
            r == self.error_function_spec(),
    ;
}

/// The operations that rotations and cameras add; angles are in radians.
pub trait Circular: Analytic {
    spec fn sine_spec(self) -> Self;

    spec fn cosine_spec(self) -> Self;

    spec fn tangent_spec(self) -> Self;

    spec fn arc_cosine_spec(self) -> Self;

    spec fn arc_tangent_spec(self, x: Self) -> Self;

    fn sine(self) -> (r: Self)
        ensures
            r == self.sine_spec(),
    ;

    fn cosine(self) -> (r: Self)
        ensures
            r == self.cosine_spec(),
    ;

    fn tangent(self) -> (r: Self)
        ensures
            r == self.tangent_spec(),
    ;

    /// The angle from 0 to pi whose cosine is `self`.
    fn arc_cosine(self) -> (r: Self)
        ensures
            r == self.arc_cosine_spec(),
    ;

    /// The angle of the point `(x, self)`.
    fn arc_tangent(self, x: Self) -> (r: Self)
        ensures
            r == self.arc_tangent_spec(x),
    ;
}

/// A number type that `S` is computed in for more precision.
pub trait Widens<S: Scalar>: Scalar {
    spec fn widened_spec(narrow: S) -> Self;

    spec fn narrowed_spec(self) -> S;

    /// The same number with the precision of `Self`.
    fn widened(narrow: S) -> (r: Self)
        ensures
            r == Self::widened_spec(narrow),
    ;

    /// The number rounded to what `S` can hold.
    fn narrowed(self) -> (r: S)
        ensures
            r == self.narrowed_spec(),
    ;
}

/// How a number is written as text.
#[derive(Clone, Copy, Debug, PartialEq, Eq, Structural)]
pub enum Style {
    /// The shortest text that reads back as the same number.
    Shortest,
    /// Plainly, the shortest digits without a fraction where there is none.
    Plain,
    /// One digit, a fraction of seventeen digits and an exponent.
    Scientific,
    /// Eight digits behind the point.
    EightPlaces,
}

/// Text as contracts speak of it.
pub type Text = Seq<char>;

/// A number type that can be written to a file.
pub trait Stored: Scalar {
    spec fn bits_spec(self) -> u32;

    spec fn double_bits_spec(self) -> u64;

    spec fn shown_spec(self, style: Style) -> Text;

    /// The IEEE 754 single-precision bit pattern.
    fn bits(self) -> (r: u32)
        ensures
            r == self.bits_spec(),
    ;

    /// The IEEE 754 double-precision bit pattern.
    fn double_bits(self) -> (r: u64)
        ensures
            r == self.double_bits_spec(),
    ;

    /// The number as text.
    fn shown(self, style: Style) -> (r: String)
        ensures
            r@ == self.shown_spec(style),
    ;
}

/// The order of `T` is a strict order in which equivalence is transitive.
pub open spec fn less_ordered<T: Scalar>() -> bool {
    &&& forall|x: T, y: T| #[trigger] x.less_spec(y) ==> !y.less_spec(x)
    &&& forall|x: T, y: T, z: T|
        #![trigger x.less_spec(y), y.less_spec(z)]
        !x.less_spec(y) && !y.less_spec(z) ==> !x.less_spec(z)
}

/// Fixed-point numbers are ordered.
pub proof fn law_fixed_ordered()
    ensures
        less_ordered::<Fixed>(),
{
}

/// Neither infinite nor undefined: only then is a number less itself a number.
pub open spec fn finite_spec<T: Scalar>(x: T) -> bool {
    x.minus_spec(x).same_spec(x.minus_spec(x))
}

/// Whether a number is neither infinite nor undefined.
pub fn finite<T: Scalar>(x: T) -> (r: bool)
    ensures
        r == finite_spec(x),
{
    let d: T = x.minus(x);
    d.same(d)
}

/// The whole part of a number, towards zero, at most `limit` from zero.
pub open spec fn whole_part<T: Scalar>(x: T, limit: int) -> int {
    if x.less_spec(zero()) {
        let m = x.negated_spec().floor_count_spec() as int;
        if m < limit {
            -m
        } else {
            -limit
        }
    } else {
        let m = x.floor_count_spec() as int;
        if m < limit {
            m
        } else {
            limit
        }
    }
}

/// The whole part of a number, towards zero, at most `limit` from zero.
pub fn whole_part_of<T: Scalar>(x: T, limit: i64) -> (r: i64)
    requires
        0 <= limit,
    ensures
        r == whole_part(x, limit as int),
        -limit <= r <= limit,
        -usize::MAX <= r <= usize::MAX,
{
    if x.less(T::ratio(0, 1)) {
        let m: usize = x.negated().floor_count();
        if (m as u64) < limit as u64 {
            -(m as i64)
        } else {
            -limit
        }
    } else {
        let m: usize = x.floor_count();
        if (m as u64) < limit as u64 {
            m as i64
        } else {
            limit
        }
    }
}

/// The number `n`.
pub open spec fn from_int<T: Scalar>(n: int) -> T {
    if n < 0 {
        T::from_count_spec((-n) as usize).negated_spec()
    } else {
        T::from_count_spec(n as usize)
    }
}

/// The number `n`.
pub fn number<T: Scalar>(n: i64) -> (r: T)
    requires
        -usize::MAX <= n <= usize::MAX,
    ensures
        r == from_int::<T>(n as int),
{
    if n < 0 {
        T::from_count((-(n as i128)) as usize).negated()
    } else {
        T::from_count(n as usize)
    }
}

/// A number as a byte: its whole part, at most 255 and at least zero.
pub open spec fn byte_of<T: Scalar>(x: T) -> u8 {
    let n = x.floor_count_spec();
    if n < 255 {
        n as u8
    } else {
        255
    }
}

/// A number as a byte: its whole part, at most 255 and at least zero.
pub fn to_byte<T: Scalar>(x: T) -> (r: u8)
    ensures
        r == byte_of(x),
{
    let n: usize = x.floor_count();
    if n < 255 {
        n as u8
    } else {
        255
    }
}

/// The integer `n` as a number.
pub open spec fn whole<T: Scalar>(n: int) -> T {
    T::ratio_spec(n as i32, 1)
}

/// The number zero.
pub open spec fn zero<T: Scalar>() -> T {
    T::ratio_spec(0, 1)
}

/// The number one.
pub open spec fn one<T: Scalar>() -> T {
    T::ratio_spec(1, 1)
}

/// `max(0, x)`.
pub open spec fn relu<T: Scalar>(x: T) -> T {
    x.larger_spec(zero())
}

/// A fixed-point number: the integer it holds, over 65536.
#[derive(Clone, Copy, Debug, PartialEq, Eq, Structural)]
pub struct Fixed(pub i64);

/// `n` cut down to the low 64 bits.
pub open spec fn wrap64(n: int) -> i64 {
    (n as i128) as i64
}

/// The integer square root: the largest `r` with `r * r <= n`.
pub open spec fn int_root(n: nat) -> nat {
    choose|r: nat| is_int_root(n, r)
}

pub open spec fn is_int_root(n: nat, r: nat) -> bool {
    r * r <= n && n < (r + 1) * (r + 1)
}

/// `x` squared `k` times over.
pub open spec fn squared_times(x: Fixed, k: nat) -> Fixed
    decreases k,
{
    if k == 0 {
        x
    } else {
        squared_times(x.times_spec(x), (k - 1) as nat)
    }
}

proof fn lemma_int_root_unique(n: nat, r: nat)
    requires
        is_int_root(n, r),
    ensures
        int_root(n) == r,
{
    let s = int_root(n);
    assert(is_int_root(n, s));
    if s < r {
        assert((s + 1) * (s + 1) <= r * r) by (nonlinear_arith)
            requires
                s < r,
        ;
    }
    if r < s {
        assert((r + 1) * (r + 1) <= s * s) by (nonlinear_arith)
            requires
                r < s,
        ;
    }
}

/// The integer square root of `n`.
fn int_root_of(n: u64) -> (r: u64)
    ensures
        is_int_root(n as nat, r as nat),
        r as nat == int_root(n as nat),
{
    let mut lo: u64 = 0;
    let mut hi: u64 = 0x1_0000_0000;
    assert(0x1_0000_0000 * 0x1_0000_0000 > n);
    while lo + 1 < hi
        invariant
            lo < hi <= 0x1_0000_0000,
            lo * lo <= n < hi * hi,
        decreases hi - lo,
    {
        let mid: u64 = lo + (hi - lo) / 2;
        assert(mid * mid <= 0xffff_ffff * 0xffff_ffff) by (nonlinear_arith)
            requires
                mid <= 0xffff_ffff,
        ;
        if mid * mid <= n {
            lo = mid;
        } else {
            hi = mid;
        }
    }
    proof {
        lemma_int_root_unique(n as nat, lo as nat);
    }
    lo
}

/// A magnitude that rounding has not made zero: one step where nothing else is
/// left of a number that is not zero.
pub open spec fn not_lost(magnitude: i64, exact: int) -> i64 {
    if magnitude == 0 && exact != 0 {
        1
    } else {
        magnitude
    }
}

fn keep(magnitude: i64, exact: u64) -> (r: i64)
    ensures
        r == not_lost(magnitude, exact as int),
{
    if magnitude == 0 && exact != 0 {
        1
    } else {
        magnitude
    }
}

/// The integer part of `65536 * v`, where `v` is the number that a
/// single-precision bit pattern stands for, before it is cut to 64 bits. What is
/// not zero does not become zero.
pub open spec fn bits_to_fixed(bits: u32) -> i64 {
    let exponent = ((bits >> 23) & 0xff) as int;
    let fraction = (bits & 0x7f_ffff) as int;
    let significand = if exponent == 0 {
        fraction
    } else {
        fraction + 0x80_0000
    };
    // v == significand * 2^(max(exponent, 1) - 150), so 65536 * v has exponent - 134
    let shift = (if exponent == 0 {
        1
    } else {
        exponent
    }) - 134;
    let rounded = if shift >= 0 {
        if shift < 32 {
            ((significand as u64) << (shift as u64)) as i64
        } else {
            i64::MAX
        }
    } else if shift > -32 {
        ((significand as u64) >> ((-shift) as u64)) as i64
    } else {
        0
    };
    let magnitude = not_lost(rounded, significand);
    if bits >= 0x8000_0000 {
        wrap64(-magnitude)
    } else {
        magnitude
    }
}

/// The integer part of `65536 * v`, where `v` is the number that a
/// half-precision bit pattern stands for; infinities and NaNs read as if they
/// were finite. What is not zero does not become zero.
pub open spec fn half_to_fixed(bits: u16) -> i64 {
    let exponent = (bits / 1024) % 32;
    let fraction = (bits % 1024) as int;
    let significand = if exponent == 0 {
        fraction
    } else {
        fraction + 1024
    };
    // v == significand * 2^(max(exponent, 1) - 25)
    let shift = (if exponent == 0 {
        1
    } else {
        exponent as int
    }) - 9;
    let rounded = if shift >= 0 {
        ((significand as u64) << (shift as u64)) as i64
    } else {
        ((significand as u64) >> ((-shift) as u64)) as i64
    };
    let magnitude = not_lost(rounded, significand);
    if bits >= 0x8000 {
        wrap64(-magnitude)
    } else {
        magnitude
    }
}

/// The integer part of `65536 * v`, where `v` is the number that a
/// double-precision bit pattern stands for, at most `i64::MAX`. What is not zero
/// does not become zero.
pub open spec fn double_to_fixed(bits: u64) -> i64 {
    let exponent = (bits / 0x10_0000_0000_0000) % 2048;
    let fraction = (bits % 0x10_0000_0000_0000) as int;
    let significand = if exponent == 0 {
        fraction
    } else {
        fraction + 0x10_0000_0000_0000
    };
    // v == significand * 2^(max(exponent, 1) - 1075)
    let shift = (if exponent == 0 {
        1
    } else {
        exponent as int
    }) - 1059;
    let rounded = if shift >= 0 {
        if shift < 10 {
            ((significand as u64) << (shift as u64)) as i64
        } else {
            i64::MAX
        }
    } else if shift > -64 {
        ((significand as u64) >> ((-shift) as u64)) as i64
    } else {
        0
    };
    let magnitude = not_lost(rounded, significand);
    if bits >= 0x8000_0000_0000_0000 {
        wrap64(-magnitude)
    } else {
        magnitude
    }
}

impl Scalar for Fixed {
    open spec fn ratio_spec(num: i32, den: u32) -> Self {
        if num >= 0 {
            Fixed(not_lost(((num as u64 * 65536) as u64 / den as u64) as i64, num as int))
        } else {
            Fixed(
                wrap64(
                    -not_lost((((-num) as u64 * 65536) as u64 / den as u64) as i64, num as int),
                ),
            )
        }
    }

    open spec fn from_count_spec(n: usize) -> Self {
        Fixed(wrap64(n as int * 65536))
    }

    open spec fn from_bits_spec(bits: u32) -> Self {
        Fixed(bits_to_fixed(bits))
    }

    open spec fn from_half_bits_spec(bits: u16) -> Self {
        Fixed(half_to_fixed(bits))
    }

    open spec fn from_double_bits_spec(bits: u64) -> Self {
        Fixed(double_to_fixed(bits))
    }

    open spec fn plus_spec(self, other: Self) -> Self {
        Fixed(wrap64(self.0 + other.0))
    }

    open spec fn minus_spec(self, other: Self) -> Self {
        Fixed(wrap64(self.0 - other.0))
    }

    open spec fn times_spec(self, other: Self) -> Self {
        Fixed((((self.0 * other.0) as i128) >> 16) as i64)
    }

    open spec fn over_spec(self, other: Self) -> Self {
        let a = if self.0 < 0 {
            -self.0
        } else {
            self.0 as int
        };
        let b = if other.0 < 0 {
            -other.0
        } else {
            other.0 as int
        };
        if b == 0 {
            Fixed(
                if self.0 < 0 {
                    i64::MIN
                } else {
                    i64::MAX
                },
            )
        } else if (self.0 < 0) == (other.0 < 0) {
            Fixed(wrap64((a * 65536) / b))
        } else {
            Fixed(wrap64(-((a * 65536) / b)))
        }
    }

    open spec fn negated_spec(self) -> Self {
        Fixed(wrap64(-self.0))
    }

    open spec fn less_spec(self, other: Self) -> bool {
        self.0 < other.0
    }

    open spec fn same_spec(self, other: Self) -> bool {
        self.0 == other.0
    }

    open spec fn larger_spec(self, other: Self) -> Self {
        if self.0 < other.0 {
            other
        } else {
            self
        }
    }

    open spec fn smaller_spec(self, other: Self) -> Self {
        if other.0 < self.0 {
            other
        } else {
            self
        }
    }

    open spec fn floor_count_spec(self) -> usize {
        if self.0 < 0 {
            0
        } else if self.0 as u64 / 65536 <= 0xffff_ffff {
            (self.0 as u64 / 65536) as usize
        } else {
            0xffff_ffff
        }
    }

    open spec fn precedes_spec(self, other: Self) -> bool {
        self.0 < other.0
    }

    fn ratio(num: i32, den: u32) -> (r: Self) {
        let m: u64 = if num >= 0 {
            num as u64
        } else {
            (-(num as i64)) as u64
        };
        let q: u64 = m * 65536 / den as u64;
        assert(q <= m * 65536) by (nonlinear_arith)
            requires
                q == (m * 65536) as u64 / den as u64,
                den > 0,
                m <= 0x8000_0000,
        ;
        let magnitude: i64 = keep(q as i64, m);
        if num >= 0 {
            Fixed(magnitude)
        } else {
            Fixed((-(magnitude as i128)) as i64)
        }
    }

    fn from_count(n: usize) -> (r: Self) {
        Fixed((n as i128 * 65536) as i64)
    }

    fn from_bits(bits: u32) -> (r: Self) {
        let exponent: u32 = (bits >> 23) & 0xff;
        let fraction: u32 = bits & 0x7f_ffff;
        assert(exponent <= 255) by (bit_vector)
            requires
                exponent == (bits >> 23) & 0xff,
        ;
        assert(fraction <= 0x7f_ffff) by (bit_vector)
            requires
                fraction == bits & 0x7f_ffff,
        ;
        let significand: u64 = if exponent == 0 {
            fraction as u64
        } else {
            fraction as u64 + 0x80_0000
        };
        let biased: u32 = if exponent == 0 {
            1
        } else {
            exponent
        };
        let rounded: i64 = if biased >= 134 {
            if biased - 134 < 32 {
                (significand << ((biased - 134) as u64)) as i64
            } else {
                i64::MAX
            }
        } else if 134 - biased < 32 {
            (significand >> ((134 - biased) as u64)) as i64
        } else {
            0
        };
        let magnitude: i64 = keep(rounded, significand);
        if bits >= 0x8000_0000 {
            Fixed((-(magnitude as i128)) as i64)
        } else {
            Fixed(magnitude)
        }
    }

    fn from_half_bits(bits: u16) -> (r: Self) {
        let exponent: u16 = (bits / 1024) % 32;
        let fraction: u16 = bits % 1024;
        let significand: u64 = if exponent == 0 {
            fraction as u64
        } else {
            fraction as u64 + 1024
        };
        let biased: u16 = if exponent == 0 {
            1
        } else {
            exponent
        };
        let rounded: i64 = if biased >= 9 {
            (significand << ((biased - 9) as u64)) as i64
        } else {
            (significand >> ((9 - biased) as u64)) as i64
        };
        let magnitude: i64 = keep(rounded, significand);
        if bits >= 0x8000 {
            Fixed((-(magnitude as i128)) as i64)
        } else {
            Fixed(magnitude)
        }
    }

    fn from_double_bits(bits: u64) -> (r: Self) {
        let exponent: u64 = (bits / 0x10_0000_0000_0000) % 2048;
        let fraction: u64 = bits % 0x10_0000_0000_0000;
        let significand: u64 = if exponent == 0 {
            fraction
        } else {
            fraction + 0x10_0000_0000_0000
        };
        let biased: u64 = if exponent == 0 {
            1
        } else {
            exponent
        };
        let rounded: i64 = if biased >= 1059 {
            if biased - 1059 < 10 {
                (significand << (biased - 1059)) as i64
            } else {
                i64::MAX
            }
        } else if 1059 - biased < 64 {
            (significand >> (1059 - biased)) as i64
        } else {
            0
        };
        let magnitude: i64 = keep(rounded, significand);
        if bits >= 0x8000_0000_0000_0000 {
            Fixed((-(magnitude as i128)) as i64)
        } else {
            Fixed(magnitude)
        }
    }

    fn plus(self, other: Self) -> (r: Self) {
        Fixed((self.0 as i128 + other.0 as i128) as i64)
    }

    fn minus(self, other: Self) -> (r: Self) {
        Fixed((self.0 as i128 - other.0 as i128) as i64)
    }

    fn times(self, other: Self) -> (r: Self) {
        proof {
            lemma_product_fits(self.0, other.0);
        }
        Fixed(((self.0 as i128 * other.0 as i128) >> 16) as i64)
    }

    fn over(self, other: Self) -> (r: Self) {
        let a: u128 = if self.0 < 0 {
            (-(self.0 as i128)) as u128
        } else {
            self.0 as u128
        };
        let b: u128 = if other.0 < 0 {
            (-(other.0 as i128)) as u128
        } else {
            other.0 as u128
        };
        if b == 0 {
            return Fixed(
                if self.0 < 0 {
                    i64::MIN
                } else {
                    i64::MAX
                },
            );
        }
        let q: u128 = a * 65536 / b;
        assert(q <= a * 65536) by (nonlinear_arith)
            requires
                q == (a * 65536) as u128 / b,
                b > 0,
                a <= 0x8000_0000_0000_0000,
        ;
        if (self.0 < 0) == (other.0 < 0) {
            Fixed((q as i128) as i64)
        } else {
            Fixed((-(q as i128)) as i64)
        }
    }

    fn negated(self) -> (r: Self) {
        Fixed((-(self.0 as i128)) as i64)
    }

    fn less(self, other: Self) -> (r: bool) {
        self.0 < other.0
    }

    fn same(self, other: Self) -> (r: bool) {
        self.0 == other.0
    }

    fn larger(self, other: Self) -> (r: Self) {
        if self.0 < other.0 {
            other
        } else {
            self
        }
    }

    fn smaller(self, other: Self) -> (r: Self) {
        if other.0 < self.0 {
            other
        } else {
            self
        }
    }

    fn floor_count(self) -> (r: usize) {
        if self.0 < 0 {
            0
        } else if self.0 as u64 / 65536 <= 0xffff_ffff {
            (self.0 as u64 / 65536) as usize
        } else {
            0xffff_ffff
        }
    }

    fn precedes(self, other: Self) -> (r: bool) {
        self.0 < other.0
    }
}

/// Products of 64-bit numbers fit in 128 bits.
pub proof fn lemma_product_fits(a: i64, b: i64)
    ensures
        i128::MIN <= a * b <= i128::MAX,
{
    assert(-0x4000_0000_0000_0000_0000_0000_0000_0000 <= a * b
        <= 0x4000_0000_0000_0000_0000_0000_0000_0000) by (nonlinear_arith)
        requires
            -0x8000_0000_0000_0000 <= a <= 0x7fff_ffff_ffff_ffff,
            -0x8000_0000_0000_0000 <= b <= 0x7fff_ffff_ffff_ffff,
    ;
}

impl Analytic for Fixed {
    open spec fn lowest_spec() -> Self {
        Fixed(i64::MIN)
    }

    open spec fn greatest_spec() -> Self {
        Fixed(i64::MAX)
    }

    open spec fn root_spec(self) -> Self {
        if self.0 <= 0 {
            Fixed(0)
        } else {
            Fixed((int_root(self.0 as nat) * 256) as i64)
        }
    }

    /// `(1 + x / 1024)^1024`; zero below -1024 and the greatest number above 33.
    open spec fn exponential_spec(self) -> Self {
        if self.0 < -0x400_0000 {
            Fixed(0)
        } else if self.0 > 33 * 65536 {
            Fixed(i64::MAX)
        } else {
            squared_times(Fixed(wrap64(65536 + (self.0 >> 10))), 10)
        }
    }

    open spec fn magnitude_spec(self) -> Self {
        if self.0 < 0 {
            Fixed(wrap64(-self.0))
        } else {
            self
        }
    }

    open spec fn signed_like_spec(self, other: Self) -> Self {
        if other.0 < 0 {
            self.magnitude_spec().negated_spec()
        } else {
            self.magnitude_spec()
        }
    }

    open spec fn rounded_down_spec(self) -> Self {
        Fixed((self.0 as int / 65536 * 65536) as i64)
    }

    open spec fn rounded_up_spec(self) -> Self {
        self.negated_spec().rounded_down_spec().negated_spec()
    }

    open spec fn rounded_spec(self) -> Self {
        if self.0 < 0 {
            self.minus_spec(Fixed(32768)).rounded_up_spec()
        } else {
            self.plus_spec(Fixed(32768)).rounded_down_spec()
        }
    }

    open spec fn nearest_spec(self) -> Self {
        let (floor, rest) = (self.0 as int / 65536, self.0 as int % 65536);
        if rest < 32768 || (rest == 32768 && floor % 2 == 0) {
            Fixed(wrap64(floor * 65536))
        } else {
            Fixed(wrap64((floor + 1) * 65536))
        }
    }

    fn lowest() -> (r: Self) {
        Fixed(i64::MIN)
    }

    fn greatest() -> (r: Self) {
        Fixed(i64::MAX)
    }

    fn nearest(self) -> (r: Self) {
        let down: Fixed = self.rounded_down();
        let rest: i128 = self.0 as i128 - down.0 as i128;
        let odd: bool = down.0 as i128 != down.0 as i128 / 131072 * 131072;
        if rest < 32768 || (rest == 32768 && !odd) {
            down
        } else {
            Fixed((down.0 as i128 + 65536) as i64)
        }
    }

    fn rounded_down(self) -> (r: Self) {
        let low: i64 = if self.0 >= 0 {
            self.0 % 65536
        } else {
            (self.0 as i128 + 0x8000_0000_0000_0000i128) as i64 % 65536
        };
        proof {
            let n = self.0 as int;
            if n < 0 {
                assert((n + 0x8000_0000_0000_0000) % 65536 == n % 65536);
            }
        }
        Fixed((self.0 as i128 - low as i128) as i64)
    }

    fn rounded_up(self) -> (r: Self) {
        self.negated().rounded_down().negated()
    }

    fn rounded(self) -> (r: Self) {
        if self.0 < 0 {
            self.minus(Fixed(32768)).rounded_up()
        } else {
            self.plus(Fixed(32768)).rounded_down()
        }
    }

    fn magnitude(self) -> (r: Self) {
        if self.0 < 0 {
            Fixed((-(self.0 as i128)) as i64)
        } else {
            self
        }
    }

    fn signed_like(self, other: Self) -> (r: Self) {
        if other.0 < 0 {
            self.magnitude().negated()
        } else {
            self.magnitude()
        }
    }

    fn root(self) -> (r: Self) {
        if self.0 <= 0 {
            Fixed(0)
        } else {
            let r: u64 = int_root_of(self.0 as u64);
            proof {
                lemma_int_root_small(self.0 as nat, r as nat);
            }
            Fixed((r * 256) as i64)
        }
    }

    fn exponential(self) -> (r: Self) {
        if self.0 < -0x400_0000 {
            return Fixed(0);
        }
        if self.0 > 33 * 65536 {
            return Fixed(i64::MAX);
        }
        let mut y: Fixed = Fixed((65536i128 + (self.0 >> 10) as i128) as i64);
        let mut k: u32 = 10;
        while k > 0
            invariant
                k <= 10,
                squared_times(y, k as nat) == self.exponential_spec(),
            decreases k,
        {
            y = y.times(y);
            k = k - 1;
        }
        y
    }
}

proof fn lemma_int_root_small(n: nat, r: nat)
    requires
        n <= 0x7fff_ffff_ffff_ffff,
        r == int_root(n),
        exists|s: nat| is_int_root(n, s),
    ensures
        r <= 0xffff_ffff,
{
    assert(is_int_root(n, r));
    if r > 0xffff_ffff {
        assert(r * r >= 0x1_0000_0000 * 0x1_0000_0000) by (nonlinear_arith)
            requires
                r >= 0x1_0000_0000,
        ;
    }
}

} // verus!
