//! Winograd tiles and direct sums, where the arithmetic does not round.

use crate::fast_conv::{
    batch_input, conv3x3_at, direct_at, direct_term, filter, finish, patch, patch_entry, wino_at,
    wino_term, wino_tile, ConvOptions, Input,
};
use crate::index::{accumulate, lemma_join, lemma_row_within, lemma_split, lemma_within};
use crate::reals::{
    faithful, lemma_accumulate, lemma_prod, lemma_prod_plus, lemma_prod_regroup, lemma_sum_agree,
    lemma_whole, prod, sum,
};
use crate::scalar::{zero, Scalar};
use crate::winograd::{
    column, columns_done, two_pass_spec, FiltF2, FiltF4, InpF2, InpF4, OutpF2, OutpF4, Transform,
    WinoPolicy, F2, F4,
};
use vstd::prelude::*;

verus! {

// ---- one dimension ------------------------------------------------------------

/// Output `r` of a tile of side `t` from its transformed values.
spec fn gathered(t: nat, r: int, m: spec_fn(int) -> real) -> real {
    if t == 2 {
        if r == 0 {
            m(0) + m(1) + m(2)
        } else {
            m(1) - m(2) - m(3)
        }
    } else {
        if r == 0 {
            m(0) + m(1) + m(2) + m(3) + m(4)
        } else if r == 1 {
            m(1) - m(2) + (2 as real) * m(3) - (2 as real) * m(4)
        } else if r == 2 {
            m(1) + m(2) + (4 as real) * m(3) + (4 as real) * m(4)
        } else {
            m(1) - m(2) + (8 as real) * m(3) - (8 as real) * m(4) + m(5)
        }
    }
}

/// The numbers of a sequence, read as reals.
spec fn read<T>(v: spec_fn(T) -> real, x: Seq<T>) -> spec_fn(int) -> real {
    |i: int| v(x[i])
}

/// Products of the numbers of two sequences.
spec fn products<T>(v: spec_fn(T) -> real, a: Seq<T>, b: Seq<T>) -> spec_fn(int) -> real {
    |i: int| prod(v(a[i]), v(b[i]))
}

/// Three taps of a filter on three numbers.
spec fn three_taps<T>(v: spec_fn(T) -> real, g: Seq<T>, d: Seq<T>, r: int) -> real {
    prod(v(g[0]), v(d[r])) + prod(v(g[1]), v(d[r + 1])) + prod(v(g[2]), v(d[r + 2]))
}

proof fn lemma_scales(x: real)
    ensures
        prod(2 as real, x) == (2 as real) * x,
        prod(4 as real, x) == (4 as real) * x,
        prod(5 as real, x) == (5 as real) * x,
        prod(6 as real, x) == (6 as real) * x,
        prod(8 as real, x) == (8 as real) * x,
        prod(12 as real, x) == (12 as real) * x,
        prod(24 as real, x) == (24 as real) * x,
        prod(-2 as real, x) == -((2 as real) * x),
        prod(-4 as real, x) == -((4 as real) * x),
{
    assert(prod(2 as real, x) == (2 as real) * x && prod(4 as real, x) == (4 as real) * x) by {
        reveal(prod);
    }
    lemma_prod(2 as real, x);
    lemma_prod(4 as real, x);
    assert(-2 as real == -(2 as real));
    assert(-4 as real == -(4 as real));
    reveal(prod);
}

/// A share of `x`, taken as often as it fits.
proof fn lemma_share<T: Scalar>(v: spec_fn(T) -> real, den: u32, x: real)
    requires
        faithful(v),
        den > 0,
    ensures
        prod(den as int as real, prod(v(T::ratio_spec(1, den)), x)) == x,
        prod(den as int as real, prod(x, v(T::ratio_spec(1, den)))) == x,
{
    let s = v(T::ratio_spec(1, den));
    let k = den as int as real;
    assert(prod(s, k) == 1i32 as int as real);
    lemma_prod_regroup(k, s, x);
    lemma_prod(k, s);
    lemma_prod(s, x);
    lemma_prod(x, 1 as real);
    lemma_prod(1 as real, x);
}

/// Multiples of a factor.
proof fn lemma_multiples(w: real, b: real)
    ensures
        prod((2 as real) * w, b) == (2 as real) * prod(w, b),
        prod((4 as real) * w, b) == (4 as real) * prod(w, b),
        prod((5 as real) * w, b) == (5 as real) * prod(w, b),
        prod((6 as real) * w, b) == (6 as real) * prod(w, b),
        prod((24 as real) * w, b) == (24 as real) * prod(w, b),
{
    let w2 = (2 as real) * w;
    let w4 = (4 as real) * w;
    let w6 = (6 as real) * w;
    let w12 = (12 as real) * w;
    lemma_prod_plus(b, w, w);
    assert(w + w == w2);
    lemma_prod_plus(b, w2, w2);
    assert(w2 + w2 == w4);
    lemma_prod_plus(b, w4, w);
    assert(w4 + w == (5 as real) * w);
    lemma_prod_plus(b, w4, w2);
    assert(w4 + w2 == w6);
    lemma_prod_plus(b, w6, w6);
    assert(w6 + w6 == w12);
    lemma_prod_plus(b, w12, w12);
    assert(w12 + w12 == (24 as real) * w);
}

/// Two outputs of four products.
proof fn lemma_two(g0: real, g1: real, g2: real, d0: real, d1: real, d2: real, d3: real)
    ensures
        prod(g0, d0 - d2) + prod((g0 + g1 + g2) / (2 as real), d1 + d2) + prod(
            (g0 - g1 + g2) / (2 as real),
            d2 - d1,
        ) == prod(g0, d0) + prod(g1, d1) + prod(g2, d2),
        prod((g0 + g1 + g2) / (2 as real), d1 + d2) - prod((g0 - g1 + g2) / (2 as real), d2 - d1)
            - prod(g2, d1 - d3) == prod(g0, d1) + prod(g1, d2) + prod(g2, d3),
{
    let (w1, w2) = ((g0 + g1 + g2) / (2 as real), (g0 - g1 + g2) / (2 as real));
    let (z1, z2) = (d1 + d2, d2 - d1);
    lemma_multiples(w1, z1);
    assert((2 as real) * w1 == (g0 + g1) + g2);
    lemma_prod_plus(z1, g0 + g1, g2);
    lemma_prod_plus(z1, g0, g1);
    lemma_multiples(w2, z2);
    assert((2 as real) * w2 == (g0 - g1) + g2);
    lemma_prod_plus(z2, g0 - g1, g2);
    lemma_prod_plus(z2, g0, g1);
    lemma_prod_plus(g0, d0, d2);
    lemma_prod_plus(g2, d1, d3);
    lemma_prod_plus(g0, d1, d2);
    lemma_prod_plus(g1, d1, d2);
    lemma_prod_plus(g2, d1, d2);
    lemma_prod_plus(g0, d2, d1);
    lemma_prod_plus(g1, d2, d1);
    lemma_prod_plus(g2, d2, d1);
}

/// Number `i` of the transformed filter of a tile of side four.
spec fn filter_four(g0: real, g1: real, g2: real, i: int) -> real {
    if i == 0 {
        g0 / (4 as real)
    } else if i == 1 {
        -(g0 + g1 + g2) / (6 as real)
    } else if i == 2 {
        (-g0 + g1 - g2) / (6 as real)
    } else if i == 3 {
        (g0 + (2 as real) * g1 + (4 as real) * g2) / (24 as real)
    } else if i == 4 {
        (g0 - (2 as real) * g1 + (4 as real) * g2) / (24 as real)
    } else {
        g2
    }
}

/// Number `i` of the transformed input of a tile of side four.
spec fn input_four(d0: real, d1: real, d2: real, d3: real, d4: real, d5: real, i: int) -> real {
    if i == 0 {
        (4 as real) * d0 - (5 as real) * d2 + d4
    } else if i == 1 {
        -((4 as real) * d1) - (4 as real) * d2 + d3 + d4
    } else if i == 2 {
        (4 as real) * d1 - (4 as real) * d2 - d3 + d4
    } else if i == 3 {
        -((2 as real) * d1) - d2 + (2 as real) * d3 + d4
    } else if i == 4 {
        (2 as real) * d1 - d2 - (2 as real) * d3 + d4
    } else {
        (4 as real) * d1 - (5 as real) * d3 + d5
    }
}

/// A tap times the transformed inputs of a tile of side four.
proof fn lemma_tap_four(g: real, d0: real, d1: real, d2: real, d3: real, d4: real, d5: real)
    ensures
        prod(g, input_four(d0, d1, d2, d3, d4, d5, 0))
            == (4 as real) * prod(g, d0) - (5 as real) * prod(g, d2) + prod(g, d4),
        prod(g, input_four(d0, d1, d2, d3, d4, d5, 1))
            == -((4 as real) * prod(g, d1)) - (4 as real) * prod(g, d2) + prod(g, d3) + prod(g, d4),
        prod(g, input_four(d0, d1, d2, d3, d4, d5, 2))
            == (4 as real) * prod(g, d1) - (4 as real) * prod(g, d2) - prod(g, d3) + prod(g, d4),
        prod(g, input_four(d0, d1, d2, d3, d4, d5, 3))
            == -((2 as real) * prod(g, d1)) - prod(g, d2) + (2 as real) * prod(g, d3) + prod(g, d4),
        prod(g, input_four(d0, d1, d2, d3, d4, d5, 4))
            == (2 as real) * prod(g, d1) - prod(g, d2) - (2 as real) * prod(g, d3) + prod(g, d4),
        prod(g, input_four(d0, d1, d2, d3, d4, d5, 5))
            == (4 as real) * prod(g, d1) - (5 as real) * prod(g, d3) + prod(g, d5),
{
    lemma_prod(g, d0);
    lemma_prod(g, d1);
    lemma_prod(g, d2);
    lemma_prod(g, d3);
    lemma_prod(g, d4);
    lemma_prod(g, d5);
    lemma_multiples(d0, g);
    lemma_prod(g, (4 as real) * d0);
    lemma_multiples(d1, g);
    lemma_prod(g, (4 as real) * d1);
    lemma_prod(g, (2 as real) * d1);
    lemma_multiples(d2, g);
    lemma_prod(g, (5 as real) * d2);
    lemma_prod(g, (4 as real) * d2);
    lemma_multiples(d3, g);
    lemma_prod(g, (5 as real) * d3);
    lemma_prod(g, (2 as real) * d3);
    lemma_prod_plus(g, (4 as real) * d0, (5 as real) * d2);
    lemma_prod_plus(g, (4 as real) * d0 - (5 as real) * d2, d4);
    lemma_prod(g, (4 as real) * d1);
    lemma_prod_plus(g, -((4 as real) * d1), (4 as real) * d2);
    lemma_prod_plus(g, -((4 as real) * d1) - (4 as real) * d2, d3);
    lemma_prod_plus(g, -((4 as real) * d1) - (4 as real) * d2 + d3, d4);
    lemma_prod_plus(g, (4 as real) * d1, (4 as real) * d2);
    lemma_prod_plus(g, (4 as real) * d1 - (4 as real) * d2, d3);
    lemma_prod_plus(g, (4 as real) * d1 - (4 as real) * d2 - d3, d4);
    lemma_prod(g, (2 as real) * d1);
    lemma_prod_plus(g, -((2 as real) * d1), d2);
    lemma_prod_plus(g, -((2 as real) * d1) - d2, (2 as real) * d3);
    lemma_prod_plus(g, -((2 as real) * d1) - d2 + (2 as real) * d3, d4);
    lemma_prod_plus(g, (2 as real) * d1, d2);
    lemma_prod_plus(g, (2 as real) * d1 - d2, (2 as real) * d3);
    lemma_prod_plus(g, (2 as real) * d1 - d2 - (2 as real) * d3, d4);
    lemma_prod_plus(g, (4 as real) * d1, (5 as real) * d3);
    lemma_prod_plus(g, (4 as real) * d1 - (5 as real) * d3, d5);
}

/// The transformed filter of a tile of side four, times a number.
proof fn lemma_filter_products(g0: real, g1: real, g2: real, z: real)
    ensures
        (4 as real) * prod(filter_four(g0, g1, g2, 0), z) == prod(g0, z),
        (6 as real) * prod(filter_four(g0, g1, g2, 1), z) == -(prod(g0, z) + prod(g1, z) + prod(g2, z)),
        (6 as real) * prod(filter_four(g0, g1, g2, 2), z) == -prod(g0, z) + prod(g1, z) - prod(g2, z),
        (24 as real) * prod(filter_four(g0, g1, g2, 3), z) == prod(g0, z) + (2 as real)
            * prod(g1, z) + (4 as real) * prod(g2, z),
        (24 as real) * prod(filter_four(g0, g1, g2, 4), z) == prod(g0, z) - (2 as real)
            * prod(g1, z) + (4 as real) * prod(g2, z),
{
    let w0 = filter_four(g0, g1, g2, 0);
    let w1 = filter_four(g0, g1, g2, 1);
    let w2 = filter_four(g0, g1, g2, 2);
    let w3 = filter_four(g0, g1, g2, 3);
    let w4 = filter_four(g0, g1, g2, 4);
    lemma_multiples(w0, z);
    assert((4 as real) * w0 == g0);
    lemma_multiples(w1, z);
    assert((6 as real) * w1 == -(g0 + g1 + g2));
    lemma_prod(g0 + g1 + g2, z);
    lemma_prod_plus(z, g0 + g1, g2);
    lemma_prod_plus(z, g0, g1);
    lemma_multiples(w2, z);
    assert((6 as real) * w2 == -g0 + g1 - g2);
    lemma_prod(g0, z);
    lemma_prod_plus(z, -g0, g1);
    lemma_prod_plus(z, -g0 + g1, g2);
    let (h1, h2) = ((2 as real) * g1, (4 as real) * g2);
    lemma_multiples(g1, z);
    lemma_multiples(g2, z);
    lemma_multiples(w3, z);
    assert((24 as real) * w3 == g0 + h1 + h2);
    lemma_prod_plus(z, g0, h1);
    lemma_prod_plus(z, g0 + h1, h2);
    lemma_multiples(w4, z);
    assert((24 as real) * w4 == g0 - h1 + h2);
    lemma_prod_plus(z, g0 - h1, h2);
}

/// The products of filter and input of a tile of side four.
spec fn products_four(
    g0: real,
    g1: real,
    g2: real,
    d0: real,
    d1: real,
    d2: real,
    d3: real,
    d4: real,
    d5: real,
) -> spec_fn(int) -> real {
    |i: int| prod(filter_four(g0, g1, g2, i), input_four(d0, d1, d2, d3, d4, d5, i))
}

/// Four outputs of six products.
proof fn lemma_four(
    g0: real,
    g1: real,
    g2: real,
    d0: real,
    d1: real,
    d2: real,
    d3: real,
    d4: real,
    d5: real,
)
    ensures
        ({
            let m = products_four(g0, g1, g2, d0, d1, d2, d3, d4, d5);
            &&& gathered(4, 0, m) == prod(g0, d0) + prod(g1, d1) + prod(g2, d2)
            &&& gathered(4, 1, m) == prod(g0, d1) + prod(g1, d2) + prod(g2, d3)
            &&& gathered(4, 2, m) == prod(g0, d2) + prod(g1, d3) + prod(g2, d4)
            &&& gathered(4, 3, m) == prod(g0, d3) + prod(g1, d4) + prod(g2, d5)
        }),
{
    lemma_tap_four(g0, d0, d1, d2, d3, d4, d5);
    lemma_tap_four(g1, d0, d1, d2, d3, d4, d5);
    lemma_tap_four(g2, d0, d1, d2, d3, d4, d5);
    lemma_filter_products(g0, g1, g2, input_four(d0, d1, d2, d3, d4, d5, 0));
    lemma_filter_products(g0, g1, g2, input_four(d0, d1, d2, d3, d4, d5, 1));
    lemma_filter_products(g0, g1, g2, input_four(d0, d1, d2, d3, d4, d5, 2));
    lemma_filter_products(g0, g1, g2, input_four(d0, d1, d2, d3, d4, d5, 3));
    lemma_filter_products(g0, g1, g2, input_four(d0, d1, d2, d3, d4, d5, 4));
}

/// Tiles whose transforms convolve, whatever is read as reals.
trait Tiling<T: Scalar>: WinoPolicy<T> {
    proof fn sides()
        ensures
            Self::tile() == 2 || Self::tile() == 4,
            Self::Filt::width_in() == 3,
            Self::Filt::width_out() == Self::tile() + 2,
            Self::Inp::width_in() == Self::tile() + 2,
            Self::Inp::width_out() == Self::tile() + 2,
            Self::Outp::width_in() == Self::tile() + 2,
            Self::Outp::width_out() == Self::tile(),
    ;

    /// What the output transform gives.
    proof fn gathers(v: spec_fn(T) -> real, x: Seq<T>, r: int)
        requires
            faithful(v),
            0 <= r < Self::tile(),
        ensures
            v(Self::Outp::row(x)[r]) == gathered(Self::tile(), r, read(v, x)),
    ;

    /// Filter and input, transformed and multiplied, give three taps.
    proof fn convolves(v: spec_fn(T) -> real, g: Seq<T>, d: Seq<T>, r: int)
        requires
            faithful(v),
            0 <= r < Self::tile(),
        ensures
            gathered(Self::tile(), r, products(v, Self::Filt::row(g), Self::Inp::row(d)))
                == three_taps(v, g, d, r),
    ;
}

impl<T: Scalar> Tiling<T> for F2 {
    proof fn sides() {
        assert(<FiltF2 as Transform<T>>::width_in() == 3);
        assert(<FiltF2 as Transform<T>>::width_out() == 4);
        assert(<InpF2 as Transform<T>>::width_in() == 4);
        assert(<InpF2 as Transform<T>>::width_out() == 4);
        assert(<OutpF2 as Transform<T>>::width_in() == 4);
        assert(<OutpF2 as Transform<T>>::width_out() == 2);
    }

    proof fn gathers(v: spec_fn(T) -> real, x: Seq<T>, r: int) {
        let y = <OutpF2 as Transform<T>>::row(x);
        assert(y[0] == x[0].plus_spec(x[1]).plus_spec(x[2]));
        assert(y[1] == x[1].minus_spec(x[2]).minus_spec(x[3]));
    }

    proof fn convolves(v: spec_fn(T) -> real, g: Seq<T>, d: Seq<T>, r: int) {
        let (f, z) = (<FiltF2 as Transform<T>>::row(g), <InpF2 as Transform<T>>::row(d));
        let (g0, g1, g2) = (v(g[0]), v(g[1]), v(g[2]));
        let (d0, d1, d2, d3) = (v(d[0]), v(d[1]), v(d[2]), v(d[3]));
        let half = T::ratio_spec(1, 2);
        assert(f[0] == g[0] && f[3] == g[2]);
        assert(f[1] == half.times_spec(g[0].plus_spec(g[1]).plus_spec(g[2])));
        assert(f[2] == half.times_spec(g[0].minus_spec(g[1]).plus_spec(g[2])));
        lemma_share(v, 2, g0 + g1 + g2);
        lemma_share(v, 2, g0 - g1 + g2);
        lemma_scales(v(f[1]));
        lemma_scales(v(f[2]));
        assert(v(f[1]) == (g0 + g1 + g2) / (2 as real));
        assert(v(f[2]) == (g0 - g1 + g2) / (2 as real));
        assert(z[0] == d[0].minus_spec(d[2]) && z[1] == d[1].plus_spec(d[2]));
        assert(z[2] == d[2].minus_spec(d[1]) && z[3] == d[1].minus_spec(d[3]));
        lemma_two(g0, g1, g2, d0, d1, d2, d3);
    }
}

impl<T: Scalar> Tiling<T> for F4 {
    proof fn sides() {
        assert(<FiltF4 as Transform<T>>::width_in() == 3);
        assert(<FiltF4 as Transform<T>>::width_out() == 6);
        assert(<InpF4 as Transform<T>>::width_in() == 6);
        assert(<InpF4 as Transform<T>>::width_out() == 6);
        assert(<OutpF4 as Transform<T>>::width_in() == 6);
        assert(<OutpF4 as Transform<T>>::width_out() == 4);
    }

    proof fn gathers(v: spec_fn(T) -> real, x: Seq<T>, r: int) {
        let y = <OutpF4 as Transform<T>>::row(x);
        let (two, four, eight) = (T::ratio_spec(2, 1), T::ratio_spec(4, 1), T::ratio_spec(8, 1));
        lemma_whole(v, 2);
        lemma_whole(v, 4);
        lemma_whole(v, 8);
        lemma_scales(v(x[3]));
        lemma_scales(v(x[4]));
        assert(y[0] == x[0].plus_spec(x[1]).plus_spec(x[2]).plus_spec(x[3]).plus_spec(x[4]));
        assert(y[1] == x[1].minus_spec(x[2]).plus_spec(two.times_spec(x[3])).minus_spec(
            two.times_spec(x[4]),
        ));
        assert(y[2] == x[1].plus_spec(x[2]).plus_spec(four.times_spec(x[3])).plus_spec(
            four.times_spec(x[4]),
        ));
        assert(y[3] == x[1].minus_spec(x[2]).plus_spec(eight.times_spec(x[3])).minus_spec(
            eight.times_spec(x[4]),
        ).plus_spec(x[5]));
    }

    proof fn convolves(v: spec_fn(T) -> real, g: Seq<T>, d: Seq<T>, r: int) {
        let (f, z) = (<FiltF4 as Transform<T>>::row(g), <InpF4 as Transform<T>>::row(d));
        let (g0, g1, g2) = (v(g[0]), v(g[1]), v(g[2]));
        let (d0, d1, d2) = (v(d[0]), v(d[1]), v(d[2]));
        let (d3, d4, d5) = (v(d[3]), v(d[4]), v(d[5]));
        lemma_filter_four(v, g);
        lemma_input_four(v, d);
        lemma_four(g0, g1, g2, d0, d1, d2, d3, d4, d5);
        let m = products_four(g0, g1, g2, d0, d1, d2, d3, d4, d5);
        lemma_gathered_agree(4, r, products(v, f, z), m);
    }
}

proof fn lemma_filter_four<T: Scalar>(v: spec_fn(T) -> real, g: Seq<T>)
    requires
        faithful(v),
    ensures
        ({
            let f = <FiltF4 as Transform<T>>::row(g);
            forall|i: int|
                0 <= i < 6 ==> v(#[trigger] f[i]) == filter_four(v(g[0]), v(g[1]), v(g[2]), i)
        }),
{
    let f = <FiltF4 as Transform<T>>::row(g);
    let (g0, g1, g2) = (v(g[0]), v(g[1]), v(g[2]));
    let (a, b, c) = (g[0], g[1], g[2]);
    let sixth = T::ratio_spec(1, 6);
    let twelfth = T::ratio_spec(1, 12);
    let twenty_fourth = T::ratio_spec(1, 24);
    assert(f[0] == T::ratio_spec(1, 4).times_spec(a));
    lemma_share(v, 4, g0);
    lemma_scales(v(f[0]));
    assert(f[1] == a.plus_spec(b).plus_spec(c).negated_spec().times_spec(sixth));
    lemma_share(v, 6, -(g0 + g1 + g2));
    lemma_scales(v(f[1]));
    assert(f[2] == a.negated_spec().plus_spec(b).minus_spec(c).times_spec(sixth));
    lemma_share(v, 6, -g0 + g1 - g2);
    lemma_scales(v(f[2]));
    let (p, q, s) = (a.times_spec(twenty_fourth), b.times_spec(twelfth), c.times_spec(sixth));
    lemma_share(v, 24, g0);
    lemma_share(v, 12, g1);
    lemma_share(v, 6, g2);
    lemma_scales(v(p));
    lemma_scales(v(q));
    lemma_scales(v(s));
    assert(f[3] == p.plus_spec(q).plus_spec(s));
    assert(f[4] == p.minus_spec(q).plus_spec(s));
    assert(f[5] == c);
}

proof fn lemma_input_four<T: Scalar>(v: spec_fn(T) -> real, x: Seq<T>)
    requires
        faithful(v),
    ensures
        ({
            let z = <InpF4 as Transform<T>>::row(x);
            forall|i: int|
                0 <= i < 6 ==> v(#[trigger] z[i]) == input_four(
                    v(x[0]),
                    v(x[1]),
                    v(x[2]),
                    v(x[3]),
                    v(x[4]),
                    v(x[5]),
                    i,
                )
        }),
{
    let z = <InpF4 as Transform<T>>::row(x);
    let (two, four, five) = (T::ratio_spec(2, 1), T::ratio_spec(4, 1), T::ratio_spec(5, 1));
    let minus_two = T::ratio_spec((-2) as i32, 1);
    let minus_four = T::ratio_spec((-4) as i32, 1);
    lemma_whole(v, 2);
    lemma_whole(v, 4);
    lemma_whole(v, 5);
    lemma_whole(v, (-2) as i32);
    lemma_whole(v, (-4) as i32);
    lemma_scales(v(x[0]));
    lemma_scales(v(x[1]));
    lemma_scales(v(x[2]));
    lemma_scales(v(x[3]));
    assert(z[0] == four.times_spec(x[0]).minus_spec(five.times_spec(x[2])).plus_spec(x[4]));
    assert(z[1] == minus_four.times_spec(x[1]).minus_spec(four.times_spec(x[2])).plus_spec(
        x[3],
    ).plus_spec(x[4]));
    assert(z[2] == four.times_spec(x[1]).minus_spec(four.times_spec(x[2])).minus_spec(
        x[3],
    ).plus_spec(x[4]));
    assert(z[3] == minus_two.times_spec(x[1]).minus_spec(x[2]).plus_spec(
        two.times_spec(x[3]),
    ).plus_spec(x[4]));
    assert(z[4] == two.times_spec(x[1]).minus_spec(x[2]).minus_spec(
        two.times_spec(x[3]),
    ).plus_spec(x[4]));
    assert(z[5] == four.times_spec(x[1]).minus_spec(five.times_spec(x[3])).plus_spec(x[5]));
}

// ---- sums of gathered values ----------------------------------------------------

/// `|i| f(k, i)`.
spec fn row_of(f: spec_fn(int, int) -> real, k: int) -> spec_fn(int) -> real {
    |i: int| f(k, i)
}

/// `|i| f(i, k)`.
spec fn column_of(f: spec_fn(int, int) -> real, k: int) -> spec_fn(int) -> real {
    |i: int| f(i, k)
}

proof fn lemma_gathered_agree(t: nat, r: int, f: spec_fn(int) -> real, g: spec_fn(int) -> real)
    requires
        t == 2 || t == 4,
        forall|i: int| 0 <= i < t + 2 ==> #[trigger] f(i) == g(i),
    ensures
        gathered(t, r, f) == gathered(t, r, g),
{
    assert(f(0) == g(0) && f(1) == g(1) && f(2) == g(2) && f(3) == g(3));
    if t == 4 {
        assert(f(4) == g(4) && f(5) == g(5));
    }
}

/// Gathering a sum gives the sum of what is gathered.
proof fn lemma_gathered_sum(t: nat, r: int, f: spec_fn(int, int) -> real, n: nat)
    ensures
        gathered(t, r, |i: int| sum(column_of(f, i), n)) == sum(
            |c: int| gathered(t, r, row_of(f, c)),
            n,
        ),
    decreases n,
{
    let whole = |i: int| sum(column_of(f, i), n);
    let parts = |c: int| gathered(t, r, row_of(f, c));
    if n > 0 {
        let k = (n - 1) as nat;
        lemma_gathered_sum(t, r, f, k);
        let before = |i: int| sum(column_of(f, i), k);
        assert(sum(parts, n) == sum(parts, k) + parts(n - 1));
        assert forall|i: int| #[trigger] whole(i) == before(i) + row_of(f, n - 1)(i) by {
            assert(column_of(f, i)(n - 1) == f(n - 1, i));
        }
        let last = row_of(f, n - 1);
        assert(whole(0) == before(0) + last(0) && whole(1) == before(1) + last(1));
        assert(whole(2) == before(2) + last(2) && whole(3) == before(3) + last(3));
        assert(whole(4) == before(4) + last(4) && whole(5) == before(5) + last(5));
    }
}

/// Rows and columns can be gathered in either order.
proof fn lemma_gathered_swap(t: nat, r: int, c: int, f: spec_fn(int, int) -> real)
    ensures
        gathered(t, c, |j: int| gathered(t, r, column_of(f, j))) == gathered(
            t,
            r,
            |i: int| gathered(t, c, row_of(f, i)),
        ),
{
}

proof fn lemma_gathered_three(
    t: nat,
    r: int,
    y: spec_fn(int) -> real,
    a: spec_fn(int) -> real,
    b: spec_fn(int) -> real,
    c: spec_fn(int) -> real,
)
    requires
        t == 2 || t == 4,
        forall|i: int| 0 <= i < t + 2 ==> #[trigger] y(i) == a(i) + b(i) + c(i),
    ensures
        gathered(t, r, y) == gathered(t, r, a) + gathered(t, r, b) + gathered(t, r, c),
{
    assert(y(0) == a(0) + b(0) + c(0) && y(1) == a(1) + b(1) + c(1));
    assert(y(2) == a(2) + b(2) + c(2) && y(3) == a(3) + b(3) + c(3));
    if t == 4 {
        assert(y(4) == a(4) + b(4) + c(4) && y(5) == a(5) + b(5) + c(5));
    }
}

// ---- two dimensions ---------------------------------------------------------------

/// Column `b` of the nine taps of filter `f` at `(r, c)` of a square of side `m`.
spec fn tap_column<T>(
    v: spec_fn(T) -> real,
    f: Seq<T>,
    p: Seq<T>,
    m: int,
    r: int,
    c: int,
    b: int,
) -> real {
    prod(v(f[b]), v(p[r * m + (c + b)])) + prod(v(f[3 + b]), v(p[(r + 1) * m + (c + b)])) + prod(
        v(f[6 + b]),
        v(p[(r + 2) * m + (c + b)]),
    )
}

/// The nine taps.
spec fn nine_taps<T>(v: spec_fn(T) -> real, f: Seq<T>, p: Seq<T>, m: int, r: int, c: int) -> real {
    tap_column(v, f, p, m, r, c, 0) + tap_column(v, f, p, m, r, c, 1) + tap_column(
        v,
        f,
        p,
        m,
        r,
        c,
        2,
    )
}

/// A filter and a square, transformed and multiplied, at `(i, j)`.
spec fn share<T: Scalar, W: WinoPolicy<T>>(v: spec_fn(T) -> real, f: Seq<T>, p: Seq<T>) -> spec_fn(
    int,
    int,
) -> real {
    let m = W::tile() as int + 2;
    |i: int, j: int|
        prod(
            v(two_pass_spec::<T, W::Filt>(f)[i * m + j]),
            v(two_pass_spec::<T, W::Inp>(p)[i * m + j]),
        )
}

/// Element `(i, j)` of a transform in two passes.
proof fn lemma_two_pass<T: Scalar, R: Transform<T>>(x: Seq<T>, i: int, j: int)
    requires
        0 <= i < R::width_out(),
        0 <= j < R::width_out(),
    ensures
        two_pass_spec::<T, R>(x)[i * R::width_out() + j] == R::row(columns_done::<T, R>(x, i))[j],
{
    let k = R::width_out() as int;
    lemma_split(i, k, j);
    lemma_within(i, k, j, k);
}

/// Row `i` of the transformed products gives three taps of the rows between the
/// two passes.
proof fn lemma_share_row<T: Scalar, W: Tiling<T>>(
    v: spec_fn(T) -> real,
    f: Seq<T>,
    p: Seq<T>,
    i: int,
    c: int,
)
    requires
        faithful(v),
        0 <= i < W::tile() + 2,
        0 <= c < W::tile(),
    ensures
        gathered(W::tile(), c, row_of(share::<T, W>(v, f, p), i)) == three_taps(
            v,
            columns_done::<T, W::Filt>(f, i),
            columns_done::<T, W::Inp>(p, i),
            c,
        ),
{
    W::sides();
    let g = columns_done::<T, W::Filt>(f, i);
    let d = columns_done::<T, W::Inp>(p, i);
    let x = row_of(share::<T, W>(v, f, p), i);
    let y = products(v, W::Filt::row(g), W::Inp::row(d));
    assert forall|j: int| 0 <= j < W::tile() + 2 implies #[trigger] x(j) == y(j) by {
        lemma_two_pass::<T, W::Filt>(f, i, j);
        lemma_two_pass::<T, W::Inp>(p, i, j);
    }
    lemma_gathered_agree(W::tile(), c, x, y);
    W::convolves(v, g, d, c);
}

/// One channel of a tile: the nine taps.
proof fn lemma_channel<T: Scalar, W: Tiling<T>>(
    v: spec_fn(T) -> real,
    f: Seq<T>,
    p: Seq<T>,
    r: int,
    c: int,
)
    requires
        faithful(v),
        0 <= r < W::tile(),
        0 <= c < W::tile(),
    ensures
        ({
            let x = share::<T, W>(v, f, p);
            gathered(W::tile(), c, |j: int| gathered(W::tile(), r, column_of(x, j))) == nine_taps(
                v,
                f,
                p,
                W::tile() as int + 2,
                r,
                c,
            )
        }),
{
    W::sides();
    let t = W::tile();
    let m = t as int + 2;
    let x = share::<T, W>(v, f, p);
    lemma_gathered_swap(t, r, c, x);
    let y = |i: int| gathered(t, c, row_of(x, i));
    let h = |b: int|
        products(v, W::Filt::row(column(f, 3, b)), W::Inp::row(column(p, m, c + b)));
    assert forall|i: int| 0 <= i < t + 2 implies #[trigger] y(i) == h(0)(i) + h(1)(i) + h(2)(
        i,
    ) by {
        lemma_share_row::<T, W>(v, f, p, i, c);
        let g = columns_done::<T, W::Filt>(f, i);
        let d = columns_done::<T, W::Inp>(p, i);
        assert(g[0] == W::Filt::row(column(f, 3, 0))[i]);
        assert(g[1] == W::Filt::row(column(f, 3, 1))[i]);
        assert(g[2] == W::Filt::row(column(f, 3, 2))[i]);
        assert(d[c] == W::Inp::row(column(p, m, c))[i]);
        assert(d[c + 1] == W::Inp::row(column(p, m, c + 1))[i]);
        assert(d[c + 2] == W::Inp::row(column(p, m, c + 2))[i]);
    }
    lemma_gathered_three(t, r, y, h(0), h(1), h(2));
    assert forall|b: int| 0 <= b < 3 implies gathered(t, r, #[trigger] h(b)) == tap_column(
        v,
        f,
        p,
        m,
        r,
        c,
        b,
    ) by {
        W::convolves(v, column(f, 3, b), column(p, m, c + b), r);
    }
    assert(gathered(t, r, h(0)) == tap_column(v, f, p, m, r, c, 0));
    assert(gathered(t, r, h(1)) == tap_column(v, f, p, m, r, c, 1));
    assert(gathered(t, r, h(2)) == tap_column(v, f, p, m, r, c, 2));
}

/// A tile before bias: the nine taps of every channel.
proof fn lemma_tile<T: Scalar, W: Tiling<T>>(
    v: spec_fn(T) -> real,
    input: Input<T>,
    w: Seq<T>,
    ic: int,
    o: int,
    ty: int,
    tx: int,
    r: int,
    c: int,
)
    requires
        faithful(v),
        0 <= ic,
        0 <= r < W::tile(),
        0 <= c < W::tile(),
    ensures
        v(wino_tile::<T, W>(input, w, ic, o, ty, tx)[r * W::tile() + c]) == sum(
            |i: int|
                nine_taps(
                    v,
                    filter(w, o * ic + i),
                    patch(input, W::tile() as int, i, ty, tx),
                    W::tile() as int + 2,
                    r,
                    c,
                ),
            ic as nat,
        ),
{
    W::sides();
    let t = W::tile();
    let m = t as int + 2;
    let side = t + 2;
    let n = ic as nat;
    let inside = Seq::new(
        side * side,
        |pos: int| accumulate(zero::<T>(), wino_term::<T, W>(input, w, ic, o, ty, tx, pos), n),
    );
    let x = |ch: int| share::<T, W>(v, filter(w, o * ic + ch), patch(input, t as int, ch, ty, tx));
    let by_column = |j: int| (|ch: int, i: int| x(ch)(i, j));
    let by_channel = |ch: int, j: int| gathered(t, r, column_of(x(ch), j));
    let done = columns_done::<T, W::Outp>(inside, r);
    lemma_two_pass::<T, W::Outp>(inside, r, c);
    W::gathers(v, done, c);
    let totals = |j: int| sum(column_of(by_channel, j), n);
    assert forall|j: int| 0 <= j < t + 2 implies #[trigger] read(v, done)(j) == totals(j) by {
        let col = column(inside, m, j);
        assert(done[j] == W::Outp::row(col)[r]);
        W::gathers(v, col, r);
        let f = by_column(j);
        let sums = |i: int| sum(column_of(f, i), n);
        assert forall|i: int| 0 <= i < t + 2 implies #[trigger] read(v, col)(i) == sums(i) by {
            let pos = i * m + j;
            lemma_within(i, m, j, m);
            let term = wino_term::<T, W>(input, w, ic, o, ty, tx, pos);
            lemma_accumulate(v, zero::<T>(), term, n);
            lemma_whole(v, 0);
            assert(col[i] == accumulate(zero::<T>(), term, n));
            let g = |k: int| v(term(k));
            assert forall|k: int| 0 <= k < n implies #[trigger] g(k) == column_of(f, i)(k) by {}
            lemma_sum_agree(g, column_of(f, i), n);
        }
        lemma_gathered_agree(t, r, read(v, col), sums);
        lemma_gathered_sum(t, r, f, n);
        let parts = |k: int| gathered(t, r, row_of(f, k));
        assert forall|k: int| 0 <= k < n implies #[trigger] parts(k) == column_of(by_channel, j)(
            k,
        ) by {
            lemma_gathered_agree(t, r, row_of(f, k), column_of(x(k), j));
        }
        lemma_sum_agree(parts, column_of(by_channel, j), n);
    }
    lemma_gathered_agree(t, c, read(v, done), totals);
    lemma_gathered_sum(t, c, by_channel, n);
    let parts = |k: int| gathered(t, c, row_of(by_channel, k));
    let taps = |i: int|
        nine_taps(v, filter(w, o * ic + i), patch(input, t as int, i, ty, tx), m, r, c);
    assert forall|k: int| 0 <= k < n implies #[trigger] parts(k) == taps(k) by {
        let f = filter(w, o * ic + k);
        let p = patch(input, t as int, k, ty, tx);
        lemma_channel::<T, W>(v, f, p, r, c);
        lemma_gathered_agree(
            t,
            c,
            row_of(by_channel, k),
            |j: int| gathered(t, r, column_of(share::<T, W>(v, f, p), j)),
        );
    }
    lemma_sum_agree(parts, taps, n);
}

// ---- the direct sum ------------------------------------------------------------------

/// A sum taken nine terms at a time.
proof fn lemma_sum_by_nine(f: spec_fn(int) -> real, nine: spec_fn(int) -> real, n: nat)
    requires
        forall|i: int|
            0 <= i < n ==> #[trigger] nine(i) == f(i * 9) + f(i * 9 + 1) + f(i * 9 + 2) + f(
                i * 9 + 3,
            ) + f(i * 9 + 4) + f(i * 9 + 5) + f(i * 9 + 6) + f(i * 9 + 7) + f(i * 9 + 8),
    ensures
        sum(f, n * 9) == sum(nine, n),
    decreases n,
{
    if n > 0 {
        let k = (n - 1) as nat;
        let z = (n - 1) * 9;
        lemma_sum_by_nine(f, nine, k);
        assert(nine(n - 1) == f(z) + f(z + 1) + f(z + 2) + f(z + 3) + f(z + 4) + f(z + 5) + f(
            z + 6,
        ) + f(z + 7) + f(z + 8));
        reveal_with_fuel(sum, 10);
        assert(sum(f, n * 9) == sum(f, k * 9) + f(z) + f(z + 1) + f(z + 2) + f(z + 3) + f(z + 4)
            + f(z + 5) + f(z + 6) + f(z + 7) + f(z + 8));
    }
}

/// Tap `(a, b)` of channel `i` of the direct sum, and of the tile.
proof fn lemma_direct_tap<T: Scalar>(
    v: spec_fn(T) -> real,
    input: Input<T>,
    w: Seq<T>,
    oc: int,
    ic: int,
    wout: int,
    o: int,
    px: int,
    t: int,
    i: int,
    a: int,
    b: int,
)
    requires
        faithful(v),
        t == 2 || t == 4,
        0 < wout,
        0 <= px,
        0 <= o < oc,
        0 <= i < ic,
        w.len() == oc * ic * 9,
        0 <= a < 3,
        0 <= b < 3,
    ensures
        ({
            let (y, x) = (px / wout, px % wout);
            let p = patch(input, t, i, y / t, x / t);
            v(direct_term(input, w, ic, 1, wout, o, px)(i * 9 + (a * 3 + b))) == prod(
                v(filter(w, o * ic + i)[3 * a + b]),
                v(p[(y % t + a) * (t + 2) + (x % t + b)]),
            )
        }),
{
    let (y, x) = (px / wout, px % wout);
    let kic = i * 9 + (a * 3 + b);
    assert(kic / 9 == i && (kic / 3) % 3 == a && kic % 3 == b);
    lemma_join(px, wout);
    let (r, c) = (y % t + a, x % t + b);
    let m = t + 2;
    lemma_split(r, m, c);
    lemma_within(r, m, c, m);
    assert(0 <= y);
    assert((y / t) * t + y % t == y && (x / t) * t + x % t == x) by {
        lemma_join(y, t);
        lemma_join(x, t);
    }
    let p = patch(input, t, i, y / t, x / t);
    assert(p[r * m + c] == input.at(i, y + a - 1, x + b - 1));
    assert(patch_entry(input, 1, wout, kic, px) == input.at(i, y + a - 1, x + b - 1));
    let k = o * ic + i;
    lemma_within(o, oc, i, ic);
    assert(o * (ic * 9) + kic == k * 9 + (3 * a + b)) by (nonlinear_arith)
        requires
            k == o * ic + i,
            kic == i * 9 + (a * 3 + b),
    ;
    assert(k * 9 + 9 <= w.len()) by (nonlinear_arith)
        requires
            k < oc * ic,
            w.len() == oc * ic * 9,
    ;
    assert(filter(w, k)[3 * a + b] == w[o * (ic * 9) + kic]);
}

/// Where nothing is rounded, a Winograd convolution is the direct one.
proof fn lemma_wino_direct<T: Scalar, W: Tiling<T>>(
    v: spec_fn(T) -> real,
    input: Input<T>,
    w: Seq<T>,
    b: Seq<T>,
    ic: int,
    hout: int,
    wout: int,
    q: int,
)
    requires
        faithful(v),
        w.len() == b.len() * ic * 9,
        0 < ic,
        0 < hout,
        0 < wout,
        0 <= q < b.len() * (hout * wout),
    ensures
        v(wino_at::<T, W>(input, w, b, ic, hout, wout, q)) == v(
            direct_at(input, w, b, ic, 1, hout, wout, q),
        ),
{
    let hw = hout * wout;
    assert(0 < hw) by (nonlinear_arith)
        requires
            hw == hout * wout,
            0 < hout,
            0 < wout,
    ;
    W::sides();
    lemma_row_within(q, b.len() as int, hw);
    lemma_join(q, hw);
    let (o, px) = (q / hw, q % hw);
    lemma_join(px, wout);
    let (y, x) = (px / wout, px % wout);
    let t = W::tile() as int;
    let m = t + 2;
    lemma_tile::<T, W>(v, input, w, ic, o, y / t, x / t, y % t, x % t);
    let taps = |i: int|
        nine_taps(
            v,
            filter(w, o * ic + i),
            patch(input, t, i, y / t, x / t),
            m,
            y % t,
            x % t,
        );
    let term = direct_term(input, w, ic, 1, wout, o, px);
    let f = |k: int| v(term(k));
    lemma_accumulate(v, b[o], term, (ic * 9) as nat);
    assert forall|i: int| 0 <= i < ic implies #[trigger] taps(i) == f(i * 9) + f(i * 9 + 1) + f(
        i * 9 + 2,
    ) + f(i * 9 + 3) + f(i * 9 + 4) + f(i * 9 + 5) + f(i * 9 + 6) + f(i * 9 + 7) + f(i * 9 + 8) by {
        let oc = b.len() as int;
        lemma_direct_tap(v, input, w, oc, ic, wout, o, px, t, i, 0, 0);
        lemma_direct_tap(v, input, w, oc, ic, wout, o, px, t, i, 0, 1);
        lemma_direct_tap(v, input, w, oc, ic, wout, o, px, t, i, 0, 2);
        lemma_direct_tap(v, input, w, oc, ic, wout, o, px, t, i, 1, 0);
        lemma_direct_tap(v, input, w, oc, ic, wout, o, px, t, i, 1, 1);
        lemma_direct_tap(v, input, w, oc, ic, wout, o, px, t, i, 1, 2);
        lemma_direct_tap(v, input, w, oc, ic, wout, o, px, t, i, 2, 0);
        lemma_direct_tap(v, input, w, oc, ic, wout, o, px, t, i, 2, 1);
        lemma_direct_tap(v, input, w, oc, ic, wout, o, px, t, i, 2, 2);
    }
    lemma_sum_by_nine(f, taps, ic as nat);
}

/// An element with the residual added and cut off stands for one real, whatever
/// number stands for it before.
proof fn lemma_finish<T: Scalar>(
    v: spec_fn(T) -> real,
    x: T,
    y: T,
    residual: Option<Seq<T>>,
    p: int,
    relu_out: bool,
)
    requires
        faithful(v),
        v(x) == v(y),
    ensures
        v(finish(x, residual, p, relu_out)) == v(finish(y, residual, p, relu_out)),
{
}

/// Where nothing is rounded, a 3x3 convolution gives the same by direct sums, by
/// Winograd tiles of side two and by tiles of side four: whatever the switches.
pub proof fn law_convolutions_agree<T: Scalar>(
    v: spec_fn(T) -> real,
    one: ConvOptions,
    other: ConvOptions,
    x: Seq<T>,
    w: Seq<T>,
    b: Seq<T>,
    n: int,
    ic: int,
    h: int,
    wid: int,
    relu_in: bool,
    residual: Option<Seq<T>>,
    relu_out: bool,
    p: int,
)
    requires
        faithful(v),
        0 <= ic,
        0 < h,
        0 < wid,
        w.len() == b.len() * ic * 9,
        0 <= p < n * (b.len() * (h * wid)),
    ensures
        v(conv3x3_at(one, x, w, b, ic, h, wid, relu_in, residual, relu_out, p)) == v(
            conv3x3_at(other, x, w, b, ic, h, wid, relu_in, residual, relu_out, p),
        ),
{
    if ic > 0 {
        let hw = h * wid;
        let chunk = b.len() * hw;
        assert(0 < hw) by (nonlinear_arith)
            requires
                hw == h * wid,
                0 < h,
                0 < wid,
        ;
        assert(0 <= chunk) by (nonlinear_arith)
            requires
                chunk == b.len() * hw,
                0 < hw,
        ;
        if chunk == 0 {
            assert(n * chunk == 0) by (nonlinear_arith)
                requires
                    chunk == 0,
            ;
        }
        lemma_join(p, chunk);
        let q = p % chunk;
        let input = batch_input(x, ic, h, wid, relu_in, None, None, p / chunk);
        lemma_wino_direct::<T, F2>(v, input, w, b, ic, h, wid, q);
        lemma_wino_direct::<T, F4>(v, input, w, b, ic, h, wid, q);
        let direct = direct_at(input, w, b, ic, 1, h, wid, q);
        let two = wino_at::<T, F2>(input, w, b, ic, h, wid, q);
        let four = wino_at::<T, F4>(input, w, b, ic, h, wid, q);
        lemma_finish(v, direct, two, residual, p, relu_out);
        lemma_finish(v, direct, four, residual, p, relu_out);
    }
}

} // verus!
