//! Winograd transforms for 3x3 stride-1 convolution: F(2x2, 3x3) on 4x4 input
//! tiles and F(4x4, 3x3) on 6x6 input tiles.
//!
//! A two-dimensional transform applies a one-dimensional one to the columns of
//! a square and then to its rows.

use crate::index::{lemma_split, lemma_within};
use crate::scalar::Scalar;
use vstd::prelude::*;

verus! {

/// A transform of a short vector.
pub trait Transform<T: Scalar> {
    spec fn width_in() -> nat;

    spec fn width_out() -> nat;

    spec fn row(x: Seq<T>) -> Seq<T>;

    fn inputs() -> (r: usize)
        ensures
            r == Self::width_in(),
            0 < r <= 6,
    ;

    fn outputs() -> (r: usize)
        ensures
            r == Self::width_out(),
            0 < r <= 6,
    ;

    fn apply(x: &Vec<T>) -> (r: Vec<T>)
        requires
            x.len() == Self::width_in(),
        ensures
            r@ == Self::row(x@),
            r.len() == Self::width_out(),
    ;
}

/// Column `j` of a square with `m` columns.
pub open spec fn column<T>(x: Seq<T>, m: int, j: int) -> Seq<T> {
    Seq::new(m as nat, |i: int| x[i * m + j])
}

/// Row `i` of what transforming the columns gives.
pub open spec fn columns_done<T: Scalar, R: Transform<T>>(x: Seq<T>, i: int) -> Seq<T> {
    let m = R::width_in() as int;
    Seq::new(m as nat, |j: int| R::row(column(x, m, j))[i])
}

/// The transform applied to the columns and then to the rows.
pub open spec fn two_pass_spec<T: Scalar, R: Transform<T>>(x: Seq<T>) -> Seq<T> {
    let k = R::width_out() as int;
    Seq::new((k * k) as nat, |e: int| R::row(columns_done::<T, R>(x, e / k))[e % k])
}

/// Applies a transform to the columns and then to the rows of a square.
pub fn two_pass<T: Scalar, R: Transform<T>>(x: &[T]) -> (out: Vec<T>)
    requires
        x.len() == R::width_in() * R::width_in(),
    ensures
        out@ == two_pass_spec::<T, R>(x@),
        out.len() == R::width_out() * R::width_out(),
{
    let m: usize = R::inputs();
    let k: usize = R::outputs();
    let mut cols: Vec<Vec<T>> = Vec::new();
    let mut j: usize = 0;
    while j < m
        invariant
            j <= m,
            m == R::width_in(),
            k == R::width_out(),
            x.len() == m * m,
            cols.len() == j,
            forall|c: int|
                0 <= c < j ==> #[trigger] cols[c]@ == R::row(column(x@, m as int, c))
                    && cols[c].len() == k,
        decreases m - j,
    {
        let mut col: Vec<T> = Vec::new();
        let mut i: usize = 0;
        while i < m
            invariant
                i <= m,
                j < m,
                x.len() == m * m,
                col.len() == i,
                forall|c: int| 0 <= c < i ==> #[trigger] col[c] == x[c * m + j],
            decreases m - i,
        {
            proof {
                lemma_within(i as int, m as int, j as int, m as int);
            }
            col.push(x[i * m + j]);
            i = i + 1;
        }
        assert(col@ =~= column(x@, m as int, j as int));
        cols.push(R::apply(&col));
        j = j + 1;
    }
    let mut out: Vec<T> = Vec::new();
    let mut i: usize = 0;
    assert(0 * k == 0);
    while i < k
        invariant
            i <= k,
            m == R::width_in(),
            k == R::width_out(),
            0 < k,
            cols.len() == m,
            forall|c: int|
                0 <= c < m ==> #[trigger] cols[c]@ == R::row(column(x@, m as int, c))
                    && cols[c].len() == k,
            out.len() == i * k,
            forall|e: int|
                0 <= e < i * k ==> #[trigger] out[e] == R::row(
                    columns_done::<T, R>(x@, e / k as int),
                )[e % k as int],
        decreases k - i,
    {
        let mut row: Vec<T> = Vec::new();
        let mut j: usize = 0;
        while j < m
            invariant
                j <= m,
                i < k,
                cols.len() == m,
                forall|c: int|
                    0 <= c < m ==> #[trigger] cols[c]@ == R::row(column(x@, m as int, c))
                        && cols[c].len() == k,
                row.len() == j,
                forall|c: int|
                    0 <= c < j ==> #[trigger] row[c] == R::row(column(x@, m as int, c))[i as int],
            decreases m - j,
        {
            assert(cols[j as int]@ == R::row(column(x@, m as int, j as int)));
            row.push(cols[j][i]);
            j = j + 1;
        }
        assert(row@ =~= columns_done::<T, R>(x@, i as int));
        let done: Vec<T> = R::apply(&row);
        let mut c: usize = 0;
        while c < k
            invariant
                c <= k,
                i < k,
                0 < k,
                done@ == R::row(columns_done::<T, R>(x@, i as int)),
                done.len() == k,
                out.len() == i * k + c,
                forall|e: int|
                    0 <= e < i * k + c ==> #[trigger] out[e] == R::row(
                        columns_done::<T, R>(x@, e / k as int),
                    )[e % k as int],
            decreases k - c,
        {
            proof {
                lemma_split(i as int, k as int, c as int);
            }
            out.push(done[c]);
            c = c + 1;
        }
        assert((i + 1) * k == i * k + k) by (nonlinear_arith);
        i = i + 1;
    }
    assert(out@ =~= two_pass_spec::<T, R>(x@));
    out
}

/// F(2, 3) filter transform.
pub struct FiltF2;

/// F(2, 3) input transform.
pub struct InpF2;

/// F(2, 3) output transform.
pub struct OutpF2;

/// F(4, 3) filter transform.
pub struct FiltF4;

/// F(4, 3) input transform.
pub struct InpF4;

/// F(4, 3) output transform.
pub struct OutpF4;

impl<T: Scalar> Transform<T> for FiltF2 {
    open spec fn width_in() -> nat {
        3
    }

    open spec fn width_out() -> nat {
        4
    }

    open spec fn row(x: Seq<T>) -> Seq<T> {
        let half = T::ratio_spec(1, 2);
        seq![
            x[0],
            half.times_spec(x[0].plus_spec(x[1]).plus_spec(x[2])),
            half.times_spec(x[0].minus_spec(x[1]).plus_spec(x[2])),
            x[2],
        ]
    }

    fn inputs() -> (r: usize) {
        3
    }

    fn outputs() -> (r: usize) {
        4
    }

    fn apply(x: &Vec<T>) -> (r: Vec<T>) {
        let half: T = T::ratio(1, 2);
        let r: Vec<T> = vec![
            x[0],
            half.times(x[0].plus(x[1]).plus(x[2])),
            half.times(x[0].minus(x[1]).plus(x[2])),
            x[2],
        ];
        assert(r@ =~= Self::row(x@));
        r
    }
}

impl<T: Scalar> Transform<T> for InpF2 {
    open spec fn width_in() -> nat {
        4
    }

    open spec fn width_out() -> nat {
        4
    }

    open spec fn row(x: Seq<T>) -> Seq<T> {
        seq![
            x[0].minus_spec(x[2]),
            x[1].plus_spec(x[2]),
            x[2].minus_spec(x[1]),
            x[1].minus_spec(x[3]),
        ]
    }

    fn inputs() -> (r: usize) {
        4
    }

    fn outputs() -> (r: usize) {
        4
    }

    fn apply(x: &Vec<T>) -> (r: Vec<T>) {
        let r: Vec<T> = vec![
            x[0].minus(x[2]),
            x[1].plus(x[2]),
            x[2].minus(x[1]),
            x[1].minus(x[3]),
        ];
        assert(r@ =~= Self::row(x@));
        r
    }
}

impl<T: Scalar> Transform<T> for OutpF2 {
    open spec fn width_in() -> nat {
        4
    }

    open spec fn width_out() -> nat {
        2
    }

    open spec fn row(x: Seq<T>) -> Seq<T> {
        seq![x[0].plus_spec(x[1]).plus_spec(x[2]), x[1].minus_spec(x[2]).minus_spec(x[3])]
    }

    fn inputs() -> (r: usize) {
        4
    }

    fn outputs() -> (r: usize) {
        2
    }

    fn apply(x: &Vec<T>) -> (r: Vec<T>) {
        let r: Vec<T> = vec![x[0].plus(x[1]).plus(x[2]), x[1].minus(x[2]).minus(x[3])];
        assert(r@ =~= Self::row(x@));
        r
    }
}

impl<T: Scalar> Transform<T> for FiltF4 {
    open spec fn width_in() -> nat {
        3
    }

    open spec fn width_out() -> nat {
        6
    }

    open spec fn row(x: Seq<T>) -> Seq<T> {
        let sixth = T::ratio_spec(1, 6);
        let twelfth = T::ratio_spec(1, 12);
        let twenty_fourth = T::ratio_spec(1, 24);
        let (a, b, c) = (x[0], x[1], x[2]);
        seq![
            T::ratio_spec(1, 4).times_spec(a),
            a.plus_spec(b).plus_spec(c).negated_spec().times_spec(sixth),
            a.negated_spec().plus_spec(b).minus_spec(c).times_spec(sixth),
            a.times_spec(twenty_fourth).plus_spec(b.times_spec(twelfth)).plus_spec(
                c.times_spec(sixth),
            ),
            a.times_spec(twenty_fourth).minus_spec(b.times_spec(twelfth)).plus_spec(
                c.times_spec(sixth),
            ),
            c,
        ]
    }

    fn inputs() -> (r: usize) {
        3
    }

    fn outputs() -> (r: usize) {
        6
    }

    fn apply(x: &Vec<T>) -> (r: Vec<T>) {
        let sixth: T = T::ratio(1, 6);
        let twelfth: T = T::ratio(1, 12);
        let twenty_fourth: T = T::ratio(1, 24);
        let a: T = x[0];
        let b: T = x[1];
        let c: T = x[2];
        let r: Vec<T> = vec![
            T::ratio(1, 4).times(a),
            a.plus(b).plus(c).negated().times(sixth),
            a.negated().plus(b).minus(c).times(sixth),
            a.times(twenty_fourth).plus(b.times(twelfth)).plus(c.times(sixth)),
            a.times(twenty_fourth).minus(b.times(twelfth)).plus(c.times(sixth)),
            c,
        ];
        assert(r@ =~= Self::row(x@));
        r
    }
}

impl<T: Scalar> Transform<T> for InpF4 {
    open spec fn width_in() -> nat {
        6
    }

    open spec fn width_out() -> nat {
        6
    }

    open spec fn row(x: Seq<T>) -> Seq<T> {
        let two = T::ratio_spec(2, 1);
        let four = T::ratio_spec(4, 1);
        let five = T::ratio_spec(5, 1);
        let minus_two = T::ratio_spec((-2) as i32, 1);
        let minus_four = T::ratio_spec((-4) as i32, 1);
        seq![
            four.times_spec(x[0]).minus_spec(five.times_spec(x[2])).plus_spec(x[4]),
            minus_four.times_spec(x[1]).minus_spec(four.times_spec(x[2])).plus_spec(
                x[3],
            ).plus_spec(x[4]),
            four.times_spec(x[1]).minus_spec(four.times_spec(x[2])).minus_spec(x[3]).plus_spec(
                x[4],
            ),
            minus_two.times_spec(x[1]).minus_spec(x[2]).plus_spec(two.times_spec(x[3])).plus_spec(
                x[4],
            ),
            two.times_spec(x[1]).minus_spec(x[2]).minus_spec(two.times_spec(x[3])).plus_spec(x[4]),
            four.times_spec(x[1]).minus_spec(five.times_spec(x[3])).plus_spec(x[5]),
        ]
    }

    fn inputs() -> (r: usize) {
        6
    }

    fn outputs() -> (r: usize) {
        6
    }

    fn apply(x: &Vec<T>) -> (r: Vec<T>) {
        let two: T = T::ratio(2, 1);
        let four: T = T::ratio(4, 1);
        let five: T = T::ratio(5, 1);
        let minus_two: T = T::ratio(-2, 1);
        let minus_four: T = T::ratio(-4, 1);
        let r: Vec<T> = vec![
            four.times(x[0]).minus(five.times(x[2])).plus(x[4]),
            minus_four.times(x[1]).minus(four.times(x[2])).plus(x[3]).plus(x[4]),
            four.times(x[1]).minus(four.times(x[2])).minus(x[3]).plus(x[4]),
            minus_two.times(x[1]).minus(x[2]).plus(two.times(x[3])).plus(x[4]),
            two.times(x[1]).minus(x[2]).minus(two.times(x[3])).plus(x[4]),
            four.times(x[1]).minus(five.times(x[3])).plus(x[5]),
        ];
        assert(r@ =~= Self::row(x@));
        r
    }
}

impl<T: Scalar> Transform<T> for OutpF4 {
    open spec fn width_in() -> nat {
        6
    }

    open spec fn width_out() -> nat {
        4
    }

    open spec fn row(x: Seq<T>) -> Seq<T> {
        let two = T::ratio_spec(2, 1);
        let four = T::ratio_spec(4, 1);
        let eight = T::ratio_spec(8, 1);
        seq![
            x[0].plus_spec(x[1]).plus_spec(x[2]).plus_spec(x[3]).plus_spec(x[4]),
            x[1].minus_spec(x[2]).plus_spec(two.times_spec(x[3])).minus_spec(two.times_spec(x[4])),
            x[1].plus_spec(x[2]).plus_spec(four.times_spec(x[3])).plus_spec(four.times_spec(x[4])),
            x[1].minus_spec(x[2]).plus_spec(eight.times_spec(x[3])).minus_spec(
                eight.times_spec(x[4]),
            ).plus_spec(x[5]),
        ]
    }

    fn inputs() -> (r: usize) {
        6
    }

    fn outputs() -> (r: usize) {
        4
    }

    fn apply(x: &Vec<T>) -> (r: Vec<T>) {
        let two: T = T::ratio(2, 1);
        let four: T = T::ratio(4, 1);
        let eight: T = T::ratio(8, 1);
        let r: Vec<T> = vec![
            x[0].plus(x[1]).plus(x[2]).plus(x[3]).plus(x[4]),
            x[1].minus(x[2]).plus(two.times(x[3])).minus(two.times(x[4])),
            x[1].plus(x[2]).plus(four.times(x[3])).plus(four.times(x[4])),
            x[1].minus(x[2]).plus(eight.times(x[3])).minus(eight.times(x[4])).plus(x[5]),
        ];
        assert(r@ =~= Self::row(x@));
        r
    }
}

/// The tile sizes and transforms of one kind of Winograd convolution.
pub trait WinoPolicy<T: Scalar> {
    type Filt: Transform<T>;

    type Inp: Transform<T>;

    type Outp: Transform<T>;

    /// Side of an output tile.
    spec fn tile() -> nat;

    /// Output tile side; the input tile is two larger, as a 3x3 filter needs.
    fn ot() -> (r: usize)
        ensures
            r == Self::tile(),
            0 < r <= 4,
            Self::Filt::width_in() == 3,
            Self::Filt::width_out() == r + 2,
            Self::Inp::width_in() == r + 2,
            Self::Inp::width_out() == r + 2,
            Self::Outp::width_in() == r + 2,
            Self::Outp::width_out() == r,
    ;
}

/// F(2x2, 3x3): transforms with halves only.
pub struct F2;

/// F(4x4, 3x3): fewer multiplications per output, coarser fractions.
pub struct F4;

impl<T: Scalar> WinoPolicy<T> for F2 {
    type Filt = FiltF2;

    type Inp = InpF2;

    type Outp = OutpF2;

    open spec fn tile() -> nat {
        2
    }

    fn ot() -> (r: usize) {
        proof {
            assert(<FiltF2 as Transform<T>>::width_in() == 3);
            assert(<FiltF2 as Transform<T>>::width_out() == 4);
            assert(<InpF2 as Transform<T>>::width_in() == 4);
            assert(<InpF2 as Transform<T>>::width_out() == 4);
            assert(<OutpF2 as Transform<T>>::width_in() == 4);
            assert(<OutpF2 as Transform<T>>::width_out() == 2);
        }
        2
    }
}

impl<T: Scalar> WinoPolicy<T> for F4 {
    type Filt = FiltF4;

    type Inp = InpF4;

    type Outp = OutpF4;

    open spec fn tile() -> nat {
        4
    }

    fn ot() -> (r: usize) {
        proof {
            assert(<FiltF4 as Transform<T>>::width_in() == 3);
            assert(<FiltF4 as Transform<T>>::width_out() == 6);
            assert(<InpF4 as Transform<T>>::width_in() == 6);
            assert(<InpF4 as Transform<T>>::width_out() == 6);
            assert(<OutpF4 as Transform<T>>::width_in() == 6);
            assert(<OutpF4 as Transform<T>>::width_out() == 4);
        }
        4
    }
}

} // verus!
