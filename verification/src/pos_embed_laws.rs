//! Position embeddings on their own grid where arithmetic is exact.

use crate::index::{lemma_join, lemma_row_within};
use crate::pos_embed::{
    blended, cubic_of, embed_at, interpolated, neighbour, source_index, source_place,
    source_weight,
};
use crate::reals::{lemma_prod, lemma_prod_cancel, lemma_whole, prod};
use crate::scalar::{from_int, zero, Analytic};
use crate::sort::faithful_floors;
use vstd::prelude::*;

verus! {

/// Rounding and magnitudes are exact besides arithmetic.
pub open spec fn faithful_places<T: Analytic>(v: spec_fn(T) -> real) -> bool {
    &&& faithful_floors(v)
    &&& forall|x: T|
        v(#[trigger] x.magnitude_spec()) == (if v(x) < 0 as real {
            -v(x)
        } else {
            v(x)
        })
}

/// A position of a grid lies at itself in a grid of the same size.
proof fn lemma_own_place<T: Analytic>(v: spec_fn(T) -> real, o: int, m: int)
    requires
        faithful_places(v),
        0 <= o < m <= i32::MAX,
    ensures
        v(source_place(o, m, m, zero::<T>())) == o as real,
        source_index(source_place(o, m, m, zero::<T>())) == o,
{
    lemma_whole::<T>(v, 0);
    let wide = T::from_count_spec(m as usize);
    let scale = wide.plus_spec(zero()).over_spec(wide);
    assert(v(wide) == m as real && v(wide) != 0 as real);
    assert(prod(v(scale), v(wide)) == v(wide));
    lemma_prod(v(wide), 1 as real);
    lemma_prod(v(wide), v(scale));
    lemma_prod_cancel(v(wide), v(scale), 1 as real);
    let half = T::ratio_spec(1, 2);
    let at = T::from_count_spec(o as usize).plus_spec(half);
    let x = at.over_spec(scale);
    assert(prod(v(x), v(scale)) == v(at));
    lemma_prod(v(x), 1 as real);
    let place = source_place(o, m, m, zero::<T>());
    assert(v(place) == o as real);
    let low = place.rounded_down_spec();
    let n = place.floor_count_spec();
    assert(n as int == o) by {
        assert(n as int as real <= o as real);
        assert((o as real) < n as int as real + 1 as real);
    }
    assert(v(low) == o as real);
    let c = low.floor_count_spec();
    assert(c as int == o) by {
        assert(c as int as real <= o as real);
        assert((o as real) < c as int as real + 1 as real);
    }
}

/// The cubic kernel at whole distances: one at zero, else zero.
proof fn lemma_kernel<T: Analytic>(v: spec_fn(T) -> real, x: T)
    requires
        faithful_places(v),
        v(x) == 0 as real || v(x) == 1 as real || v(x) == -(1 as real) || v(x) == -(2 as real),
    ensures
        v(cubic_of(x)) == (if v(x) == 0 as real {
            1 as real
        } else {
            0 as real
        }),
{
    lemma_whole::<T>(v, 0);
    lemma_whole::<T>(v, 1);
    lemma_whole::<T>(v, 2);
    lemma_whole::<T>(v, 4);
    lemma_whole::<T>(v, 5);
    lemma_whole::<T>(v, 8);
    let a = x.magnitude_spec();
    if v(x) == 0 as real {
        let y = T::ratio_spec(5, 4).times_spec(a).minus_spec(T::ratio_spec(9, 4));
        lemma_prod(v(y), 0 as real);
        lemma_prod(0 as real, 0 as real);
        assert(v(y.times_spec(a)) == 0 as real);
        assert(v(y.times_spec(a).times_spec(a)) == 0 as real);
    } else if v(a) == 1 as real {
        let five = a.minus_spec(T::ratio_spec(5, 1));
        let y = five.times_spec(a).plus_spec(T::ratio_spec(8, 1));
        lemma_prod(v(five), 1 as real);
        lemma_prod(v(y), 1 as real);
        let z = y.times_spec(a).minus_spec(T::ratio_spec(4, 1));
        assert(v(z) == 0 as real);
        lemma_prod(v(T::ratio_spec((-3) as i32, 4)), 0 as real);
    }
}

/// The weights of a position: all of it on the position itself.
proof fn lemma_own_weight<T: Analytic>(v: spec_fn(T) -> real, o: int, m: int, i: int)
    requires
        faithful_places(v),
        0 <= o < m <= i32::MAX,
        0 <= i < 4,
    ensures
        v(source_weight(source_place(o, m, m, zero::<T>()), i)) == (if i == 1 {
            1 as real
        } else {
            0 as real
        }),
{
    lemma_own_place(v, o, m);
    let place = source_place(o, m, m, zero::<T>());
    lemma_whole::<T>(v, (i - 1) as i32);
    assert(v(from_int::<T>(o)) == o as real);
    let x = place.minus_spec(from_int(source_index(place))).minus_spec(
        T::ratio_spec((i - 1) as i32, 1),
    );
    assert(v(x) == -((i - 1) as real));
    lemma_kernel(v, x);
}

/// Sixteen neighbours of which one has all the weight.
proof fn lemma_own_neighbour<T: Analytic>(
    v: spec_fn(T) -> real,
    pe: Seq<T>,
    embed: int,
    m: int,
    y: int,
    x: int,
    ch: int,
    t: nat,
)
    requires
        faithful_places(v),
        0 <= y < m <= i32::MAX,
        0 <= x < m,
        t <= 16,
    ensures
        v(
            blended(
                pe,
                embed,
                m,
                source_place(y, m, m, zero::<T>()),
                source_place(x, m, m, zero::<T>()),
                ch,
                t,
            ),
        ) == (if t < 6 {
            0 as real
        } else {
            v(pe[(1 + y * m + x) * embed + ch])
        }),
    decreases t,
{
    lemma_whole::<T>(v, 0);
    if t > 0 {
        lemma_own_neighbour(v, pe, embed, m, y, x, ch, (t - 1) as nat);
        let (i, j) = ((t - 1) / 4, (t - 1) % 4);
        lemma_own_weight(v, y, m, i);
        lemma_own_weight(v, x, m, j);
        lemma_own_place(v, y, m);
        lemma_own_place(v, x, m);
        let (py, px) = (
            source_place(y, m, m, zero::<T>()),
            source_place(x, m, m, zero::<T>()),
        );
        let (wy, wx) = (source_weight(py, i), source_weight(px, j));
        assert(i == 1 && j == 1 <==> t == 6);
        if t == 6 {
            assert(neighbour(py, i, m) == y && neighbour(px, j, m) == x);
            let p = pe[(1 + y * m + x) * embed + ch];
            lemma_prod(1 as real, 1 as real);
            lemma_prod(v(p), 1 as real);
            lemma_prod(1 as real, v(p));
            assert(v(wy.times_spec(wx).times_spec(p)) == v(p));
        }
    }
}

/// Where arithmetic is exact, an embedding resampled to its own grid without an
/// offset stays as it is.
pub proof fn law_same_grid_exact<T: Analytic>(
    v: spec_fn(T) -> real,
    pe: Seq<T>,
    embed: int,
    m: int,
    p: int,
)
    requires
        faithful_places(v),
        0 < embed,
        1 <= m <= i32::MAX,
        pe.len() == (1 + m * m) * embed,
        0 <= p < pe.len(),
    ensures
        interpolated(pe, embed, m, m, m, zero()).len() == pe.len(),
        v(interpolated(pe, embed, m, m, m, zero())[p]) == v(pe[p]),
{
    lemma_join(p, embed);
    lemma_row_within(p, 1 + m * m, embed);
    assert(interpolated(pe, embed, m, m, m, zero())[p] == embed_at(
        pe,
        embed,
        m,
        m,
        m,
        zero(),
        p,
    ));
    if p >= embed {
        let row = p / embed;
        assert(row >= 1) by (nonlinear_arith)
            requires
                p >= embed,
                row == p / embed,
                embed > 0,
        ;
        let patch = row - 1;
        lemma_row_within(patch, m, m);
        lemma_join(patch, m);
        lemma_own_neighbour(v, pe, embed, m, patch / m, patch % m, p % embed, 16);
    }
}

} // verus!
