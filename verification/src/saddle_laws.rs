//! How far views are from the middle, where arithmetic is exact.

use crate::backbone::{
    dot_term, high_of, imbalance, imbalances, length_of, low_of, plain_term, ranged, similarity,
    similarity_sum, spread, spread_term, square_term, unit_of,
};
use crate::index::accumulate;
use crate::layer_laws::lemma_one_root;
use crate::pos_embed_laws::faithful_places;
use crate::reals::{
    faithful, faithful_roots, lemma_accumulate, lemma_prod, lemma_prod_cancel, lemma_prod_regroup,
    lemma_prod_square, lemma_prod_two, lemma_sum_agree, lemma_whole, prod, sum,
};
use crate::scalar::Analytic;
use vstd::prelude::*;

verus! {

/// How far a number is from one half.
pub open spec fn away(x: real) -> real {
    if x + x < 1 as real {
        1 as real / (2 as real) - x
    } else {
        x - 1 as real / (2 as real)
    }
}

/// `lo` and `hi` are the least and the greatest of `m` over the first `s` views.
pub open spec fn ends(m: spec_fn(int) -> real, s: int, lo: real, hi: real) -> bool {
    &&& forall|i: int| 0 <= i < s ==> lo <= #[trigger] m(i) <= hi
    &&& exists|i: int| 0 <= i < s && #[trigger] m(i) == lo
    &&& exists|i: int| 0 <= i < s && #[trigger] m(i) == hi
}

/// The products of two directions, added up.
pub open spec fn cosine(dir: spec_fn(int, int) -> real, n: nat, a: int, b: int) -> real {
    sum(|j: int| prod(dir(a, j), dir(b, j)), n)
}

/// The products of the direction of view `v` with those of the others.
pub open spec fn to_others(dir: spec_fn(int, int) -> real, n: nat, v: int) -> spec_fn(int) -> real {
    |w: int|
        if w == v {
            0 as real
        } else {
            cosine(dir, n, v, w)
        }
}

/// What stands for the views: their lengths, their directions, how similar each is to
/// the others on average, and how much the numbers of its direction vary.
pub struct Measures {
    pub length: spec_fn(int) -> real,
    pub dir: spec_fn(int, int) -> real,
    pub similar: spec_fn(int) -> real,
    pub mean: spec_fn(int) -> real,
    pub varied: spec_fn(int) -> real,
}

/// The measures of `s` vectors of `n` numbers each, none of them zero.
pub open spec fn measured<D>(u: spec_fn(D) -> real, cls: Seq<Seq<D>>, n: nat, m: Measures) -> bool {
    let s = cls.len();
    &&& forall|v: int| 0 <= v < s ==> (#[trigger] cls[v]).len() == n
    &&& forall|v: int|
        0 <= v < s ==> #[trigger] (m.length)(v) > 0 as real && prod((m.length)(v), (m.length)(v))
            == sum(|j: int| prod(u(cls[v][j]), u(cls[v][j])), n)
    &&& forall|v: int, j: int|
        0 <= v < s && 0 <= j < n ==> prod(#[trigger] (m.dir)(v, j), (m.length)(v)) == u(cls[v][j])
    &&& forall|v: int|
        0 <= v < s ==> prod(#[trigger] (m.similar)(v), (s - 1) as real) == sum(
            to_others(m.dir, n, v),
            s,
        )
    &&& forall|v: int|
        0 <= v < s ==> prod(#[trigger] (m.mean)(v), n as real) == sum(|j: int| (m.dir)(v, j), n)
    &&& forall|v: int|
        0 <= v < s ==> prod(#[trigger] (m.varied)(v), (n - 1) as real) == sum(
            |j: int| prod((m.dir)(v, j) - (m.mean)(v), (m.dir)(v, j) - (m.mean)(v)),
            n,
        )
}

/// A vector's length and direction.
proof fn lemma_unit<D: Analytic>(
    u: spec_fn(D) -> real,
    c: Seq<D>,
    n: nat,
    length: real,
    dir: spec_fn(int) -> real,
)
    requires
        faithful_roots(u),
        c.len() == n,
        length > 0 as real,
        prod(length, length) == sum(|j: int| prod(u(c[j]), u(c[j])), n),
        forall|j: int| 0 <= j < n ==> prod(#[trigger] dir(j), length) == u(c[j]),
    ensures
        u(length_of(c)) == length,
        unit_of(c, n as int).len() == n,
        forall|j: int| 0 <= j < n ==> u(#[trigger] unit_of(c, n as int)[j]) == dir(j),
{
    lemma_whole::<D>(u, 0);
    lemma_whole::<D>(u, 1);
    let f = square_term(c);
    lemma_accumulate(u, D::ratio_spec(0, 1), f, n);
    lemma_sum_agree(|j: int| u(f(j)), |j: int| prod(u(c[j]), u(c[j])), n);
    lemma_prod_square(length);
    lemma_one_root(length, u(length_of(c)));
    let inv = D::ratio_spec(1, 1).over_spec(length_of(c));
    assert(prod(u(inv), length) == 1 as real);
    assert forall|j: int| 0 <= j < n implies u(#[trigger] unit_of(c, n as int)[j]) == dir(j) by {
        assert(unit_of(c, n as int)[j] == c[j].times_spec(inv));
        lemma_prod_regroup(dir(j), length, u(inv));
        lemma_prod(length, u(inv));
        lemma_prod(dir(j), 1 as real);
    }
}

/// Similarities added up.
proof fn lemma_similar<D: Analytic>(
    u: spec_fn(D) -> real,
    units: Seq<Seq<D>>,
    n: nat,
    dir: spec_fn(int, int) -> real,
    v: int,
    k: nat,
)
    requires
        faithful(u),
        k <= units.len(),
        0 <= v < units.len(),
        forall|w: int| 0 <= w < units.len() ==> (#[trigger] units[w]).len() == n,
        forall|w: int, j: int|
            0 <= w < units.len() && 0 <= j < n ==> u(#[trigger] units[w][j]) == dir(w, j),
    ensures
        u(similarity_sum(units, v, k)) == sum(
            to_others(dir, n, v),
            k,
        ),
    decreases k,
{
    lemma_whole::<D>(u, 0);
    if k > 0 {
        let m = (k - 1) as nat;
        lemma_similar(u, units, n, dir, v, m);
        let g = to_others(dir, n, v);
        assert(sum(g, k) == sum(g, m) + g(k - 1));
        if k - 1 != v {
            let f = dot_term(units[v], units[k - 1]);
            lemma_accumulate(u, D::ratio_spec(0, 1), f, n);
            let a = |j: int| u(f(j));
            let b = |j: int| prod(dir(v, j), dir(k - 1, j));
            assert forall|j: int| 0 <= j < n implies #[trigger] a(j) == b(j) by {
                assert(u(units[v][j]) == dir(v, j));
                assert(u(units[k - 1][j]) == dir(k - 1, j));
            }
            lemma_sum_agree(a, b, n);
            lemma_sum_agree(|j: int| u(f(j)), a, n);
        }
    }
}

/// The variance of a direction's numbers.
proof fn lemma_spread<D: Analytic>(
    u: spec_fn(D) -> real,
    c: Seq<D>,
    n: nat,
    dir: spec_fn(int) -> real,
    mean: real,
    varied: real,
)
    requires
        faithful(u),
        c.len() == n,
        2 <= n <= usize::MAX,
        forall|j: int| 0 <= j < n ==> u(#[trigger] c[j]) == dir(j),
        prod(mean, n as real) == sum(dir, n),
        prod(varied, (n - 1) as real) == sum(
            |j: int| prod(dir(j) - mean, dir(j) - mean),
            n,
        ),
    ensures
        u(spread(c)) == varied,
{
    lemma_whole::<D>(u, 0);
    lemma_whole::<D>(u, 1);
    let z = D::ratio_spec(0, 1);
    let f = plain_term(c);
    lemma_accumulate(u, z, f, n);
    let a = |j: int| u(f(j));
    assert forall|j: int| 0 <= j < n implies #[trigger] a(j) == dir(j) by {
        assert(u(c[j]) == dir(j));
    }
    lemma_sum_agree(a, dir, n);
    lemma_sum_agree(|j: int| u(f(j)), a, n);
    let m = accumulate(z, f, n).over_spec(D::from_count_spec(n as usize));
    let k = n as real;
    lemma_prod(k, u(m));
    lemma_prod(k, mean);
    lemma_prod_cancel(k, u(m), mean);
    let g = spread_term(c, m);
    lemma_accumulate(u, z, g, n);
    let b = |j: int| u(g(j));
    let e = |j: int| prod(dir(j) - mean, dir(j) - mean);
    assert forall|j: int| 0 <= j < n implies #[trigger] b(j) == e(j) by {
        assert(u(c[j]) == dir(j));
    }
    lemma_sum_agree(b, e, n);
    lemma_sum_agree(|j: int| u(g(j)), b, n);
    lemma_sum_agree(|j: int| prod(dir(j) - mean, dir(j) - mean), e, n);
    let s = spread(c);
    let l = (n - 1) as real;
    assert(l == n as real - 1 as real);
    assert(prod(u(s), l) == prod(varied, l));
    lemma_prod(l, u(s));
    lemma_prod(l, varied);
    lemma_prod_cancel(l, u(s), varied);
}

/// The least and the greatest of some numbers.
proof fn lemma_low_high<D: Analytic>(
    u: spec_fn(D) -> real,
    m: Seq<D>,
    f: spec_fn(int) -> real,
    k: nat,
)
    requires
        faithful(u),
        1 <= m.len(),
        k <= m.len(),
        forall|i: int| 0 <= i < m.len() ==> u(#[trigger] m[i]) == f(i),
    ensures
        forall|i: int|
            0 <= i < k ==> u(low_of(m, k)) <= #[trigger] f(i) <= u(high_of(m, k)),
        exists|i: int| 0 <= i < m.len() && #[trigger] f(i) == u(low_of(m, k)),
        exists|i: int| 0 <= i < m.len() && #[trigger] f(i) == u(high_of(m, k)),
    decreases k,
{
    assert(u(m[0]) == f(0));
    if k > 0 {
        lemma_low_high(u, m, f, (k - 1) as nat);
        assert(u(m[k - 1]) == f(k - 1));
        let a = choose|i: int| 0 <= i < m.len() && #[trigger] f(i) == u(low_of(m, (k - 1) as nat));
        let b = choose|i: int| 0 <= i < m.len() && #[trigger] f(i) == u(high_of(m, (k - 1) as nat));
        assert(f(a) == u(low_of(m, k)) || f(k - 1) == u(low_of(m, k)));
        assert(f(b) == u(high_of(m, k)) || f(k - 1) == u(high_of(m, k)));
    }
}

/// A number brought to the range from zero to one.
proof fn lemma_ranged<D: Analytic>(
    u: spec_fn(D) -> real,
    m: Seq<D>,
    f: spec_fn(int) -> real,
    lo: real,
    hi: real,
    v: int,
    r: real,
)
    requires
        faithful(u),
        0 <= v < m.len(),
        forall|i: int| 0 <= i < m.len() ==> u(#[trigger] m[i]) == f(i),
        ends(f, m.len() as int, lo, hi),
        u(D::from_double_bits_spec(0x3e45_798e_e230_8c3a)) > 0 as real,
        prod(r, hi - lo + u(D::from_double_bits_spec(0x3e45_798e_e230_8c3a))) == f(v) - lo,
    ensures
        u(ranged(m)[v]) == r,
{
    lemma_low_high(u, m, f, m.len());
    let low = low_of(m, m.len());
    let high = high_of(m, m.len());
    let (a, b) = (
        choose|i: int| 0 <= i < m.len() && #[trigger] f(i) == lo,
        choose|i: int| 0 <= i < m.len() && #[trigger] f(i) == hi,
    );
    let (p, q) = (
        choose|i: int| 0 <= i < m.len() && #[trigger] f(i) == u(low),
        choose|i: int| 0 <= i < m.len() && #[trigger] f(i) == u(high),
    );
    assert(u(low) == lo) by {
        assert(f(a) == lo && f(p) == u(low));
    }
    assert(u(high) == hi) by {
        assert(f(b) == hi && f(q) == u(high));
    }
    let d = hi - lo + u(D::from_double_bits_spec(0x3e45_798e_e230_8c3a));
    assert(lo <= hi) by {
        assert(f(a) == lo);
    }
    assert(u(m[v]) == f(v));
    let x = u(ranged(m)[v]);
    assert(prod(x, d) == f(v) - lo);
    lemma_prod(d, x);
    lemma_prod(d, r);
    lemma_prod_cancel(d, x, r);
}

/// How far a view is from the middle: it is the sum of how far it is from one half by
/// three measures, each brought to the range from zero to one over all views (with the
/// double 1e-8 added to the range): how similar its direction is on average to those of
/// the other views, how long it is, and how much the numbers of its direction vary about
/// their mean.
pub proof fn law_imbalance<D: Analytic>(
    u: spec_fn(D) -> real,
    cls: Seq<Seq<D>>,
    n: nat,
    m: Measures,
    v: int,
    sim: (real, real, real),
    len: (real, real, real),
    var: (real, real, real),
)
    requires
        faithful_roots(u),
        faithful_places(u),
        2 <= cls.len() <= usize::MAX,
        2 <= n <= usize::MAX,
        measured(u, cls, n, m),
        0 <= v < cls.len(),
        u(D::from_double_bits_spec(0x3e45_798e_e230_8c3a)) > 0 as real,
        ends(m.similar, cls.len() as int, sim.0, sim.1),
        ends(m.length, cls.len() as int, len.0, len.1),
        ends(m.varied, cls.len() as int, var.0, var.1),
        ({
            let tiny = u(D::from_double_bits_spec(0x3e45_798e_e230_8c3a));
            &&& prod(sim.2, sim.1 - sim.0 + tiny) == (m.similar)(v) - sim.0
            &&& prod(len.2, len.1 - len.0 + tiny) == (m.length)(v) - len.0
            &&& prod(var.2, var.1 - var.0 + tiny) == (m.varied)(v) - var.0
        }),
    ensures
        imbalances(cls).len() == cls.len(),
        u(imbalances(cls)[v]) == away(sim.2) + away(len.2) + away(var.2),
{
    lemma_whole::<D>(u, 1);
    let s = cls.len();
    let units = Seq::new(s, |w: int| unit_of(cls[w], cls[0].len() as int));
    assert(cls[0].len() == n);
    assert forall|w: int| 0 <= w < s implies u(length_of(#[trigger] cls[w])) == (m.length)(w)
        && units[w].len() == n && forall|j: int|
        0 <= j < n ==> u(#[trigger] units[w][j]) == (m.dir)(w, j) by {
        assert((m.length)(w) > 0 as real);
        let d = |j: int| (m.dir)(w, j);
        assert forall|j: int| 0 <= j < n implies prod(#[trigger] d(j), (m.length)(w)) == u(
            cls[w][j],
        ) by {
            assert(prod((m.dir)(w, j), (m.length)(w)) == u(cls[w][j]));
        }
        lemma_unit(u, cls[w], n, (m.length)(w), d);
        assert forall|j: int| 0 <= j < n implies u(#[trigger] units[w][j]) == (m.dir)(w, j) by {
            assert(u(unit_of(cls[w], n as int)[j]) == d(j));
        }
    }
    assert forall|w: int| 0 <= w < s implies (#[trigger] units[w]).len() == n by {
        assert(cls[w].len() == n);
    }
    assert forall|w: int, j: int| 0 <= w < s && 0 <= j < n implies u(#[trigger] units[w][j])
        == (m.dir)(w, j) by {
        assert(cls[w].len() == n);
    }
    let sims = Seq::new(s, |w: int| similarity(units, w));
    let lens = Seq::new(s, |w: int| length_of(cls[w]));
    let vars = Seq::new(s, |w: int| spread(units[w]));
    assert forall|w: int| 0 <= w < s implies u(#[trigger] sims[w]) == (m.similar)(w) by {
        lemma_similar(u, units, n, m.dir, w, s);
        let k = (s - 1) as real;
        assert(k == s as real - 1 as real);
        let x = similarity(units, w);
        assert(prod((m.similar)(w), (s - 1) as real) == u(similarity_sum(units, w, s)));
        assert(prod(u(x), k) == prod((m.similar)(w), k));
        lemma_prod(k, u(x));
        lemma_prod(k, (m.similar)(w));
        lemma_prod_cancel(k, u(x), (m.similar)(w));
    }
    assert forall|w: int| 0 <= w < s implies u(#[trigger] lens[w]) == (m.length)(w) by {
        assert(u(length_of(cls[w])) == (m.length)(w));
    }
    assert forall|w: int| 0 <= w < s implies u(#[trigger] vars[w]) == (m.varied)(w) by {
        let d = |j: int| (m.dir)(w, j);
        assert(units[w].len() == n);
        assert forall|j: int| 0 <= j < n implies u(#[trigger] units[w][j]) == d(j) by {
            assert(u(units[w][j]) == (m.dir)(w, j));
        }
        assert(prod((m.mean)(w), n as real) == sum(|j: int| (m.dir)(w, j), n));
        lemma_sum_agree(|j: int| (m.dir)(w, j), d, n);
        assert(prod((m.varied)(w), (n - 1) as real) == sum(
            |j: int| prod((m.dir)(w, j) - (m.mean)(w), (m.dir)(w, j) - (m.mean)(w)),
            n,
        ));
        lemma_sum_agree(
            |j: int| prod((m.dir)(w, j) - (m.mean)(w), (m.dir)(w, j) - (m.mean)(w)),
            |j: int| prod(d(j) - (m.mean)(w), d(j) - (m.mean)(w)),
            n,
        );
        lemma_spread(u, units[w], n, d, (m.mean)(w), (m.varied)(w));
    }
    lemma_ranged(u, sims, m.similar, sim.0, sim.1, v, sim.2);
    lemma_ranged(u, lens, m.length, len.0, len.1, v, len.2);
    lemma_ranged(u, vars, m.varied, var.0, var.1, v, var.2);
    let half = D::ratio_spec(1, 2);
    assert(prod(u(half), 2u32 as int as real) == 1 as real);
    lemma_prod(u(half), 2 as real);
    lemma_prod_two(u(half));
    assert(imbalances(cls)[v] == imbalance(ranged(sims)[v], ranged(lens)[v], ranged(vars)[v]));
}

} // verus!
