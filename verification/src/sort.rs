//! Sorting numbers, and quantiles of sorted numbers.

use crate::reals::{
    faithful, faithful_widening, lemma_prod, lemma_prod_plus, lemma_prod_sign, prod,
};
use crate::scalar::{zero, Analytic, Fixed, Scalar, Widens};
use vstd::prelude::*;

verus! {

/// Two runs put together, the first one first where neither element precedes.
pub open spec fn merged<T: Scalar>(a: Seq<T>, b: Seq<T>) -> Seq<T>
    decreases a.len() + b.len(),
{
    if a.len() == 0 {
        b
    } else if b.len() == 0 {
        a
    } else if b[0].precedes_spec(a[0]) {
        seq![b[0]] + merged(a, b.skip(1))
    } else {
        seq![a[0]] + merged(a.skip(1), b)
    }
}

/// The numbers in order; what is equal keeps its order.
pub open spec fn sorted_of<T: Scalar>(s: Seq<T>) -> Seq<T>
    decreases s.len(),
{
    if s.len() <= 1 {
        s
    } else {
        let m = s.len() as int / 2;
        merged(sorted_of(s.take(m)), sorted_of(s.skip(m)))
    }
}

/// The order of `T` is a strict order in which equivalence is transitive.
pub open spec fn ordered<T: Scalar>() -> bool {
    &&& forall|x: T, y: T| #[trigger] x.precedes_spec(y) ==> !y.precedes_spec(x)
    &&& forall|x: T, y: T, z: T|
        #![trigger x.precedes_spec(y), y.precedes_spec(z)]
        !x.precedes_spec(y) && !y.precedes_spec(z) ==> !x.precedes_spec(z)
}

/// No element precedes one that stands before it.
pub open spec fn in_order<T: Scalar>(s: Seq<T>) -> bool {
    forall|i: int, j: int| 0 <= i < j < s.len() ==> !(#[trigger] s[j]).precedes_spec(#[trigger] s[i])
}

proof fn lemma_merged_contents<T: Scalar>(a: Seq<T>, b: Seq<T>)
    ensures
        merged(a, b).to_multiset() =~= a.to_multiset().add(b.to_multiset()),
        merged(a, b).len() == a.len() + b.len(),
    decreases a.len() + b.len(),
{
    broadcast use vstd::seq_lib::group_to_multiset_ensures;

    if a.len() == 0 {
        assert(a.to_multiset().len() == 0);
        assert(a =~= Seq::empty());
        assert(a.to_multiset() =~= vstd::multiset::Multiset::empty());
    } else if b.len() == 0 {
        assert(b =~= Seq::empty());
        assert(b.to_multiset() =~= vstd::multiset::Multiset::empty());
    } else if b[0].precedes_spec(a[0]) {
        lemma_merged_contents(a, b.skip(1));
        lemma_head(b);
        lemma_cons(b[0], merged(a, b.skip(1)));
    } else {
        lemma_merged_contents(a.skip(1), b);
        lemma_head(a);
        lemma_cons(a[0], merged(a.skip(1), b));
    }
}

proof fn lemma_cons<T>(x: T, s: Seq<T>)
    ensures
        (seq![x] + s).to_multiset() =~= s.to_multiset().insert(x),
{
    vstd::seq_lib::lemma_multiset_commutative(seq![x], s);
    broadcast use vstd::seq_lib::group_to_multiset_ensures;

    assert(seq![x] =~= Seq::empty().push(x));
    assert(Seq::<T>::empty().to_multiset() =~= vstd::multiset::Multiset::empty());
    assert(seq![x].to_multiset() =~= vstd::multiset::Multiset::empty().insert(x));
}

proof fn lemma_head<T>(s: Seq<T>)
    requires
        s.len() > 0,
    ensures
        s.to_multiset() =~= s.skip(1).to_multiset().insert(s[0]),
{
    lemma_cons(s[0], s.skip(1));
    assert(seq![s[0]] + s.skip(1) =~= s);
}

/// Sorting keeps every number as often as it occurs.
pub proof fn law_sort_permutes<T: Scalar>(s: Seq<T>)
    ensures
        sorted_of(s).to_multiset() == s.to_multiset(),
        sorted_of(s).len() == s.len(),
    decreases s.len(),
{
    if s.len() > 1 {
        let m = s.len() as int / 2;
        law_sort_permutes(s.take(m));
        law_sort_permutes(s.skip(m));
        lemma_merged_contents(sorted_of(s.take(m)), sorted_of(s.skip(m)));
        vstd::seq_lib::lemma_multiset_commutative(s.take(m), s.skip(m));
        assert(s.take(m) + s.skip(m) =~= s);
    }
}

/// Where `merged` takes each of its elements from.
proof fn lemma_merged_above<T: Scalar>(a: Seq<T>, b: Seq<T>, x: T)
    requires
        forall|i: int| 0 <= i < a.len() ==> !(#[trigger] a[i]).precedes_spec(x),
        forall|i: int| 0 <= i < b.len() ==> !(#[trigger] b[i]).precedes_spec(x),
    ensures
        forall|i: int| 0 <= i < merged(a, b).len() ==> !(#[trigger] merged(a, b)[i]).precedes_spec(x),
    decreases a.len() + b.len(),
{
    if a.len() > 0 && b.len() > 0 {
        let (y, rest) = if b[0].precedes_spec(a[0]) {
            lemma_merged_above(a, b.skip(1), x);
            (b[0], merged(a, b.skip(1)))
        } else {
            lemma_merged_above(a.skip(1), b, x);
            (a[0], merged(a.skip(1), b))
        };
        let m = merged(a, b);
        assert(m =~= seq![y] + rest);
        assert forall|i: int| 0 <= i < m.len() implies !(#[trigger] m[i]).precedes_spec(x) by {
            if i > 0 {
                assert(m[i] == rest[i - 1]);
            }
        }
    }
}

proof fn lemma_merged_in_order<T: Scalar>(a: Seq<T>, b: Seq<T>)
    requires
        ordered::<T>(),
        in_order(a),
        in_order(b),
    ensures
        in_order(merged(a, b)),
    decreases a.len() + b.len(),
{
    if a.len() > 0 && b.len() > 0 {
        let (x, rest) = if b[0].precedes_spec(a[0]) {
            lemma_merged_in_order(a, b.skip(1));
            assert forall|i: int| 0 <= i < a.len() implies !(#[trigger] a[i]).precedes_spec(b[0]) by {
                if i > 0 {
                    assert(!a[i].precedes_spec(a[0]));
                }
                assert(!a[0].precedes_spec(b[0]));
            }
            lemma_merged_above(a, b.skip(1), b[0]);
            (b[0], merged(a, b.skip(1)))
        } else {
            lemma_merged_in_order(a.skip(1), b);
            assert forall|i: int| 0 <= i < b.len() implies !(#[trigger] b[i]).precedes_spec(a[0]) by {
                if i > 0 {
                    assert(!b[i].precedes_spec(b[0]));
                }
                assert(!b[0].precedes_spec(a[0]));
            }
            lemma_merged_above(a.skip(1), b, a[0]);
            (a[0], merged(a.skip(1), b))
        };
        let m = merged(a, b);
        assert(m =~= seq![x] + rest);
        assert forall|i: int, j: int| 0 <= i < j < m.len() implies !(#[trigger] m[j]).precedes_spec(
            #[trigger] m[i],
        ) by {
            assert(m[j] == rest[j - 1]);
            if i > 0 {
                assert(m[i] == rest[i - 1]);
            }
        }
    }
}

/// Sorting puts numbers in order.
pub proof fn law_sorted<T: Scalar>(s: Seq<T>)
    requires
        ordered::<T>(),
    ensures
        in_order(sorted_of(s)),
    decreases s.len(),
{
    if s.len() > 1 {
        let m = s.len() as int / 2;
        law_sorted(s.take(m));
        law_sorted(s.skip(m));
        lemma_merged_in_order(sorted_of(s.take(m)), sorted_of(s.skip(m)));
    }
}

fn merge<T: Scalar>(a: &[T], b: &[T]) -> (r: Vec<T>)
    ensures
        r@ == merged(a@, b@),
{
    let mut r: Vec<T> = Vec::new();
    let mut i: usize = 0;
    let mut j: usize = 0;
    assert(a@.skip(0) =~= a@);
    assert(b@.skip(0) =~= b@);
    while i < a.len() || j < b.len()
        invariant
            i <= a.len(),
            j <= b.len(),
            r@ + merged(a@.skip(i as int), b@.skip(j as int)) == merged(a@, b@),
        decreases a.len() - i + b.len() - j,
    {
        let ghost ra = a@.skip(i as int);
        let ghost rb = b@.skip(j as int);
        let ghost before = r@;
        if i >= a.len() || (j < b.len() && b[j].precedes(a[i])) {
            proof {
                assert(rb.skip(1) =~= b@.skip(j + 1));
                if ra.len() == 0 {
                    assert(merged(ra, rb) =~= seq![rb[0]] + merged(ra, rb.skip(1)));
                }
            }
            r.push(b[j]);
            j = j + 1;
            assert(r@ + merged(ra, b@.skip(j as int)) =~= before + merged(ra, rb));
        } else {
            proof {
                assert(ra.skip(1) =~= a@.skip(i + 1));
                if rb.len() == 0 {
                    assert(merged(ra, rb) =~= seq![ra[0]] + ra.skip(1));
                    assert(merged(ra.skip(1), rb) =~= ra.skip(1));
                }
            }
            r.push(a[i]);
            i = i + 1;
            assert(r@ + merged(a@.skip(i as int), rb) =~= before + merged(ra, rb));
        }
    }
    assert(a@.skip(i as int) =~= Seq::empty());
    assert(b@.skip(j as int) =~= Seq::empty());
    assert(r@ + Seq::empty() =~= r@);
    r
}

/// Sorts numbers.
pub fn sort<T: Scalar>(s: &[T]) -> (r: Vec<T>)
    ensures
        r@ == sorted_of(s@),
        r.len() == s.len(),
    decreases s.len(),
{
    proof {
        law_sort_permutes(s@);
    }
    if s.len() <= 1 {
        let mut r: Vec<T> = Vec::new();
        if s.len() == 1 {
            r.push(s[0]);
        }
        assert(r@ =~= s@);
        return r;
    }
    let m: usize = s.len() / 2;
    let left: Vec<T> = sort(&s[0..m]);
    let right: Vec<T> = sort(&s[m..s.len()]);
    assert(s@.subrange(0, m as int) =~= s@.take(m as int));
    assert(s@.subrange(m as int, s.len() as int) =~= s@.skip(m as int));
    merge(left.as_slice(), right.as_slice())
}

/// The value a fraction `q` of the way through sorted numbers: between the
/// neighbours of position `q * (n - 1)`, by linear interpolation.
pub open spec fn quantile_of<S: Scalar, D: Widens<S> + Analytic>(v: Seq<S>, q: D) -> D {
    let n = v.len() as int;
    let s = sorted_of(v);
    if n == 0 {
        zero()
    } else if n == 1 {
        D::widened_spec(s[0])
    } else {
        let pos = q.times_spec(D::from_count_spec((n - 1) as usize));
        let low = pos.rounded_down_spec();
        let lo = last_or(low.floor_count_spec() as int, n);
        let hi = last_or(pos.rounded_up_spec().floor_count_spec() as int, n);
        let below = D::widened_spec(s[lo]);
        below.plus_spec(
            pos.minus_spec(low).times_spec(D::widened_spec(s[hi]).minus_spec(below)),
        )
    }
}

/// An index, or the last one of `n` where it lies past them.
pub open spec fn last_or(i: int, n: int) -> int {
    if i >= n {
        n - 1
    } else {
        i
    }
}

/// The quantile `q` of some numbers; zero where there are none.
pub fn quantile_at<S: Scalar, D: Widens<S> + Analytic>(v: &[S], q: D) -> (r: D)
    ensures
        r == quantile_of(v@, q),
{
    let n: usize = v.len();
    if n == 0 {
        return D::ratio(0, 1);
    }
    let s: Vec<S> = sort(v);
    if n == 1 {
        return D::widened(s[0]);
    }
    let pos: D = q.times(D::from_count(n - 1));
    let low: D = pos.rounded_down();
    let lo: usize = low.floor_count();
    let hi: usize = pos.rounded_up().floor_count();
    let lo: usize = if lo >= n {
        n - 1
    } else {
        lo
    };
    let hi: usize = if hi >= n {
        n - 1
    } else {
        hi
    };
    let below: D = D::widened(s[lo]);
    below.plus(pos.minus(low).times(D::widened(s[hi]).minus(below)))
}

/// Of two different numbers, one precedes the other.
pub open spec fn distinguishes<T: Scalar>() -> bool {
    forall|x: T, y: T|
        #![trigger x.precedes_spec(y)]
        !x.precedes_spec(y) && !y.precedes_spec(x) ==> x == y
}

proof fn lemma_same_in_order<T: Scalar>(a: Seq<T>, b: Seq<T>)
    requires
        ordered::<T>(),
        distinguishes::<T>(),
        in_order(a),
        in_order(b),
        a.to_multiset() =~= b.to_multiset(),
    ensures
        a == b,
    decreases a.len(),
{
    broadcast use vstd::seq_lib::group_to_multiset_ensures;

    assert(a.len() == a.to_multiset().len());
    assert(b.len() == b.to_multiset().len());
    if a.len() > 0 {
        lemma_head(a);
        lemma_head(b);
        assert(a.contains(a[0]) && b.contains(b[0]));
        assert(b.to_multiset().count(a[0]) > 0);
        assert(a.to_multiset().count(b[0]) > 0);
        let i = b.index_of(a[0]);
        let j = a.index_of(b[0]);
        assert(b[i] == a[0] && a[j] == b[0]);
        assert(a[0] == b[0]) by {
            assert(i > 0 ==> !b[i].precedes_spec(b[0]));
            assert(j > 0 ==> !a[j].precedes_spec(a[0]));
            assert(a[0].precedes_spec(b[0]) ==> !b[0].precedes_spec(a[0]));
            assert(a[0].precedes_spec(a[0]) ==> !a[0].precedes_spec(a[0]));
        }
        let (x, y) = (a.skip(1), b.skip(1));
        assert(x.to_multiset() =~= a.to_multiset().remove(a[0]));
        assert(y.to_multiset() =~= b.to_multiset().remove(b[0]));
        assert forall|p: int, q: int| 0 <= p < q < x.len() implies !(#[trigger] x[q]).precedes_spec(
            #[trigger] x[p],
        ) by {
            assert(!a[q + 1].precedes_spec(a[p + 1]));
        }
        assert forall|p: int, q: int| 0 <= p < q < y.len() implies !(#[trigger] y[q]).precedes_spec(
            #[trigger] y[p],
        ) by {
            assert(!b[q + 1].precedes_spec(b[p + 1]));
        }
        lemma_same_in_order(x, y);
        assert(a =~= seq![a[0]] + x);
        assert(b =~= seq![b[0]] + y);
    } else {
        assert(a =~= b);
    }
}

/// Where the order of numbers tells them apart, sorted numbers and their quantiles
/// do not depend on the order in which the numbers stood.
pub proof fn law_order_does_not_matter<S: Scalar, D: Widens<S> + Analytic>(
    a: Seq<S>,
    b: Seq<S>,
    q: D,
)
    requires
        ordered::<S>(),
        distinguishes::<S>(),
        a.to_multiset() =~= b.to_multiset(),
    ensures
        sorted_of(a) == sorted_of(b),
        quantile_of::<S, D>(a, q) == quantile_of::<S, D>(b, q),
{
    law_sort_permutes(a);
    law_sort_permutes(b);
    law_sorted(a);
    law_sorted(b);
    lemma_same_in_order(sorted_of(a), sorted_of(b));
    broadcast use vstd::seq_lib::group_to_multiset_ensures;

    assert(a.len() == a.to_multiset().len());
    assert(b.len() == b.to_multiset().len());
}

/// The order of fixed-point numbers tells them apart.
pub proof fn law_fixed_distinguished()
    ensures
        ordered::<Fixed>(),
        distinguishes::<Fixed>(),
{
}

/// Rounding is exact besides arithmetic, for numbers from zero to the largest count.
pub open spec fn faithful_floors<D: Analytic>(u: spec_fn(D) -> real) -> bool {
    &&& faithful(u)
    &&& forall|x: D|
        0 as real <= u(x) <= usize::MAX as int as real ==> {
            let n = #[trigger] x.floor_count_spec();
            &&& n as int as real <= u(x) < n as int as real + 1 as real
            &&& u(x.rounded_down_spec()) == n as int as real
            &&& x.rounded_up_spec().floor_count_spec() == (if u(x) == n as int as real {
                n as int
            } else {
                n + 1
            })
        }
}

/// Numbers that are read as reals are ordered.
pub proof fn lemma_faithful_order<T: Scalar>(v: spec_fn(T) -> real)
    requires
        faithful(v),
    ensures
        ordered::<T>(),
{
}

/// A point between two numbers, a fraction `f` of the way.
proof fn lemma_between(f: real, low: real, high: real)
    requires
        0 as real <= f <= 1 as real,
        low <= high,
    ensures
        low <= low + prod(f, high - low) <= high,
{
    lemma_prod_sign(f, high - low);
    lemma_prod_sign(1 as real - f, high - low);
    lemma_prod_plus(high - low, 1 as real, f);
    lemma_prod(high - low, 1 as real);
    lemma_prod(high - low, f);
}

/// Where a quantile stands: after how many numbers, how far on, and between which.
pub proof fn lemma_quantile<S: Scalar, D: Widens<S> + Analytic>(
    v: spec_fn(S) -> real,
    u: spec_fn(D) -> real,
    a: Seq<S>,
    q: D,
) -> (r: (int, int, real))
    requires
        faithful(v),
        faithful_floors(u),
        faithful_widening::<S, D>(v, u),
        2 <= a.len() <= usize::MAX,
        0 as real <= u(q) <= 1 as real,
    ensures
        ({
            let s = sorted_of(a);
            let (lo, hi, f) = r;
            let pos = prod(u(q), (a.len() - 1) as real);
            &&& 0 <= lo <= hi < a.len()
            &&& hi <= lo + 1
            &&& f > 0 as real ==> hi == lo + 1
            &&& 0 as real <= f < 1 as real
            &&& pos == lo as real + f
            &&& u(quantile_of::<S, D>(a, q)) == v(s[lo]) + prod(f, v(s[hi]) - v(s[lo]))
        }),
{
    let n = a.len() as int;
    let s = sorted_of(a);
    let pos = q.times_spec(D::from_count_spec((n - 1) as usize));
    let low = pos.rounded_down_spec();
    let m = (n - 1) as real;
    lemma_prod_sign(u(q), m);
    lemma_prod_sign(1 as real - u(q), m);
    lemma_prod_plus(m, 1 as real, u(q));
    lemma_prod(m, 1 as real);
    lemma_prod(m, u(q));
    assert(u(pos) == prod(u(q), m));
    assert(0 as real <= u(pos) <= m);
    let c = pos.floor_count_spec();
    assert(c as int <= n - 1) by {
        assert(c as int as real <= m);
    }
    assert(u(low) == c as int as real);
    assert(low.floor_count_spec() == c) by {
        let e = low.floor_count_spec();
        assert(e as int as real <= c as int as real);
        assert((c as int as real) < e as int as real + 1 as real);
    }
    let hi = pos.rounded_up_spec().floor_count_spec() as int;
    let f = u(pos) - c as int as real;
    assert(hi <= n - 1) by {
        if u(pos) != c as int as real {
            assert((c as int as real) < m);
        }
    }
    (c as int, hi, f)
}

/// Where arithmetic is exact, a quantile lies between the least and the largest
/// number; the first is the least number and the last the largest.
pub proof fn law_quantile_within<S: Scalar, D: Widens<S> + Analytic>(
    v: spec_fn(S) -> real,
    u: spec_fn(D) -> real,
    a: Seq<S>,
    q: D,
)
    requires
        faithful(v),
        faithful_floors(u),
        faithful_widening::<S, D>(v, u),
        1 <= a.len() <= usize::MAX,
        0 as real <= u(q) <= 1 as real,
    ensures
        v(sorted_of(a)[0]) <= u(quantile_of::<S, D>(a, q)) <= v(sorted_of(a)[a.len() - 1]),
        u(q) == 0 as real ==> u(quantile_of::<S, D>(a, q)) == v(sorted_of(a)[0]),
        u(q) == 1 as real ==> u(quantile_of::<S, D>(a, q)) == v(sorted_of(a)[a.len() - 1]),
        forall|i: int|
            0 <= i < a.len() ==> v(sorted_of(a)[0]) <= v(#[trigger] sorted_of(a)[i])
                <= v(sorted_of(a)[a.len() - 1]),
{
    let s = sorted_of(a);
    let n = a.len() as int;
    lemma_faithful_order(v);
    law_sorted(a);
    law_sort_permutes(a);
    assert forall|i: int| 0 <= i < n implies v(s[0]) <= v(#[trigger] s[i]) <= v(s[n - 1]) by {
        if i > 0 {
            assert(!s[i].precedes_spec(s[0]));
        }
        if i < n - 1 {
            assert(!s[n - 1].precedes_spec(s[i]));
        }
    }
    if n > 1 {
        let (lo, hi, f) = lemma_quantile(v, u, a, q);
        if lo < hi {
            assert(!s[hi].precedes_spec(s[lo]));
        }
        lemma_between(f, v(s[lo]), v(s[hi]));
        lemma_prod((n - 1) as real, u(q));
        lemma_prod((n - 1) as real, 1 as real);
        lemma_prod((n - 1) as real, 0 as real);
        lemma_prod(v(s[hi]) - v(s[lo]), 0 as real);
        lemma_prod(f, v(s[hi]) - v(s[lo]));
        if u(q) == 0 as real {
            assert(lo as real + f == 0 as real);
            assert(lo == 0);
        }
        if u(q) == 1 as real {
            assert(lo as real + f == (n - 1) as real);
            assert(lo == n - 1) by {
                assert(lo as real > (n - 2) as real);
            }
        }
    }
}

/// Where arithmetic is exact, quantiles grow with their fraction.
pub proof fn law_quantile_grows<S: Scalar, D: Widens<S> + Analytic>(
    v: spec_fn(S) -> real,
    u: spec_fn(D) -> real,
    a: Seq<S>,
    p: D,
    q: D,
)
    requires
        faithful(v),
        faithful_floors(u),
        faithful_widening::<S, D>(v, u),
        1 <= a.len() <= usize::MAX,
        0 as real <= u(p) <= u(q) <= 1 as real,
    ensures
        u(quantile_of::<S, D>(a, p)) <= u(quantile_of::<S, D>(a, q)),
{
    let s = sorted_of(a);
    let n = a.len() as int;
    if n > 1 {
        lemma_faithful_order(v);
        law_sorted(a);
        law_sort_permutes(a);
        let (lo, hi, f) = lemma_quantile(v, u, a, p);
        let (lo2, hi2, f2) = lemma_quantile(v, u, a, q);
        let m = (n - 1) as real;
        lemma_prod_sign(u(q) - u(p), m);
        lemma_prod_plus(m, u(q), u(p));
        lemma_prod(m, u(q) - u(p));
        assert(lo as real + f <= lo2 as real + f2);
        assert(lo <= lo2) by {
            assert((lo as real) < lo2 as real + 1 as real);
        }
        if lo < hi {
            assert(!s[hi].precedes_spec(s[lo]));
        }
        if lo2 < hi2 {
            assert(!s[hi2].precedes_spec(s[lo2]));
        }
        lemma_between(f, v(s[lo]), v(s[hi]));
        lemma_between(f2, v(s[lo2]), v(s[hi2]));
        if lo == lo2 {
            let d = v(s[hi2]) - v(s[lo]);
            lemma_prod_sign(f2 - f, d);
            lemma_prod_plus(d, f2, f);
            lemma_prod(v(s[hi]) - v(s[lo]), 0 as real);
            lemma_prod(d, f);
            lemma_prod(d, f2 - f);
            if f == 0 as real {
                lemma_prod(f, v(s[hi]) - v(s[lo]));
            } else {
                assert(hi == hi2) by {
                    assert(f2 > 0 as real);
                }
            }
        } else if hi < lo2 {
            assert(!s[lo2].precedes_spec(s[hi]));
        }
    }
}

/// The numbers of `b` are those of `a` less `c`.
pub open spec fn shifted<T>(v: spec_fn(T) -> real, a: Seq<T>, b: Seq<T>, c: real) -> bool {
    &&& a.len() == b.len()
    &&& forall|i: int| 0 <= i < a.len() ==> v(#[trigger] b[i]) == v(a[i]) - c
}

proof fn lemma_shifted_part<T>(v: spec_fn(T) -> real, a: Seq<T>, b: Seq<T>, c: real, m: int)
    requires
        shifted(v, a, b, c),
        0 <= m <= a.len(),
    ensures
        shifted(v, a.take(m), b.take(m), c),
        shifted(v, a.skip(m), b.skip(m), c),
{
    assert forall|i: int| 0 <= i < m implies v(#[trigger] b.take(m)[i]) == v(a.take(m)[i]) - c by {
        assert(v(b[i]) == v(a[i]) - c);
    }
    assert forall|i: int| 0 <= i < a.len() - m implies v(#[trigger] b.skip(m)[i]) == v(
        a.skip(m)[i],
    ) - c by {
        assert(v(b[i + m]) == v(a[i + m]) - c);
    }
}

proof fn lemma_shifted_cons<T>(v: spec_fn(T) -> real, x: T, y: T, a: Seq<T>, b: Seq<T>, c: real)
    requires
        shifted(v, a, b, c),
        v(y) == v(x) - c,
    ensures
        shifted(v, seq![x] + a, seq![y] + b, c),
{
    let (s, t) = (seq![x] + a, seq![y] + b);
    assert forall|i: int| 0 <= i < s.len() implies v(#[trigger] t[i]) == v(s[i]) - c by {
        if i > 0 {
            assert(v(b[i - 1]) == v(a[i - 1]) - c);
            assert(t[i] == b[i - 1] && s[i] == a[i - 1]);
        }
    }
}

proof fn lemma_merged_shifted<T: Scalar>(
    v: spec_fn(T) -> real,
    a: Seq<T>,
    b: Seq<T>,
    a2: Seq<T>,
    b2: Seq<T>,
    c: real,
)
    requires
        faithful(v),
        shifted(v, a, a2, c),
        shifted(v, b, b2, c),
    ensures
        shifted(v, merged(a, b), merged(a2, b2), c),
    decreases a.len() + b.len(),
{
    if a.len() > 0 && b.len() > 0 {
        assert(v(a2[0]) == v(a[0]) - c);
        assert(v(b2[0]) == v(b[0]) - c);
        if b[0].precedes_spec(a[0]) {
            lemma_shifted_part(v, b, b2, c, 1);
            lemma_merged_shifted(v, a, b.skip(1), a2, b2.skip(1), c);
            lemma_shifted_cons(
                v,
                b[0],
                b2[0],
                merged(a, b.skip(1)),
                merged(a2, b2.skip(1)),
                c,
            );
        } else {
            lemma_shifted_part(v, a, a2, c, 1);
            lemma_merged_shifted(v, a.skip(1), b, a2.skip(1), b2, c);
            lemma_shifted_cons(
                v,
                a[0],
                a2[0],
                merged(a.skip(1), b),
                merged(a2.skip(1), b2),
                c,
            );
        }
    }
}

proof fn lemma_sorted_shifted<T: Scalar>(v: spec_fn(T) -> real, a: Seq<T>, b: Seq<T>, c: real)
    requires
        faithful(v),
        shifted(v, a, b, c),
    ensures
        shifted(v, sorted_of(a), sorted_of(b), c),
    decreases a.len(),
{
    if a.len() > 1 {
        let m = a.len() as int / 2;
        lemma_shifted_part(v, a, b, c, m);
        lemma_sorted_shifted(v, a.take(m), b.take(m), c);
        lemma_sorted_shifted(v, a.skip(m), b.skip(m), c);
        lemma_merged_shifted(
            v,
            sorted_of(a.take(m)),
            sorted_of(a.skip(m)),
            sorted_of(b.take(m)),
            sorted_of(b.skip(m)),
            c,
        );
    }
}

/// Where arithmetic is exact, numbers that are all moved by the same amount have
/// their quantiles moved by it.
pub proof fn law_quantile_moves<S: Scalar, D: Widens<S> + Analytic>(
    v: spec_fn(S) -> real,
    u: spec_fn(D) -> real,
    a: Seq<S>,
    b: Seq<S>,
    c: real,
    q: D,
)
    requires
        faithful(v),
        faithful(u),
        faithful_widening::<S, D>(v, u),
        shifted(v, a, b, c),
        a.len() >= 1,
    ensures
        u(quantile_of::<S, D>(b, q)) == u(quantile_of::<S, D>(a, q)) - c,
{
    let n = a.len() as int;
    let (s, t) = (sorted_of(a), sorted_of(b));
    lemma_sorted_shifted(v, a, b, c);
    law_sort_permutes(a);
    if n == 1 {
        assert(v(t[0]) == v(s[0]) - c);
    } else {
        let pos = q.times_spec(D::from_count_spec((n - 1) as usize));
        let low = pos.rounded_down_spec();
        let lo = last_or(low.floor_count_spec() as int, n);
        let hi = last_or(pos.rounded_up_spec().floor_count_spec() as int, n);
        assert(v(t[lo]) == v(s[lo]) - c);
        assert(v(t[hi]) == v(s[hi]) - c);
        let f = pos.minus_spec(low);
        let (x, y) = (D::widened_spec(s[lo]), D::widened_spec(s[hi]));
        let (x2, y2) = (D::widened_spec(t[lo]), D::widened_spec(t[hi]));
        assert(u(y2.minus_spec(x2)) == u(y.minus_spec(x)));
        assert(u(f.times_spec(y2.minus_spec(x2))) == u(f.times_spec(y.minus_spec(x))));
    }
}

} // verus!
