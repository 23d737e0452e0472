//! The k-th smallest of some numbers, and what lies a fraction of the way through them.

use crate::reals::{faithful, faithful_widening, lemma_prod, lemma_whole, prod};
use crate::reconstruct::percentile_of;
use crate::scalar::{Analytic, Scalar, Widens};
use crate::sort::{
    faithful_floors, law_sort_permutes, law_sorted, lemma_faithful_order, lemma_quantile, merged,
    quantile_of, sorted_of,
};
use vstd::prelude::*;

verus! {

/// How many of the places below `n` have a property.
pub open spec fn many(p: spec_fn(int) -> bool, n: nat) -> nat
    decreases n,
{
    if n == 0 {
        0
    } else {
        many(p, (n - 1) as nat) + (if p(n - 1) {
            1nat
        } else {
            0
        })
    }
}

/// The places of `member` whose value is below `x`.
pub open spec fn below(
    val: spec_fn(int) -> real,
    member: spec_fn(int) -> bool,
    x: real,
) -> spec_fn(int) -> bool {
    |i: int| member(i) && val(i) < x
}

/// The places of `member` whose value is at most `x`.
pub open spec fn up_to(
    val: spec_fn(int) -> real,
    member: spec_fn(int) -> bool,
    x: real,
) -> spec_fn(int) -> bool {
    |i: int| member(i) && val(i) <= x
}

/// `x` is the value that `k` of the members come before when they stand in order: at
/// most `k` of them are below it and more than `k` are not above it.
pub open spec fn ranks(
    val: spec_fn(int) -> real,
    member: spec_fn(int) -> bool,
    n: nat,
    k: int,
    x: real,
) -> bool {
    &&& many(below(val, member, x), n) <= k
    &&& many(up_to(val, member, x), n) > k
}

/// `x` lies a fraction `k + f` over one less than the members' number of the way
/// through them, between the `k`-th and the one after it.
pub open spec fn interpolates(
    val: spec_fn(int) -> real,
    member: spec_fn(int) -> bool,
    n: nat,
    k: int,
    f: real,
    lo: real,
    hi: real,
    x: real,
) -> bool {
    let c = many(member, n);
    &&& 0 <= k < c
    &&& 0 as real <= f < 1 as real
    &&& ranks(val, member, n, k, lo)
    &&& ranks(
        val,
        member,
        n,
        if k + 1 < c {
            k + 1
        } else {
            k
        },
        hi,
    )
    &&& x == lo + prod(f, hi - lo)
}

/// `x` lies a fraction `q` of the way through the members in order, by linear
/// interpolation between neighbours.
pub open spec fn percentile(
    val: spec_fn(int) -> real,
    member: spec_fn(int) -> bool,
    n: nat,
    q: real,
    x: real,
) -> bool {
    exists|k: int, f: real, lo: real, hi: real|
        #[trigger] interpolates(val, member, n, k, f, lo, hi, x) && prod(
            q,
            (many(member, n) - 1) as real,
        ) == k as real + f
}

/// More places have a weaker property.
proof fn lemma_many_more(p: spec_fn(int) -> bool, r: spec_fn(int) -> bool, n: nat)
    requires
        forall|i: int| 0 <= i < n && #[trigger] p(i) ==> r(i),
    ensures
        many(p, n) <= many(r, n),
    decreases n,
{
    if n > 0 {
        lemma_many_more(p, r, (n - 1) as nat);
        assert(p(n - 1) ==> r(n - 1));
    }
}

/// As many places have the same property.
pub proof fn lemma_many_agree(p: spec_fn(int) -> bool, r: spec_fn(int) -> bool, n: nat)
    requires
        forall|i: int| 0 <= i < n ==> #[trigger] p(i) == r(i),
    ensures
        many(p, n) == many(r, n),
{
    lemma_many_more(p, r, n);
    assert forall|i: int| 0 <= i < n && #[trigger] r(i) implies p(i) by {
        assert(p(i) == r(i));
    }
    lemma_many_more(r, p, n);
}

/// Where a place has a property, at least one has.
pub proof fn lemma_many_some(p: spec_fn(int) -> bool, n: nat, i: int)
    requires
        0 <= i < n,
        p(i),
    ensures
        many(p, n) > 0,
    decreases n,
{
    if i < n - 1 {
        lemma_many_some(p, (n - 1) as nat, i);
    }
}

/// There is one value of each rank.
proof fn lemma_rank_unique(
    val: spec_fn(int) -> real,
    member: spec_fn(int) -> bool,
    n: nat,
    k: int,
    x: real,
    y: real,
)
    requires
        ranks(val, member, n, k, x),
        ranks(val, member, n, k, y),
    ensures
        x == y,
{
    if x < y {
        lemma_many_more(up_to(val, member, x), below(val, member, y), n);
    } else if y < x {
        lemma_many_more(up_to(val, member, y), below(val, member, x), n);
    }
}

/// There is at most one value a fraction `q` of the way.
pub proof fn lemma_percentile_unique(
    val: spec_fn(int) -> real,
    member: spec_fn(int) -> bool,
    n: nat,
    q: real,
    x: real,
    y: real,
)
    requires
        percentile(val, member, n, q, x),
        percentile(val, member, n, q, y),
    ensures
        x == y,
{
    let (k, f, lo, hi) = choose|k: int, f: real, lo: real, hi: real|
        #[trigger] interpolates(val, member, n, k, f, lo, hi, x) && prod(
            q,
            (many(member, n) - 1) as real,
        ) == k as real + f;
    let (k2, f2, lo2, hi2) = choose|k: int, f: real, lo: real, hi: real|
        #[trigger] interpolates(val, member, n, k, f, lo, hi, y) && prod(
            q,
            (many(member, n) - 1) as real,
        ) == k as real + f;
    assert(k == k2) by {
        if k < k2 {
            assert(k + 1 <= k2);
            assert((k + 1) as real <= k2 as real);
        } else if k2 < k {
            assert(k2 + 1 <= k);
            assert((k2 + 1) as real <= k as real);
        }
    }
    let c = many(member, n);
    lemma_rank_unique(val, member, n, k, lo, lo2);
    lemma_rank_unique(
        val,
        member,
        n,
        if k + 1 < c {
            k + 1
        } else {
            k
        },
        hi,
        hi2,
    );
}

/// Values that agree have the same percentiles.
pub proof fn lemma_percentile_agree(
    val: spec_fn(int) -> real,
    member: spec_fn(int) -> bool,
    val2: spec_fn(int) -> real,
    member2: spec_fn(int) -> bool,
    n: nat,
    q: real,
    x: real,
)
    requires
        percentile(val, member, n, q, x),
        forall|i: int| 0 <= i < n ==> #[trigger] member(i) == member2(i),
        forall|i: int| 0 <= i < n && member(i) ==> #[trigger] val(i) == val2(i),
    ensures
        percentile(val2, member2, n, q, x),
{
    let (k, f, lo, hi) = choose|k: int, f: real, lo: real, hi: real|
        #[trigger] interpolates(val, member, n, k, f, lo, hi, x) && prod(
            q,
            (many(member, n) - 1) as real,
        ) == k as real + f;
    lemma_many_agree(member, member2, n);
    assert forall|i: int| 0 <= i < n && #[trigger] member(i) implies val(i) == val2(i) by {
        assert(val(i) == val2(i));
    }
    lemma_many_agree(below(val, member, lo), below(val2, member2, lo), n);
    lemma_many_agree(up_to(val, member, lo), up_to(val2, member2, lo), n);
    lemma_many_agree(below(val, member, hi), below(val2, member2, hi), n);
    lemma_many_agree(up_to(val, member, hi), up_to(val2, member2, hi), n);
    assert(interpolates(val2, member2, n, k, f, lo, hi, x));
}

// ---- counts in sequences ------------------------------------------------------

/// How many elements have a property.
pub open spec fn tally<S>(s: Seq<S>, p: spec_fn(S) -> bool) -> nat
    decreases s.len(),
{
    if s.len() == 0 {
        0
    } else {
        tally(s.drop_last(), p) + (if p(s.last()) {
            1nat
        } else {
            0
        })
    }
}

proof fn lemma_tally_add<S>(a: Seq<S>, b: Seq<S>, p: spec_fn(S) -> bool)
    ensures
        tally(a + b, p) == tally(a, p) + tally(b, p),
    decreases b.len(),
{
    if b.len() == 0 {
        assert(a + b =~= a);
    } else {
        lemma_tally_add(a, b.drop_last(), p);
        assert((a + b).drop_last() =~= a + b.drop_last());
        assert((a + b).last() == b.last());
    }
}

proof fn lemma_tally_merged<S: Scalar>(a: Seq<S>, b: Seq<S>, p: spec_fn(S) -> bool)
    ensures
        tally(merged(a, b), p) == tally(a, p) + tally(b, p),
    decreases a.len() + b.len(),
{
    if a.len() > 0 && b.len() > 0 {
        if b[0].precedes_spec(a[0]) {
            lemma_tally_merged(a, b.skip(1), p);
            lemma_tally_add(seq![b[0]], merged(a, b.skip(1)), p);
            lemma_tally_add(seq![b[0]], b.skip(1), p);
            assert(seq![b[0]] + b.skip(1) =~= b);
        } else {
            lemma_tally_merged(a.skip(1), b, p);
            lemma_tally_add(seq![a[0]], merged(a.skip(1), b), p);
            lemma_tally_add(seq![a[0]], a.skip(1), p);
            assert(seq![a[0]] + a.skip(1) =~= a);
        }
    }
}

proof fn lemma_tally_sorted<S: Scalar>(s: Seq<S>, p: spec_fn(S) -> bool)
    ensures
        tally(sorted_of(s), p) == tally(s, p),
    decreases s.len(),
{
    if s.len() > 1 {
        let m = s.len() as int / 2;
        lemma_tally_sorted(s.take(m), p);
        lemma_tally_sorted(s.skip(m), p);
        lemma_tally_merged(sorted_of(s.take(m)), sorted_of(s.skip(m)), p);
        lemma_tally_add(s.take(m), s.skip(m), p);
        assert(s.take(m) + s.skip(m) =~= s);
    }
}

proof fn lemma_tally_bounds<S>(s: Seq<S>, p: spec_fn(S) -> bool)
    ensures
        tally(s, p) <= s.len(),
        (forall|i: int| 0 <= i < s.len() ==> p(#[trigger] s[i])) ==> tally(s, p) == s.len(),
        (forall|i: int| 0 <= i < s.len() ==> !p(#[trigger] s[i])) ==> tally(s, p) == 0,
    decreases s.len(),
{
    if s.len() > 0 {
        lemma_tally_bounds(s.drop_last(), p);
        assert(s.last() == s[s.len() - 1]);
        assert(forall|i: int|
            0 <= i < s.len() - 1 ==> s.drop_last()[i] == #[trigger] s[i]);
    }
}

/// Numbers below `x`.
spec fn less_than<S>(v: spec_fn(S) -> real, x: real) -> spec_fn(S) -> bool {
    |e: S| v(e) < x
}

/// Numbers up to `x`.
spec fn at_most<S>(v: spec_fn(S) -> real, x: real) -> spec_fn(S) -> bool {
    |e: S| v(e) <= x
}

/// The `k`-th of sorted numbers has `k` before it.
proof fn lemma_sorted_rank<S: Scalar>(v: spec_fn(S) -> real, a: Seq<S>, k: int)
    requires
        faithful(v),
        0 <= k < a.len(),
    ensures
        sorted_of(a).len() == a.len(),
        tally(a, less_than(v, v(sorted_of(a)[k]))) <= k,
        tally(a, at_most(v, v(sorted_of(a)[k]))) > k,
{
    let s = sorted_of(a);
    lemma_faithful_order(v);
    law_sorted(a);
    law_sort_permutes(a);
    let x = v(s[k]);
    let p = less_than(v, x);
    let r = at_most(v, x);
    lemma_tally_sorted(a, p);
    lemma_tally_sorted(a, r);
    assert(s.take(k) + s.skip(k) =~= s);
    lemma_tally_add(s.take(k), s.skip(k), p);
    lemma_tally_bounds(s.take(k), p);
    assert forall|i: int| 0 <= i < s.skip(k).len() implies !p(#[trigger] s.skip(k)[i]) by {
        if i > 0 {
            assert(!s[k + i].precedes_spec(s[k]));
        }
    }
    lemma_tally_bounds(s.skip(k), p);
    assert(s.take(k + 1) + s.skip(k + 1) =~= s);
    lemma_tally_add(s.take(k + 1), s.skip(k + 1), r);
    assert forall|i: int| 0 <= i < s.take(k + 1).len() implies r(#[trigger] s.take(k + 1)[i]) by {
        if i < k {
            assert(!s[k].precedes_spec(s[i]));
        }
    }
    lemma_tally_bounds(s.take(k + 1), r);
}

/// `a` lists the values of the members, in whatever order.
pub open spec fn lists<S>(
    a: Seq<S>,
    el: spec_fn(int) -> S,
    member: spec_fn(int) -> bool,
    n: nat,
) -> bool {
    forall|p: spec_fn(S) -> bool|
        #![trigger tally(a, p)]
        tally(a, p) == many(|i: int| member(i) && p(el(i)), n)
}

/// Where arithmetic is exact, the quantile of listed numbers lies a fraction `q` of
/// the way through them.
pub proof fn law_quantile_is_percentile<S: Scalar, D: Widens<S> + Analytic>(
    v: spec_fn(S) -> real,
    u: spec_fn(D) -> real,
    a: Seq<S>,
    el: spec_fn(int) -> S,
    member: spec_fn(int) -> bool,
    n: nat,
    q: D,
)
    requires
        faithful(v),
        faithful_floors(u),
        faithful_widening::<S, D>(v, u),
        1 <= a.len() <= usize::MAX,
        lists(a, el, member, n),
        0 as real <= u(q) <= 1 as real,
    ensures
        percentile(|i: int| v(el(i)), member, n, u(q), u(quantile_of::<S, D>(a, q))),
{
    let val = |i: int| v(el(i));
    let s = sorted_of(a);
    let x = u(quantile_of::<S, D>(a, q));
    let all = |e: S| true;
    lemma_tally_bounds(a, all);
    let c = many(member, n);
    assert(c == a.len()) by {
        assert(tally(a, all) == many(|i: int| member(i) && all(el(i)), n));
        lemma_many_agree(member, |i: int| member(i) && all(el(i)), n);
    }
    assert forall|k: int| 0 <= k < c implies ranks(val, member, n, k, v(#[trigger] s[k])) by {
        lemma_sorted_rank(v, a, k);
        let y = v(s[k]);
        let (p, r) = (less_than(v, y), at_most(v, y));
        assert(tally(a, p) == many(|i: int| member(i) && p(el(i)), n));
        assert(tally(a, r) == many(|i: int| member(i) && r(el(i)), n));
        lemma_many_agree(below(val, member, y), |i: int| member(i) && p(el(i)), n);
        lemma_many_agree(up_to(val, member, y), |i: int| member(i) && r(el(i)), n);
    }
    if c == 1 {
        lemma_prod(u(q), 0 as real);
        lemma_prod(0 as real, 0 as real);
        assert((c - 1) as real == 0 as real);
        assert(s == a);
        assert(ranks(val, member, n, 0, v(s[0])));
        assert(interpolates(val, member, n, 0, 0 as real, v(s[0]), v(s[0]), x));
    } else {
        let (lo, hi, f) = lemma_quantile(v, u, a, q);
        let next = if lo + 1 < c {
            lo + 1
        } else {
            lo
        };
        assert(ranks(val, member, n, lo, v(s[lo])));
        assert(ranks(val, member, n, next, v(s[next])));
        if f == 0 as real {
            lemma_prod(v(s[hi]) - v(s[lo]), 0 as real);
            lemma_prod(v(s[next]) - v(s[lo]), 0 as real);
            lemma_prod(f, v(s[hi]) - v(s[lo]));
            lemma_prod(f, v(s[next]) - v(s[lo]));
        }
        assert(interpolates(val, member, n, lo, f, v(s[lo]), v(s[next]), x));
    }
}

/// Every place.
pub open spec fn every_place() -> spec_fn(int) -> bool {
    |i: int| true
}

/// A sequence lists its own elements.
proof fn lemma_lists_itself<S>(a: Seq<S>, p: spec_fn(S) -> bool)
    ensures
        tally(a, p) == many(|i: int| every_place()(i) && p(a[i]), a.len()),
    decreases a.len(),
{
    if a.len() > 0 {
        let b = a.drop_last();
        lemma_lists_itself(b, p);
        let g = |i: int| every_place()(i) && p(a[i]);
        let h = |i: int| every_place()(i) && p(b[i]);
        assert forall|i: int| 0 <= i < b.len() implies #[trigger] h(i) == g(i) by {
            assert(b[i] == a[i]);
        }
        lemma_many_agree(h, g, b.len());
    }
}

/// All places are as many as there are.
proof fn lemma_every_place(n: nat)
    ensures
        many(every_place(), n) == n,
    decreases n,
{
    if n > 0 {
        lemma_every_place((n - 1) as nat);
    }
}

/// A hundred times.
proof fn lemma_hundred(a: real)
    ensures
        prod(a, 100 as real) == (100 as real) * a,
{
    reveal(prod);
}

/// Where arithmetic is exact, the percentile `p` of some numbers lies `p` hundredths of
/// the way through them in order: at the place `p * (n - 1) / 100`, counted from zero,
/// by linear interpolation between neighbours.
pub proof fn law_percentile<S: Scalar, D: Widens<S> + Analytic>(
    v: spec_fn(S) -> real,
    u: spec_fn(D) -> real,
    a: Seq<S>,
    p: D,
    q: real,
)
    requires
        faithful(v),
        faithful_floors(u),
        faithful_widening::<S, D>(v, u),
        1 <= a.len() <= usize::MAX,
        (100 as real) * q == u(p),
        0 as real <= q <= 1 as real,
    ensures
        many(every_place(), a.len()) == a.len(),
        percentile(|i: int| v(a[i]), every_place(), a.len(), q, u(percentile_of::<S, D>(a, p))),
{
    lemma_every_place(a.len());
    let el = |i: int| a[i];
    assert forall|r: spec_fn(S) -> bool|
        #![trigger tally(a, r)]
        tally(a, r) == many(|i: int| every_place()(i) && r(el(i)), a.len()) by {
        lemma_lists_itself(a, r);
        lemma_many_agree(
            |i: int| every_place()(i) && r(a[i]),
            |i: int| every_place()(i) && r(el(i)),
            a.len(),
        );
    }
    let f = p.over_spec(D::ratio_spec(100, 1));
    lemma_whole::<D>(u, 100);
    lemma_hundred(u(f));
    assert(u(f) == q);
    law_quantile_is_percentile(v, u, a, el, every_place(), a.len(), f);
    lemma_percentile_agree(
        |i: int| v(el(i)),
        every_place(),
        |i: int| v(a[i]),
        every_place(),
        a.len(),
        q,
        u(percentile_of::<S, D>(a, p)),
    );
}

} // verus!
