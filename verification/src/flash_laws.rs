//! Attention as a weighted mean, where arithmetic is exact.

use crate::flash_attn::{
    core_row, dot_term, online_from, online_key, online_keys, online_result, online_start,
    online_tile, running_max, score, softmax_row, stored_row, tile_scores, value_term,
    weight_term, weights, Core, Online,
};
use crate::index::{accumulate, lemma_accumulate_agree};
use crate::linalg_laws::lemma_four_factors;
use crate::reals::{
    faithful, lemma_accumulate, lemma_prod, lemma_prod_cancel, lemma_prod_plus,
    lemma_prod_regroup, lemma_prod_sign, lemma_sum_agree, lemma_sum_times,
    lemma_whole, prod, sum,
};
use crate::scalar::{one, zero, Analytic};
use vstd::prelude::*;

verus! {

/// Exponentials are exact besides arithmetic: `ex` is the exponential of a real.
pub open spec fn faithful_exp<T: Analytic>(v: spec_fn(T) -> real, ex: spec_fn(real) -> real) -> bool {
    &&& faithful(v)
    &&& forall|x: T| v(#[trigger] x.exponential_spec()) == ex(v(x))
    &&& forall|a: real| #[trigger] ex(a) > 0 as real
    &&& forall|a: real, b: real| prod(#[trigger] ex(a - b), ex(b)) == ex(a)
}

/// The weight of key `j` before weights are made to add up to one.
pub open spec fn weight_at<T: Analytic>(
    v: spec_fn(T) -> real,
    ex: spec_fn(real) -> real,
    q: Seq<T>,
    k: Seq<T>,
    hd: int,
    scale: T,
) -> spec_fn(int) -> real {
    |j: int| ex(v(score(q, k, hd, scale, j)))
}

/// The weighted value of key `j` in column `d`.
pub open spec fn weighted_at<T: Analytic>(
    v: spec_fn(T) -> real,
    ex: spec_fn(real) -> real,
    q: Seq<T>,
    k: Seq<T>,
    val: Seq<T>,
    hd: int,
    scale: T,
    d: int,
) -> spec_fn(int) -> real {
    |j: int| prod(weight_at(v, ex, q, k, hd, scale)(j), v(val[j * hd + d]))
}

/// No score is the lowest number.
pub open spec fn scores_compare<T: Analytic>(q: Seq<T>, k: Seq<T>, n: int, hd: int, scale: T) -> bool {
    forall|j: int|
        0 <= j < n ==> T::lowest_spec().less_spec(#[trigger] score(q, k, hd, scale, j))
}

/// A sum goes on where another ends.
proof fn lemma_sum_concat(f: spec_fn(int) -> real, m: nat, r: nat)
    ensures
        sum(f, m + r) == sum(f, m) + sum(|i: int| f(m + i), r),
    decreases r,
{
    let g = |i: int| f(m + i);
    if r > 0 {
        lemma_sum_concat(f, m, (r - 1) as nat);
        assert(sum(g, r) == sum(g, (r - 1) as nat) + g(r - 1));
        assert(g(r - 1) == f(m + r - 1));
    }
}

proof fn lemma_running_max<T: Analytic>(v: spec_fn(T) -> real, start: T, s: Seq<T>, n: nat)
    requires
        faithful(v),
        n <= s.len(),
    ensures
        v(running_max(start, s, n)) >= v(start),
        forall|j: int| 0 <= j < n ==> v(running_max(start, s, n)) >= v(#[trigger] s[j]),
    decreases n,
{
    if n > 0 {
        lemma_running_max(v, start, s, (n - 1) as nat);
    }
}

/// The state of an online softmax after `m` keys: what was gathered, times the
/// exponential of the maximum, is the sum of the weights and of the weighted
/// values.
spec fn gathered<T: Analytic>(
    v: spec_fn(T) -> real,
    ex: spec_fn(real) -> real,
    st: Online<T>,
    q: Seq<T>,
    k: Seq<T>,
    val: Seq<T>,
    hd: int,
    scale: T,
    m: nat,
) -> bool {
    &&& st.acc.len() == hd
    &&& prod(v(st.sum), ex(v(st.max))) == sum(weight_at(v, ex, q, k, hd, scale), m)
    &&& forall|d: int|
        0 <= d < hd ==> prod(v(#[trigger] st.acc[d]), ex(v(st.max))) == sum(
            weighted_at(v, ex, q, k, val, hd, scale, d),
            m,
        )
}

proof fn lemma_tile<T: Analytic>(
    v: spec_fn(T) -> real,
    ex: spec_fn(real) -> real,
    st: Online<T>,
    q: Seq<T>,
    k: Seq<T>,
    val: Seq<T>,
    hd: int,
    scale: T,
    m: nat,
    rows: nat,
)
    requires
        faithful_exp(v, ex),
        rows > 0,
        0 <= hd,
        gathered(v, ex, st, q, k, val, hd, scale, m),
        scores_compare(q, k, (m + rows) as int, hd, scale),
    ensures
        gathered(
            v,
            ex,
            online_tile(st, tile_scores(q, k, hd, scale, m as int, rows as int), val, hd, m as int),
            q,
            k,
            val,
            hd,
            scale,
            m + rows,
        ),
{
    let scores = tile_scores(q, k, hd, scale, m as int, rows as int);
    let low = T::lowest_spec();
    let top = running_max(low, scores, scores.len());
    lemma_running_max(v, low, scores, scores.len());
    assert(scores[0] == score(q, k, hd, scale, m as int));
    assert(low.less_spec(score(q, k, hd, scale, m as int)));
    assert(v(top) >= v(scores[0]));
    assert(!top.same_spec(low));
    let next = online_tile(st, scores, val, hd, m as int);
    let max = next.max;
    let (em, eo) = (ex(v(max)), ex(v(st.max)));
    let factor = st.max.minus_spec(max).exponential_spec();
    let raised = st.max.less_spec(max);
    assert(prod(v(factor), em) == eo) by {
        assert(v(factor) == ex(v(st.max) - v(max)));
    }
    assert(!raised ==> v(st.max) == v(max));
    let e = weights(scores, max);
    // one key's weight
    assert forall|j: int| 0 <= j < rows implies prod(v(#[trigger] e[j]), em) == weight_at(
        v,
        ex,
        q,
        k,
        hd,
        scale,
    )(m + j) by {
        assert(scores[j] == score(q, k, hd, scale, m + j));
        assert(v(e[j]) == ex(v(scores[j]) - v(max)));
    }
    lemma_whole::<T>(v, 0);
    let wf = weight_at(v, ex, q, k, hd, scale);
    {
        let f = weight_term(e);
        let g = |j: int| v(f(j));
        lemma_accumulate(v, zero(), f, rows);
        lemma_sum_times(g, em, rows);
        let h = |j: int| prod(em, g(j));
        let part = |i: int| wf(m + i);
        assert forall|j: int| 0 <= j < rows implies #[trigger] h(j) == part(j) by {
            assert(prod(v(e[j]), em) == wf(m + j));
            lemma_prod(v(e[j]), em);
        }
        lemma_sum_agree(h, part, rows);
        lemma_sum_concat(wf, m, rows);
        let old = if raised {
            st.sum.times_spec(factor)
        } else {
            st.sum
        };
        lemma_prod_regroup(v(st.sum), v(factor), em);
        assert(prod(v(old), em) == prod(v(st.sum), eo));
        let add = accumulate(zero(), f, e.len());
        lemma_prod_plus(em, v(old), v(add));
        lemma_prod(em, v(add));
        assert(next.sum == old.plus_spec(add));
    }
    assert forall|d: int| 0 <= d < hd implies prod(v(#[trigger] next.acc[d]), em) == sum(
        weighted_at(v, ex, q, k, val, hd, scale, d),
        m + rows,
    ) by {
        let vf = weighted_at(v, ex, q, k, val, hd, scale, d);
        let f = value_term(e, val, hd, m as int, d);
        let g = |j: int| v(f(j));
        lemma_accumulate(v, zero(), f, rows);
        lemma_sum_times(g, em, rows);
        let h = |j: int| prod(em, g(j));
        let part = |i: int| vf(m + i);
        assert forall|j: int| 0 <= j < rows implies #[trigger] h(j) == part(j) by {
            assert(prod(v(e[j]), em) == wf(m + j));
            let x = v(val[(m + j) * hd + d]);
            lemma_prod_regroup(em, v(e[j]), x);
            lemma_prod(em, v(e[j]));
        }
        lemma_sum_agree(h, part, rows);
        lemma_sum_concat(vf, m, rows);
        let old = if raised {
            st.acc[d].times_spec(factor)
        } else {
            st.acc[d]
        };
        lemma_prod_regroup(v(st.acc[d]), v(factor), em);
        assert(prod(v(st.acc[d]), eo) == sum(vf, m));
        assert(prod(v(old), em) == prod(v(st.acc[d]), eo));
        let add = accumulate(zero(), f, e.len());
        lemma_prod_plus(em, v(old), v(add));
        lemma_prod(em, v(add));
        assert(next.acc[d] == old.plus_spec(add));
    }
}

proof fn lemma_tiles<T: Analytic>(
    v: spec_fn(T) -> real,
    ex: spec_fn(real) -> real,
    st: Online<T>,
    q: Seq<T>,
    k: Seq<T>,
    val: Seq<T>,
    n: int,
    hd: int,
    scale: T,
    m: int,
)
    requires
        faithful_exp(v, ex),
        0 <= hd,
        0 <= m <= n,
        gathered(v, ex, st, q, k, val, hd, scale, m as nat),
        scores_compare(q, k, n, hd, scale),
    ensures
        gathered(
            v,
            ex,
            online_from(st, q, k, val, n, hd, scale, m),
            q,
            k,
            val,
            hd,
            scale,
            n as nat,
        ),
    decreases n - m,
{
    if m < n {
        let rows = if n - m < 64 {
            n - m
        } else {
            64
        };
        lemma_tile(v, ex, st, q, k, val, hd, scale, m as nat, rows as nat);
        let next = online_tile(st, tile_scores(q, k, hd, scale, m, rows), val, hd, m);
        lemma_tiles(v, ex, next, q, k, val, n, hd, scale, m + rows);
    }
}

proof fn lemma_sum_positive(f: spec_fn(int) -> real, n: nat)
    requires
        forall|i: int| 0 <= i < n ==> #[trigger] f(i) > 0 as real,
    ensures
        n > 0 ==> sum(f, n) > 0 as real,
        sum(f, n) >= 0 as real,
    decreases n,
{
    if n > 0 {
        lemma_sum_positive(f, (n - 1) as nat);
        assert(f(n - 1) > 0 as real);
    }
}

/// What an online softmax gives at its end: the mean of the values.
proof fn lemma_result<T: Analytic>(
    v: spec_fn(T) -> real,
    ex: spec_fn(real) -> real,
    st: Online<T>,
    q: Seq<T>,
    k: Seq<T>,
    val: Seq<T>,
    n: int,
    hd: int,
    scale: T,
    d: int,
)
    requires
        faithful_exp(v, ex),
        0 < n,
        0 <= d < hd,
        gathered(v, ex, st, q, k, val, hd, scale, n as nat),
        sum(weight_at(v, ex, q, k, hd, scale), n as nat) > 0 as real,
    ensures
        prod(
            v(online_result(st)[d]),
            sum(weight_at(v, ex, q, k, hd, scale), n as nat),
        ) == sum(weighted_at(v, ex, q, k, val, hd, scale, d), n as nat),
{
    lemma_whole::<T>(v, 0);
    lemma_whole::<T>(v, 1);
    let em = ex(v(st.max));
    lemma_prod(em, v(st.sum));
    lemma_prod_sign(em, v(st.sum));
    assert(v(st.sum) > 0 as real);
    let inv = one::<T>().over_spec(st.sum);
    assert(prod(v(inv), v(st.sum)) == 1 as real);
    let a = v(st.acc[d]);
    assert(prod(a, em) == sum(weighted_at(v, ex, q, k, val, hd, scale, d), n as nat));
    assert(online_result(st)[d] == st.acc[d].times_spec(inv));
    // a * inv * (sum * em) == a * em
    lemma_prod_regroup(a, v(inv), prod(v(st.sum), em));
    lemma_prod_regroup(v(inv), v(st.sum), em);
    lemma_prod(em, 1 as real);
}

/// One key after the others.
proof fn lemma_key<T: Analytic>(
    v: spec_fn(T) -> real,
    ex: spec_fn(real) -> real,
    st: Online<T>,
    q: Seq<T>,
    k: Seq<T>,
    val: Seq<T>,
    hd: int,
    scale: T,
    m: nat,
)
    requires
        faithful_exp(v, ex),
        gathered(v, ex, st, q, k, val, hd, scale, m),
    ensures
        gathered(
            v,
            ex,
            online_key(st, q, k, val, hd, scale, m as int),
            q,
            k,
            val,
            hd,
            scale,
            m + 1,
        ),
{
    lemma_whole::<T>(v, 1);
    let next = online_key(st, q, k, val, hd, scale, m as int);
    let s = score(q, k, hd, scale, m as int);
    let wf = weight_at(v, ex, q, k, hd, scale);
    let (em, eo) = (ex(v(next.max)), ex(v(st.max)));
    let factor = v(st.max.minus_spec(s).exponential_spec());
    let e = v(s.minus_spec(st.max).exponential_spec());
    assert(factor == ex(v(st.max) - v(s)) && prod(factor, ex(v(s))) == eo);
    assert(e == ex(v(s) - v(st.max)) && prod(e, eo) == ex(v(s)));
    let raised = st.max.less_spec(s);
    lemma_prod_regroup(v(st.sum), factor, em);
    lemma_prod_plus(em, prod(v(st.sum), factor), 1 as real);
    lemma_prod_plus(em, v(st.sum), e);
    lemma_prod(em, 1 as real);
    lemma_prod(1 as real, em);
    assert(prod(v(next.sum), em) == sum(wf, m) + wf(m as int));
    assert forall|d: int| 0 <= d < hd implies prod(v(#[trigger] next.acc[d]), em) == sum(
        weighted_at(v, ex, q, k, val, hd, scale, d),
        m + 1,
    ) by {
        let vf = weighted_at(v, ex, q, k, val, hd, scale, d);
        let (a, x) = (v(st.acc[d]), v(val[m * hd + d]));
        assert(prod(a, eo) == sum(vf, m));
        lemma_prod_regroup(a, factor, em);
        lemma_prod_plus(em, prod(a, factor), x);
        lemma_prod_plus(em, a, prod(e, x));
        lemma_prod(em, x);
        lemma_prod_regroup(em, e, x);
        lemma_prod(em, e);
        lemma_prod(em, prod(e, x));
        assert(vf(m as int) == prod(ex(v(s)), x));
    }
}

proof fn lemma_keys<T: Analytic>(
    v: spec_fn(T) -> real,
    ex: spec_fn(real) -> real,
    q: Seq<T>,
    k: Seq<T>,
    val: Seq<T>,
    hd: int,
    scale: T,
    m: nat,
)
    requires
        faithful_exp(v, ex),
        0 <= hd,
    ensures
        gathered(v, ex, online_keys(q, k, val, hd, scale, m), q, k, val, hd, scale, m),
    decreases m,
{
    if m == 0 {
        lemma_start(v, ex, q, k, val, hd, scale);
    } else {
        let b = (m - 1) as nat;
        lemma_keys(v, ex, q, k, val, hd, scale, b);
        lemma_key(v, ex, online_keys(q, k, val, hd, scale, b), q, k, val, hd, scale, b);
    }
}

proof fn lemma_start<T: Analytic>(
    v: spec_fn(T) -> real,
    ex: spec_fn(real) -> real,
    q: Seq<T>,
    k: Seq<T>,
    val: Seq<T>,
    hd: int,
    scale: T,
)
    requires
        faithful_exp(v, ex),
        0 <= hd,
    ensures
        gathered(v, ex, online_start::<T>(hd), q, k, val, hd, scale, 0),
{
    let start = online_start::<T>(hd);
    lemma_whole::<T>(v, 0);
    let e0 = ex(v(start.max));
    lemma_prod(e0, 0 as real);
    lemma_prod(0 as real, e0);
}

/// All scores stored: the mean of the values.
proof fn lemma_stored<T: Analytic>(
    v: spec_fn(T) -> real,
    ex: spec_fn(real) -> real,
    q: Seq<T>,
    k: Seq<T>,
    val: Seq<T>,
    n: int,
    hd: int,
    scale: T,
    d: int,
)
    requires
        faithful_exp(v, ex),
        0 < n,
        0 <= d < hd,
        sum(weight_at(v, ex, q, k, hd, scale), n as nat) > 0 as real,
    ensures
        prod(
            v(stored_row(q, k, val, n, hd, scale)[d]),
            sum(weight_at(v, ex, q, k, hd, scale), n as nat),
        ) == sum(weighted_at(v, ex, q, k, val, hd, scale, d), n as nat),
{
    lemma_whole::<T>(v, 0);
    lemma_whole::<T>(v, 1);
    let c = n as nat;
    let scores = tile_scores(q, k, hd, scale, 0, n);
    let max = running_max(T::lowest_spec(), scores, scores.len());
    let e = weights(scores, max);
    let em = ex(v(max));
    let wf = weight_at(v, ex, q, k, hd, scale);
    let vf = weighted_at(v, ex, q, k, val, hd, scale, d);
    let total = sum(wf, c);
    assert forall|j: int| 0 <= j < n implies prod(v(#[trigger] e[j]), em) == wf(j) by {
        assert(scores[j] == score(q, k, hd, scale, j));
        assert(v(e[j]) == ex(v(scores[j]) - v(max)));
    }
    // the weights add up to the total over the exponential of the maximum
    let f = weight_term(e);
    let g = |j: int| v(f(j));
    let all = accumulate(zero(), f, e.len());
    lemma_accumulate(v, zero(), f, c);
    lemma_sum_times(g, em, c);
    let h = |j: int| prod(em, g(j));
    assert forall|j: int| 0 <= j < n implies #[trigger] h(j) == wf(j) by {
        assert(prod(v(e[j]), em) == wf(j));
        lemma_prod(v(e[j]), em);
    }
    lemma_sum_agree(h, wf, c);
    assert(prod(em, v(all)) == total);
    lemma_prod_sign(em, v(all));
    let inv = v(one::<T>().over_spec(all));
    assert(prod(inv, v(all)) == 1 as real);
    // each weight, made to add up to one, times the total
    let p = softmax_row(scores);
    let term = value_term(p, val, hd, 0, d);
    let t = |j: int| v(term(j));
    lemma_accumulate(v, zero(), term, c);
    lemma_sum_times(t, total, c);
    let u = |j: int| prod(total, t(j));
    assert forall|j: int| 0 <= j < n implies #[trigger] u(j) == vf(j) by {
        let x = v(val[j * hd + d]);
        assert(v(p[j]) == prod(v(e[j]), inv));
        assert(prod(v(e[j]), em) == wf(j));
        lemma_four_factors(v(e[j]), inv, em, v(all));
        lemma_prod(wf(j), 1 as real);
        lemma_prod(v(p[j]), total);
        lemma_prod_regroup(total, v(p[j]), x);
    }
    lemma_sum_agree(u, vf, c);
    lemma_prod(total, sum(t, c));
}

/// Where arithmetic is exact, attention gives the mean of the values, each weighted
/// with the exponential of its key's score, whichever way it is computed.
pub proof fn law_attention_is_mean<T: Analytic>(
    v: spec_fn(T) -> real,
    ex: spec_fn(real) -> real,
    core: Core,
    q: Seq<T>,
    k: Seq<T>,
    val: Seq<T>,
    n: int,
    hd: int,
    scale: T,
    d: int,
)
    requires
        faithful_exp(v, ex),
        0 < n,
        0 <= d < hd,
        core == Core::Tiled ==> scores_compare(q, k, n, hd, scale),
    ensures
        sum(weight_at(v, ex, q, k, hd, scale), n as nat) > 0 as real,
        prod(
            v(core_row(core, q, k, val, n, hd, scale)[d]),
            sum(weight_at(v, ex, q, k, hd, scale), n as nat),
        ) == sum(weighted_at(v, ex, q, k, val, hd, scale, d), n as nat),
{
    let wf = weight_at(v, ex, q, k, hd, scale);
    assert forall|i: int| 0 <= i < n implies #[trigger] wf(i) > 0 as real by {}
    lemma_sum_positive(wf, n as nat);
    match core {
        Core::Tiled => {
            let start = online_start::<T>(hd);
            lemma_start(v, ex, q, k, val, hd, scale);
            lemma_tiles(v, ex, start, q, k, val, n, hd, scale, 0);
            let st = online_from(start, q, k, val, n, hd, scale, 0);
            lemma_result(v, ex, st, q, k, val, n, hd, scale, d);
        },
        Core::KeyByKey => {
            lemma_keys(v, ex, q, k, val, hd, scale, n as nat);
            let st = online_keys(q, k, val, hd, scale, n as nat);
            lemma_result(v, ex, st, q, k, val, n, hd, scale, d);
        },
        Core::Stored => {
            lemma_stored(v, ex, q, k, val, n, hd, scale, d);
        },
    }
}

/// Where arithmetic is exact, tiles of keys, single keys and stored scores attend
/// alike.
pub proof fn law_cores_agree<T: Analytic>(
    v: spec_fn(T) -> real,
    ex: spec_fn(real) -> real,
    one: Core,
    other: Core,
    q: Seq<T>,
    k: Seq<T>,
    val: Seq<T>,
    n: int,
    hd: int,
    scale: T,
    d: int,
)
    requires
        faithful_exp(v, ex),
        0 < n,
        0 <= d < hd,
        scores_compare(q, k, n, hd, scale),
    ensures
        v(core_row(one, q, k, val, n, hd, scale)[d]) == v(
            core_row(other, q, k, val, n, hd, scale)[d],
        ),
{
    law_attention_is_mean(v, ex, one, q, k, val, n, hd, scale, d);
    law_attention_is_mean(v, ex, other, q, k, val, n, hd, scale, d);
    let total = sum(weight_at(v, ex, q, k, hd, scale), n as nat);
    let (a, b) = (
        v(core_row(one, q, k, val, n, hd, scale)[d]),
        v(core_row(other, q, k, val, n, hd, scale)[d]),
    );
    lemma_prod(total, a);
    lemma_prod(total, b);
    lemma_prod_cancel(total, a, b);
}

/// Where arithmetic is exact, attention stays between bounds of the values.
pub proof fn law_attention_within<T: Analytic>(
    v: spec_fn(T) -> real,
    ex: spec_fn(real) -> real,
    core: Core,
    q: Seq<T>,
    k: Seq<T>,
    val: Seq<T>,
    n: int,
    hd: int,
    scale: T,
    d: int,
    low: real,
    high: real,
)
    requires
        faithful_exp(v, ex),
        0 < n,
        0 <= d < hd,
        core == Core::Tiled ==> scores_compare(q, k, n, hd, scale),
        forall|j: int| 0 <= j < n ==> low <= v(#[trigger] val[j * hd + d]) <= high,
    ensures
        low <= v(core_row(core, q, k, val, n, hd, scale)[d]) <= high,
{
    law_attention_is_mean(v, ex, core, q, k, val, n, hd, scale, d);
    let wf = weight_at(v, ex, q, k, hd, scale);
    let vf = weighted_at(v, ex, q, k, val, hd, scale, d);
    let total = sum(wf, n as nat);
    let x = v(core_row(core, q, k, val, n, hd, scale)[d]);
    lemma_sum_times(wf, low, n as nat);
    lemma_sum_times(wf, high, n as nat);
    let lows = |j: int| prod(low, wf(j));
    let highs = |j: int| prod(high, wf(j));
    assert forall|j: int| 0 <= j < n implies #[trigger] lows(j) <= vf(j) by {
        let y = v(val[j * hd + d]);
        lemma_prod_plus(wf(j), y, low);
        lemma_prod_sign(wf(j), y - low);
        lemma_prod(wf(j), low);
    }
    assert forall|j: int| 0 <= j < n implies #[trigger] vf(j) <= highs(j) by {
        let y = v(val[j * hd + d]);
        lemma_prod_plus(wf(j), high, y);
        lemma_prod_sign(wf(j), high - y);
        lemma_prod(wf(j), high);
    }
    lemma_sum_grows(lows, vf, n as nat);
    lemma_sum_grows(vf, highs, n as nat);
    lemma_prod_plus(total, x, low);
    lemma_prod_plus(total, high, x);
    lemma_prod(total, x);
    lemma_prod(total, low);
    lemma_prod(total, high);
    lemma_prod_sign(total, x - low);
    lemma_prod_sign(total, high - x);
}

proof fn lemma_sum_grows(f: spec_fn(int) -> real, g: spec_fn(int) -> real, n: nat)
    requires
        forall|i: int| 0 <= i < n ==> #[trigger] f(i) <= g(i),
    ensures
        sum(f, n) <= sum(g, n),
    decreases n,
{
    if n > 0 {
        lemma_sum_grows(f, g, (n - 1) as nat);
        assert(f(n - 1) <= g(n - 1));
    }
}

/// The sum of `f` over the indices in `p`.
pub open spec fn sum_over(p: Seq<int>, f: spec_fn(int) -> real) -> real
    decreases p.len(),
{
    if p.len() == 0 {
        0 as real
    } else {
        sum_over(p.drop_last(), f) + f(p.last())
    }
}

proof fn lemma_sum_over_remove(p: Seq<int>, f: spec_fn(int) -> real, i: int)
    requires
        0 <= i < p.len(),
    ensures
        sum_over(p, f) == sum_over(p.remove(i), f) + f(p[i]),
    decreases p.len(),
{
    let r = p.remove(i);
    if i == p.len() - 1 {
        assert(r =~= p.drop_last());
    } else {
        lemma_sum_over_remove(p.drop_last(), f, i);
        assert(r.drop_last() =~= p.drop_last().remove(i));
        assert(r.last() == p.last());
    }
}

proof fn lemma_sum_over_permuted(p: Seq<int>, r: Seq<int>, f: spec_fn(int) -> real)
    requires
        p.to_multiset() =~= r.to_multiset(),
    ensures
        sum_over(p, f) == sum_over(r, f),
    decreases p.len(),
{
    broadcast use vstd::seq_lib::group_to_multiset_ensures;

    assert(p.len() == p.to_multiset().len());
    assert(r.len() == r.to_multiset().len());
    if p.len() > 0 {
        let x = p.last();
        assert(p.contains(x));
        assert(r.to_multiset().count(x) > 0);
        let i = r.index_of(x);
        assert(r[i] == x);
        lemma_sum_over_remove(r, f, i);
        assert(p.drop_last() =~= p.remove(p.len() - 1));
        assert(p.drop_last().to_multiset() =~= p.to_multiset().remove(x));
        assert(r.remove(i).to_multiset() =~= r.to_multiset().remove(x));
        lemma_sum_over_permuted(p.drop_last(), r.remove(i), f);
    }
}

proof fn lemma_sum_over(p: Seq<int>, f: spec_fn(int) -> real, g: spec_fn(int) -> real, n: nat)
    requires
        n <= p.len(),
        forall|j: int| 0 <= j < n ==> #[trigger] g(j) == f(p[j]),
    ensures
        sum(g, n) == sum_over(p.take(n as int), f),
    decreases n,
{
    if n > 0 {
        lemma_sum_over(p, f, g, (n - 1) as nat);
        assert(p.take(n as int).drop_last() =~= p.take(n - 1));
        assert(g(n - 1) == f(p[n - 1]));
    }
}

/// A sum whose terms are taken in another order.
proof fn lemma_sum_permuted(p: Seq<int>, f: spec_fn(int) -> real, g: spec_fn(int) -> real, n: nat)
    requires
        p.to_multiset() =~= Seq::new(n, |i: int| i).to_multiset(),
        p.len() == n,
        forall|j: int| 0 <= j < n ==> #[trigger] g(j) == f(p[j]),
    ensures
        sum(g, n) == sum(f, n),
{
    let r = Seq::new(n, |i: int| i);
    lemma_sum_over(p, f, g, n);
    lemma_sum_over(r, f, f, n);
    assert(p.take(n as int) =~= p);
    assert(r.take(n as int) =~= r);
    lemma_sum_over_permuted(p, r, f);
}

/// `b` holds the rows of `a` in the order `p`.
pub open spec fn rows_reordered<T>(a: Seq<T>, b: Seq<T>, p: Seq<int>, n: int, hd: int) -> bool {
    forall|j: int, d: int|
        0 <= j < n && 0 <= d < hd ==> #[trigger] b[j * hd + d] == a[p[j] * hd + d]
}

/// Where arithmetic is exact, the order in which keys and their values stand does
/// not matter.
pub proof fn law_key_order<T: Analytic>(
    v: spec_fn(T) -> real,
    ex: spec_fn(real) -> real,
    core: Core,
    q: Seq<T>,
    k: Seq<T>,
    val: Seq<T>,
    k2: Seq<T>,
    val2: Seq<T>,
    p: Seq<int>,
    n: int,
    hd: int,
    scale: T,
    d: int,
)
    requires
        faithful_exp(v, ex),
        0 < n,
        0 <= d < hd,
        p.len() == n,
        p.to_multiset() =~= Seq::new(n as nat, |i: int| i).to_multiset(),
        rows_reordered(k, k2, p, n, hd),
        rows_reordered(val, val2, p, n, hd),
        core == Core::Tiled ==> scores_compare(q, k, n, hd, scale),
        core == Core::Tiled ==> scores_compare(q, k2, n, hd, scale),
    ensures
        v(core_row(core, q, k2, val2, n, hd, scale)[d]) == v(
            core_row(core, q, k, val, n, hd, scale)[d],
        ),
{
    law_attention_is_mean(v, ex, core, q, k, val, n, hd, scale, d);
    law_attention_is_mean(v, ex, core, q, k2, val2, n, hd, scale, d);
    let w = weight_at(v, ex, q, k, hd, scale);
    let w2 = weight_at(v, ex, q, k2, hd, scale);
    let y = weighted_at(v, ex, q, k, val, hd, scale, d);
    let y2 = weighted_at(v, ex, q, k2, val2, hd, scale, d);
    assert forall|j: int| 0 <= j < n implies #[trigger] w2(j) == w(p[j]) && y2(j) == y(p[j]) by {
        let f = dot_term(q, k, hd, p[j]);
        let g = dot_term(q, k2, hd, j);
        assert forall|e: int| 0 <= e < hd implies #[trigger] g(e) == f(e) by {
            assert(k2[j * hd + e] == k[p[j] * hd + e]);
        }
        lemma_accumulate_agree(zero(), g, f, hd as nat);
        assert(val2[j * hd + d] == val[p[j] * hd + d]);
    }
    lemma_sum_permuted(p, w, w2, n as nat);
    assert forall|j: int| 0 <= j < n implies #[trigger] y2(j) == y(p[j]) by {
        assert(w2(j) == w(p[j]));
    }
    lemma_sum_permuted(p, y, y2, n as nat);
    let total = sum(w, n as nat);
    let (a, b) = (
        v(core_row(core, q, k, val, n, hd, scale)[d]),
        v(core_row(core, q, k2, val2, n, hd, scale)[d]),
    );
    lemma_prod(total, a);
    lemma_prod(total, b);
    lemma_prod_cancel(total, b, a);
}

} // verus!
