//! Attention with an online softmax: scores are never stored for all keys at
//! once.
//!
//! Queries, keys and values are `[heads, n, hd]` buffers. [`forward`] walks the
//! keys in tiles of [`KV_TILE_SZ`]; [`forward_per_query`] takes them one by one.

use crate::index::{accumulate, lemma_join, lemma_row_within, lemma_split, lemma_within};
use crate::norm::row_of;
use crate::scalar::{one, zero, Analytic, Scalar};
use vstd::prelude::*;

verus! {

/// Queries per tile when tiles are handed out to threads.
pub const Q_TILE_SZ: usize = 64;

/// Keys per tile.
pub const KV_TILE_SZ: usize = 64;

/// One product of a query with key `j`.
pub open spec fn dot_term<T: Scalar>(q: Seq<T>, k: Seq<T>, hd: int, j: int) -> spec_fn(int) -> T {
    |d: int| q[d].times_spec(k[j * hd + d])
}

/// The scaled score of key `j`.
pub open spec fn score<T: Scalar>(q: Seq<T>, k: Seq<T>, hd: int, scale: T, j: int) -> T {
    accumulate(zero(), dot_term(q, k, hd, j), hd as nat).times_spec(scale)
}

/// The largest of `start` and the first `n` of the scores; ties and scores that
/// do not compare leave it as it is.
pub open spec fn running_max<T: Scalar>(start: T, scores: Seq<T>, n: nat) -> T
    decreases n,
{
    if n == 0 {
        start
    } else {
        let before = running_max(start, scores, (n - 1) as nat);
        if before.less_spec(scores[n - 1]) {
            scores[n - 1]
        } else {
            before
        }
    }
}

/// The state of an online softmax: the largest score so far, the sum of the
/// exponentials relative to it, and the weighted sum of the values.
pub struct Online<T> {
    pub max: T,
    pub sum: T,
    pub acc: Seq<T>,
}

/// Before any key.
pub open spec fn online_start<T: Analytic>(hd: int) -> Online<T> {
    Online { max: T::lowest_spec(), sum: zero(), acc: Seq::new(hd as nat, |d: int| zero::<T>()) }
}

/// A sequence times a factor.
pub open spec fn scaled<T: Scalar>(s: Seq<T>, factor: T) -> Seq<T> {
    Seq::new(s.len(), |d: int| s[d].times_spec(factor))
}

/// Exponentials of the scores relative to `max`.
pub open spec fn weights<T: Analytic>(scores: Seq<T>, max: T) -> Seq<T> {
    Seq::new(scores.len(), |j: int| scores[j].minus_spec(max).exponential_spec())
}

/// The weights as terms of a sum.
pub open spec fn weight_term<T: Scalar>(e: Seq<T>) -> spec_fn(int) -> T {
    |j: int| e[j]
}

/// One weighted value.
pub open spec fn value_term<T: Scalar>(e: Seq<T>, v: Seq<T>, hd: int, first: int, d: int) -> spec_fn(
    int,
) -> T {
    |j: int| e[j].times_spec(v[(first + j) * hd + d])
}

/// The scores of the keys `first .. first + n`.
pub open spec fn tile_scores<T: Scalar>(
    q: Seq<T>,
    k: Seq<T>,
    hd: int,
    scale: T,
    first: int,
    n: int,
) -> Seq<T> {
    Seq::new(n as nat, |j: int| score(q, k, hd, scale, first + j))
}

/// The state after the keys `first .. first + n`: where they raise the maximum,
/// what was gathered is scaled down first.
pub open spec fn online_tile<T: Analytic>(
    st: Online<T>,
    scores: Seq<T>,
    v: Seq<T>,
    hd: int,
    first: int,
) -> Online<T> {
    let top = running_max(T::lowest_spec(), scores, scores.len());
    if top.same_spec(T::lowest_spec()) {
        st
    } else {
        let max = if top.less_spec(st.max) {
            st.max
        } else {
            top
        };
        let raised = st.max.less_spec(max);
        let factor = st.max.minus_spec(max).exponential_spec();
        let sum = if raised {
            st.sum.times_spec(factor)
        } else {
            st.sum
        };
        let acc = if raised {
            scaled(st.acc, factor)
        } else {
            st.acc
        };
        let e = weights(scores, max);
        Online {
            max,
            sum: sum.plus_spec(accumulate(zero(), weight_term(e), e.len())),
            acc: Seq::new(
                acc.len(),
                |d: int|
                    acc[d].plus_spec(
                        accumulate(zero(), value_term(e, v, hd, first, d), e.len()),
                    ),
            ),
        }
    }
}

/// The state after the keys from `first` on, tile by tile.
pub open spec fn online_from<T: Analytic>(
    st: Online<T>,
    q: Seq<T>,
    k: Seq<T>,
    v: Seq<T>,
    n: int,
    hd: int,
    scale: T,
    first: int,
) -> Online<T>
    decreases n - first,
{
    if first >= n {
        st
    } else {
        let rows = if n - first < 64 {
            n - first
        } else {
            64
        };
        let next = online_tile(st, tile_scores(q, k, hd, scale, first, rows), v, hd, first);
        online_from(next, q, k, v, n, hd, scale, first + rows)
    }
}

/// The weighted sum over the sum of the weights; nothing where that is zero.
pub open spec fn online_result<T: Analytic>(st: Online<T>) -> Seq<T> {
    let inv = if zero::<T>().less_spec(st.sum) {
        one::<T>().over_spec(st.sum)
    } else {
        zero()
    };
    scaled(st.acc, inv)
}

/// What one query attends to.
pub open spec fn flash_row<T: Analytic>(
    q: Seq<T>,
    k: Seq<T>,
    v: Seq<T>,
    n: int,
    hd: int,
    scale: T,
) -> Seq<T> {
    online_result(online_from(online_start(hd), q, k, v, n, hd, scale, 0))
}

/// A row of scores as weights that add up to one.
pub open spec fn softmax_row<T: Analytic>(row: Seq<T>) -> Seq<T> {
    let e = weights(row, running_max(T::lowest_spec(), row, row.len()));
    scaled(e, one::<T>().over_spec(accumulate(zero(), weight_term(e), e.len())))
}

/// What one query attends to, with all scores stored.
pub open spec fn stored_row<T: Analytic>(
    q: Seq<T>,
    k: Seq<T>,
    v: Seq<T>,
    n: int,
    hd: int,
    scale: T,
) -> Seq<T> {
    let p = softmax_row(tile_scores(q, k, hd, scale, 0, n));
    Seq::new(hd as nat, |d: int| accumulate(zero(), value_term(p, v, hd, 0, d), n as nat))
}

/// The state after key `j`, taken by itself.
pub open spec fn online_key<T: Analytic>(
    st: Online<T>,
    q: Seq<T>,
    k: Seq<T>,
    v: Seq<T>,
    hd: int,
    scale: T,
    j: int,
) -> Online<T> {
    let s = score(q, k, hd, scale, j);
    if st.max.less_spec(s) {
        let factor = st.max.minus_spec(s).exponential_spec();
        Online {
            max: s,
            sum: st.sum.times_spec(factor).plus_spec(one()),
            acc: Seq::new(
                st.acc.len(),
                |d: int| st.acc[d].times_spec(factor).plus_spec(v[j * hd + d]),
            ),
        }
    } else {
        let e = s.minus_spec(st.max).exponential_spec();
        Online {
            max: st.max,
            sum: st.sum.plus_spec(e),
            acc: Seq::new(
                st.acc.len(),
                |d: int| st.acc[d].plus_spec(e.times_spec(v[j * hd + d])),
            ),
        }
    }
}

/// The state after the first `j` keys, one by one.
pub open spec fn online_keys<T: Analytic>(
    q: Seq<T>,
    k: Seq<T>,
    v: Seq<T>,
    hd: int,
    scale: T,
    j: nat,
) -> Online<T>
    decreases j,
{
    if j == 0 {
        online_start(hd)
    } else {
        online_key(online_keys(q, k, v, hd, scale, (j - 1) as nat), q, k, v, hd, scale, j - 1)
    }
}

/// What one query attends to, with the keys taken one by one.
pub open spec fn per_query_row<T: Analytic>(
    q: Seq<T>,
    k: Seq<T>,
    v: Seq<T>,
    n: int,
    hd: int,
    scale: T,
) -> Seq<T> {
    online_result(online_keys(q, k, v, hd, scale, n as nat))
}

fn score_of<T: Scalar>(q: &[T], k: &[T], n: Ghost<int>, hd: usize, scale: T, j: usize) -> (r: T)
    requires
        q.len() == hd,
        k.len() == n@ * hd,
        j < n@,
    ensures
        r == score(q@, k@, hd as int, scale, j as int),
{
    let mut acc: T = T::ratio(0, 1);
    let mut d: usize = 0;
    while d < hd
        invariant
            d <= hd,
            q.len() == hd,
            k.len() == n@ * hd,
            j < n@,
            acc == accumulate(zero(), dot_term(q@, k@, hd as int, j as int), d as nat),
        decreases hd - d,
    {
        proof {
            lemma_within(j as int, n@, d as int, hd as int);
        }
        acc = acc.plus(q[d].times(k[j * hd + d]));
        d = d + 1;
    }
    acc.times(scale)
}

fn zeros<T: Scalar>(n: usize) -> (r: Vec<T>)
    ensures
        r@ == Seq::new(n as nat, |d: int| zero::<T>()),
{
    let mut r: Vec<T> = Vec::new();
    let mut i: usize = 0;
    while i < n
        invariant
            i <= n,
            r.len() == i,
            forall|k: int| 0 <= k < i ==> #[trigger] r[k] == zero::<T>(),
        decreases n - i,
    {
        r.push(T::ratio(0, 1));
        i = i + 1;
    }
    assert(r@ =~= Seq::new(n as nat, |d: int| zero::<T>()));
    r
}

/// Multiplies every element.
fn scale_buffer<T: Scalar>(x: &mut Vec<T>, factor: T)
    ensures
        final(x)@ == scaled(old(x)@, factor),
{
    let n: usize = x.len();
    let mut d: usize = 0;
    while d < n
        invariant
            d <= n,
            x.len() == n,
            old(x).len() == n,
            forall|k: int| 0 <= k < d ==> #[trigger] x[k] == old(x)[k].times_spec(factor),
            forall|k: int| d <= k < n ==> #[trigger] x[k] == old(x)[k],
        decreases n - d,
    {
        let v: T = x[d].times(factor);
        x[d] = v;
        d = d + 1;
    }
    assert(x@ =~= scaled(old(x)@, factor));
}

/// The running state of one query.
struct State<T> {
    max: T,
    sum: T,
    acc: Vec<T>,
}

impl<T> View for State<T> {
    type V = Online<T>;

    closed spec fn view(&self) -> Online<T> {
        Online { max: self.max, sum: self.sum, acc: self.acc@ }
    }
}

/// Takes in the keys `first .. first + rows`.
fn take_tile<T: Analytic>(
    st: &mut State<T>,
    q: &[T],
    k: &[T],
    v: &[T],
    n: usize,
    hd: usize,
    scale: T,
    first: usize,
    rows: usize,
)
    requires
        q.len() == hd,
        k.len() == n * hd,
        v.len() == n * hd,
        first + rows <= n,
        old(st).acc.len() == hd,
    ensures
        final(st)@ == online_tile(
            old(st)@,
            tile_scores(q@, k@, hd as int, scale, first as int, rows as int),
            v@,
            hd as int,
            first as int,
        ),
        final(st).acc.len() == hd,
{
    let ghost begin = st@;
    let low: T = T::lowest();
    let mut scores: Vec<T> = Vec::new();
    let mut top: T = low;
    let mut j: usize = 0;
    while j < rows
        invariant
            j <= rows,
            q.len() == hd,
            k.len() == n * hd,
            first + rows <= n,
            low == T::lowest_spec(),
            scores.len() == j,
            forall|i: int|
                0 <= i < j ==> #[trigger] scores[i] == score(
                    q@,
                    k@,
                    hd as int,
                    scale,
                    first + i,
                ),
            top == running_max(
                low,
                tile_scores(q@, k@, hd as int, scale, first as int, rows as int),
                j as nat,
            ),
        decreases rows - j,
    {
        let s: T = score_of(q, k, Ghost(n as int), hd, scale, first + j);
        if top.less(s) {
            top = s;
        }
        scores.push(s);
        j = j + 1;
    }
    let ghost all = tile_scores(q@, k@, hd as int, scale, first as int, rows as int);
    assert(scores@ =~= all);
    if top.same(low) {
        return ;
    }
    let max: T = if top.less(st.max) {
        st.max
    } else {
        top
    };
    if st.max.less(max) {
        let factor: T = st.max.minus(max).exponential();
        scale_buffer(&mut st.acc, factor);
        st.sum = st.sum.times(factor);
    }
    st.max = max;
    let mut e: Vec<T> = Vec::new();
    let mut total: T = T::ratio(0, 1);
    let ghost all_e = weights(all, max);
    let mut j: usize = 0;
    while j < rows
        invariant
            j <= rows,
            scores.len() == rows,
            scores@ == all,
            all_e == weights(all, max),
            e.len() == j,
            forall|i: int| 0 <= i < j ==> #[trigger] e[i] == all_e[i],
            total == accumulate(zero(), weight_term(all_e), j as nat),
        decreases rows - j,
    {
        let w: T = scores[j].minus(max).exponential();
        e.push(w);
        total = total.plus(w);
        j = j + 1;
    }
    assert(e@ =~= all_e);
    st.sum = st.sum.plus(total);
    let ghost acc0 = st.acc@;
    let mut d: usize = 0;
    while d < hd
        invariant
            d <= hd,
            v.len() == n * hd,
            first + rows <= n,
            e.len() == rows,
            e@ == all_e,
            st.acc.len() == hd,
            acc0.len() == hd,
            st.max == max,
            st.sum == begin_sum(begin, max).plus_spec(
                accumulate(zero(), weight_term(all_e), rows as nat),
            ),
            forall|i: int|
                0 <= i < d ==> #[trigger] st.acc[i] == acc0[i].plus_spec(
                    accumulate(
                        zero(),
                        value_term(all_e, v@, hd as int, first as int, i),
                        rows as nat,
                    ),
                ),
            forall|i: int| d <= i < hd ==> #[trigger] st.acc[i] == acc0[i],
        decreases hd - d,
    {
        let ghost term = value_term(all_e, v@, hd as int, first as int, d as int);
        let mut sum: T = T::ratio(0, 1);
        let mut j: usize = 0;
        while j < rows
            invariant
                j <= rows,
                d < hd,
                v.len() == n * hd,
                first + rows <= n,
                e.len() == rows,
                e@ == all_e,
                term == value_term(all_e, v@, hd as int, first as int, d as int),
                sum == accumulate(zero(), term, j as nat),
            decreases rows - j,
        {
            proof {
                lemma_within(first + j, n as int, d as int, hd as int);
            }
            sum = sum.plus(e[j].times(v[(first + j) * hd + d]));
            j = j + 1;
        }
        let value: T = st.acc[d].plus(sum);
        st.acc[d] = value;
        d = d + 1;
    }
    proof {
        let want = online_tile(begin, all, v@, hd as int, first as int);
        assert(st.acc@ =~= want.acc);
    }
}

/// The sum as it stands when a tile's maximum is known.
spec fn begin_sum<T: Analytic>(st: Online<T>, max: T) -> T {
    if st.max.less_spec(max) {
        st.sum.times_spec(st.max.minus_spec(max).exponential_spec())
    } else {
        st.sum
    }
}

/// Divides by the sum of the weights.
fn finished<T: Analytic>(st: State<T>) -> (r: Vec<T>)
    ensures
        r@ == online_result(st@),
        r.len() == st.acc.len(),
{
    let inv: T = if T::ratio(0, 1).less(st.sum) {
        T::ratio(1, 1).over(st.sum)
    } else {
        T::ratio(0, 1)
    };
    let mut r: Vec<T> = st.acc;
    scale_buffer(&mut r, inv);
    r
}

/// Attention of one query, tile by tile.
fn tiled_row<T: Analytic>(q: &[T], k: &[T], v: &[T], n: usize, hd: usize, scale: T) -> (r: Vec<T>)
    requires
        q.len() == hd,
        k.len() == n * hd,
        v.len() == n * hd,
    ensures
        r@ == flash_row(q@, k@, v@, n as int, hd as int, scale),
        r.len() == hd,
{
    let mut st: State<T> = State { max: T::lowest(), sum: T::ratio(0, 1), acc: zeros(hd) };
    let ghost want = online_from(st@, q@, k@, v@, n as int, hd as int, scale, 0);
    let mut first: usize = 0;
    while first < n
        invariant
            first <= n,
            q.len() == hd,
            k.len() == n * hd,
            v.len() == n * hd,
            st.acc.len() == hd,
            want == online_from(st@, q@, k@, v@, n as int, hd as int, scale, first as int),
        decreases n - first,
    {
        let rows: usize = if n - first < KV_TILE_SZ {
            n - first
        } else {
            KV_TILE_SZ
        };
        take_tile(&mut st, q, k, v, n, hd, scale, first, rows);
        first = first + rows;
    }
    finished(st)
}

/// Attention of one query, key by key.
pub fn online_softmax_row_scalar<T: Analytic>(
    q: &[T],
    k: &[T],
    v: &[T],
    n: usize,
    hd: usize,
    scale: T,
) -> (r: Vec<T>)
    requires
        q.len() == hd,
        k.len() == n * hd,
        v.len() == n * hd,
    ensures
        r@ == per_query_row(q@, k@, v@, n as int, hd as int, scale),
        r.len() == hd,
{
    let mut st: State<T> = State { max: T::lowest(), sum: T::ratio(0, 1), acc: zeros(hd) };
    let mut j: usize = 0;
    while j < n
        invariant
            j <= n,
            q.len() == hd,
            k.len() == n * hd,
            v.len() == n * hd,
            st.acc.len() == hd,
            st@ == online_keys(q@, k@, v@, hd as int, scale, j as nat),
        decreases n - j,
    {
        let s: T = score_of(q, k, Ghost(n as int), hd, scale, j);
        let ghost before = st@;
        let raised: bool = st.max.less(s);
        let factor: T = if raised {
            st.max.minus(s).exponential()
        } else {
            s.minus(st.max).exponential()
        };
        let mut d: usize = 0;
        while d < hd
            invariant
                d <= hd,
                j < n,
                v.len() == n * hd,
                st.acc.len() == hd,
                before.acc.len() == hd,
                st.max == before.max,
                st.sum == before.sum,
                forall|i: int|
                    0 <= i < d ==> #[trigger] st.acc[i] == (if raised {
                        before.acc[i].times_spec(factor).plus_spec(v[j * hd + i])
                    } else {
                        before.acc[i].plus_spec(factor.times_spec(v[j * hd + i]))
                    }),
                forall|i: int| d <= i < hd ==> #[trigger] st.acc[i] == before.acc[i],
            decreases hd - d,
        {
            proof {
                lemma_within(j as int, n as int, d as int, hd as int);
            }
            let value: T = if raised {
                st.acc[d].times(factor).plus(v[j * hd + d])
            } else {
                st.acc[d].plus(factor.times(v[j * hd + d]))
            };
            st.acc[d] = value;
            d = d + 1;
        }
        if raised {
            st.sum = st.sum.times(factor).plus(T::ratio(1, 1));
            st.max = s;
        } else {
            st.sum = st.sum.plus(factor);
        }
        proof {
            let want = online_key(before, q@, k@, v@, hd as int, scale, j as int);
            assert(st.acc@ =~= want.acc);
        }
        j = j + 1;
    }
    finished(st)
}

/// How the scores of a query are turned into its result.
#[derive(Clone, Copy, Debug, PartialEq, Eq, Structural)]
pub enum Core {
    /// Online, with the keys in tiles.
    Tiled,
    /// Online, with the keys one by one.
    KeyByKey,
    /// With all scores stored.
    Stored,
}

/// What one query attends to.
pub open spec fn core_row<T: Analytic>(
    core: Core,
    q: Seq<T>,
    k: Seq<T>,
    v: Seq<T>,
    n: int,
    hd: int,
    scale: T,
) -> Seq<T> {
    match core {
        Core::Tiled => flash_row(q, k, v, n, hd, scale),
        Core::KeyByKey => per_query_row(q, k, v, n, hd, scale),
        Core::Stored => stored_row(q, k, v, n, hd, scale),
    }
}

/// Turns a row of scores into weights that add up to one.
pub fn softmax_1d<T: Analytic>(row: &[T]) -> (r: Vec<T>)
    ensures
        r@ == softmax_row(row@),
{
    let mut max: T = T::lowest();
    let mut i: usize = 0;
    while i < row.len()
        invariant
            i <= row.len(),
            max == running_max(T::lowest_spec(), row@, i as nat),
        decreases row.len() - i,
    {
        if max.less(row[i]) {
            max = row[i];
        }
        i = i + 1;
    }
    let ghost e = weights(row@, max);
    let mut r: Vec<T> = Vec::new();
    let mut sum: T = T::ratio(0, 1);
    let mut i: usize = 0;
    while i < row.len()
        invariant
            i <= row.len(),
            e == weights(row@, max),
            r.len() == i,
            forall|k: int| 0 <= k < i ==> #[trigger] r[k] == e[k],
            sum == accumulate(zero(), weight_term(e), i as nat),
        decreases row.len() - i,
    {
        let w: T = row[i].minus(max).exponential();
        r.push(w);
        sum = sum.plus(w);
        i = i + 1;
    }
    assert(r@ =~= e);
    let inv: T = T::ratio(1, 1).over(sum);
    scale_buffer(&mut r, inv);
    r
}

/// The softmax of each row of a buffer with rows of `cols` elements.
pub open spec fn softmax_rows_of<T: Analytic>(buf: Seq<T>, cols: int) -> Seq<T> {
    Seq::new(buf.len(), |p: int| softmax_row(row_of(buf, cols, p / cols))[p % cols])
}

/// Turns each of `rows` rows of scores into weights that add up to one.
pub fn softmax_rows_inplace<T: Analytic>(buf: &mut Vec<T>, rows: usize)
    requires
        0 < rows,
        old(buf).len() % rows == 0,
    ensures
        final(buf)@ == softmax_rows_of(old(buf)@, old(buf).len() as int / rows as int),
{
    let cols: usize = buf.len() / rows;
    let ghost want = softmax_rows_of(buf@, cols as int);
    let mut out: Vec<T> = Vec::new();
    let mut i: usize = 0;
    proof {
        lemma_join(buf.len() as int, rows as int);
        assert(rows * cols == cols * rows) by (nonlinear_arith);
    }
    assert(0 * cols == 0);
    while i < rows
        invariant
            i <= rows,
            buf.len() == rows * cols,
            want == softmax_rows_of(buf@, cols as int),
            buf@ == old(buf)@,
            out.len() == i * cols,
            forall|p: int| 0 <= p < i * cols ==> #[trigger] out[p] == want[p],
        decreases rows - i,
    {
        proof {
            assert((i + 1) * cols == i * cols + cols && (i + 1) * cols <= rows * cols && 0 <= i
                * cols) by (nonlinear_arith)
                requires
                    i + 1 <= rows,
                    0 <= cols,
                    0 <= i,
            ;
        }
        let row: &[T] = &buf.as_slice()[i * cols..i * cols + cols];
        assert(row@ =~= row_of(buf@, cols as int, i as int));
        let done: Vec<T> = softmax_1d(row);
        let mut d: usize = 0;
        while d < cols
            invariant
                d <= cols,
                i < rows,
                buf.len() == rows * cols,
                (i + 1) * cols == i * cols + cols,
                (i + 1) * cols <= rows * cols,
                done@ == softmax_row(row_of(buf@, cols as int, i as int)),
                done.len() == cols,
                want == softmax_rows_of(buf@, cols as int),
                out.len() == i * cols + d,
                forall|p: int| 0 <= p < i * cols + d ==> #[trigger] out[p] == want[p],
            decreases cols - d,
        {
            proof {
                lemma_split(i as int, cols as int, d as int);
            }
            out.push(done[d]);
            d = d + 1;
        }
        i = i + 1;
    }
    assert(out@ =~= want);
    *buf = out;
}

/// Attention of one query with all scores stored.
fn stored_scores_row<T: Analytic>(
    q: &[T],
    k: &[T],
    v: &[T],
    n: usize,
    hd: usize,
    scale: T,
) -> (r: Vec<T>)
    requires
        q.len() == hd,
        k.len() == n * hd,
        v.len() == n * hd,
    ensures
        r@ == stored_row(q@, k@, v@, n as int, hd as int, scale),
        r.len() == hd,
{
    let mut scores: Vec<T> = Vec::new();
    let mut j: usize = 0;
    while j < n
        invariant
            j <= n,
            q.len() == hd,
            k.len() == n * hd,
            scores.len() == j,
            forall|i: int|
                0 <= i < j ==> #[trigger] scores[i] == score(q@, k@, hd as int, scale, i),
        decreases n - j,
    {
        scores.push(score_of(q, k, Ghost(n as int), hd, scale, j));
        j = j + 1;
    }
    assert(scores@ =~= tile_scores(q@, k@, hd as int, scale, 0, n as int));
    let p: Vec<T> = softmax_1d(scores.as_slice());
    let mut r: Vec<T> = Vec::new();
    let mut d: usize = 0;
    while d < hd
        invariant
            d <= hd,
            v.len() == n * hd,
            p.len() == n,
            r.len() == d,
            forall|i: int|
                0 <= i < d ==> #[trigger] r[i] == accumulate(
                    zero(),
                    value_term(p@, v@, hd as int, 0, i),
                    n as nat,
                ),
        decreases hd - d,
    {
        let ghost term = value_term(p@, v@, hd as int, 0, d as int);
        let mut sum: T = T::ratio(0, 1);
        let mut j: usize = 0;
        while j < n
            invariant
                j <= n,
                d < hd,
                v.len() == n * hd,
                p.len() == n,
                term == value_term(p@, v@, hd as int, 0, d as int),
                sum == accumulate(zero(), term, j as nat),
            decreases n - j,
        {
            proof {
                lemma_within(j as int, n as int, d as int, hd as int);
            }
            sum = sum.plus(p[j].times(v[j * hd + d]));
            j = j + 1;
        }
        r.push(sum);
        d = d + 1;
    }
    assert(r@ =~= stored_row(q@, k@, v@, n as int, hd as int, scale));
    r
}

/// Attention of all heads and queries.
pub open spec fn attention_of<T: Analytic>(
    q: Seq<T>,
    k: Seq<T>,
    v: Seq<T>,
    heads: int,
    n: int,
    hd: int,
    scale: T,
    core: Core,
) -> Seq<T> {
    Seq::new(
        ((heads * n) * hd) as nat,
        |p: int|
            {
                let row = p / hd;
                let kh = row_of(k, n * hd, row / n);
                let vh = row_of(v, n * hd, row / n);
                core_row(core, row_of(q, hd, row), kh, vh, n, hd, scale)[p % hd]
            },
    )
}

/// Runs attention for all heads and queries.
pub fn attend<T: Analytic>(
    q: &[T],
    k: &[T],
    v: &[T],
    heads: usize,
    n: usize,
    hd: usize,
    scale: T,
    core: Core,
) -> (out: Vec<T>)
    requires
        q.len() == (heads * n) * hd,
        k.len() == (heads * n) * hd,
        v.len() == (heads * n) * hd,
        heads * n <= usize::MAX,
        n * hd <= usize::MAX,
    ensures
        out@ == attention_of(q@, k@, v@, heads as int, n as int, hd as int, scale, core),
{
    let rows: usize = heads * n;
    let per_head: usize = n * hd;
    let ghost want = attention_of(
        q@,
        k@,
        v@,
        heads as int,
        n as int,
        hd as int,
        scale,
        core,
    );
    let mut out: Vec<T> = Vec::new();
    let mut row: usize = 0;
    assert(0 * hd == 0);
    while row < rows
        invariant
            row <= rows,
            rows == heads * n,
            per_head == n * hd,
            q.len() == rows * hd,
            k.len() == rows * hd,
            v.len() == rows * hd,
            want == attention_of(
                q@,
                k@,
                v@,
                heads as int,
                n as int,
                hd as int,
                scale,
                core,
            ),
            out.len() == row * hd,
            forall|p: int| 0 <= p < row * hd ==> #[trigger] out[p] == want[p],
        decreases rows - row,
    {
        proof {
            if n == 0 {
                assert(heads * n == 0) by (nonlinear_arith)
                    requires
                        n == 0,
                ;
            }
            lemma_row_within(row as int, heads as int, n as int);
            assert((heads * n) * hd == heads * (n * hd)) by (nonlinear_arith);
            lemma_within((row / n) as int, heads as int, 0, per_head as int + 1);
            assert((row / n) * per_head + per_head <= heads * per_head && 0 <= (row / n)
                * per_head) by (nonlinear_arith)
                requires
                    0 <= row / n < heads,
                    0 <= per_head,
            ;
            assert((row + 1) * hd == row * hd + hd && (row + 1) * hd <= rows * hd && 0 <= row * hd)
                by (nonlinear_arith)
                requires
                    row + 1 <= rows,
                    0 <= hd,
                    0 <= row,
            ;
        }
        let h: usize = row / n;
        let qr: &[T] = &q[row * hd..row * hd + hd];
        let kh: &[T] = &k[h * per_head..h * per_head + per_head];
        let vh: &[T] = &v[h * per_head..h * per_head + per_head];
        assert(qr@ =~= row_of(q@, hd as int, row as int));
        assert(kh@ =~= row_of(k@, n * hd, h as int));
        assert(vh@ =~= row_of(v@, n * hd, h as int));
        let done: Vec<T> = match core {
            Core::Tiled => tiled_row(qr, kh, vh, n, hd, scale),
            Core::KeyByKey => online_softmax_row_scalar(qr, kh, vh, n, hd, scale),
            Core::Stored => stored_scores_row(qr, kh, vh, n, hd, scale),
        };
        let mut d: usize = 0;
        while d < hd
            invariant
                d <= hd,
                row < rows,
                rows == heads * n,
                h == row / n,
                0 < n,
                (row + 1) * hd == row * hd + hd,
                (row + 1) * hd <= rows * hd,
                done.len() == hd,
                done@ == core_row(
                    core,
                    row_of(q@, hd as int, row as int),
                    row_of(k@, n * hd, h as int),
                    row_of(v@, n * hd, h as int),
                    n as int,
                    hd as int,
                    scale,
                ),
                want == attention_of(
                    q@,
                    k@,
                    v@,
                    heads as int,
                    n as int,
                    hd as int,
                    scale,
                    core,
                ),
                out.len() == row * hd + d,
                forall|p: int| 0 <= p < row * hd + d ==> #[trigger] out[p] == want[p],
            decreases hd - d,
        {
            proof {
                lemma_split(row as int, hd as int, d as int);
            }
            out.push(done[d]);
            d = d + 1;
        }
        row = row + 1;
    }
    assert(out@ =~= want);
    out
}

/// Attention of all heads, with the keys in tiles.
pub fn forward<T: Analytic>(
    q: &[T],
    k: &[T],
    v: &[T],
    heads: usize,
    n: usize,
    hd: usize,
    scale: T,
) -> (out: Vec<T>)
    requires
        q.len() == (heads * n) * hd,
        k.len() == (heads * n) * hd,
        v.len() == (heads * n) * hd,
        heads * n <= usize::MAX,
        n * hd <= usize::MAX,
    ensures
        out@ == attention_of(q@, k@, v@, heads as int, n as int, hd as int, scale, Core::Tiled),
{
    attend(q, k, v, heads, n, hd, scale, Core::Tiled)
}

/// Attention of all heads, with the keys one by one.
pub fn forward_per_query<T: Analytic>(
    q: &[T],
    k: &[T],
    v: &[T],
    heads: usize,
    n: usize,
    hd: usize,
    scale: T,
) -> (out: Vec<T>)
    requires
        q.len() == (heads * n) * hd,
        k.len() == (heads * n) * hd,
        v.len() == (heads * n) * hd,
        heads * n <= usize::MAX,
        n * hd <= usize::MAX,
    ensures
        out@ == attention_of(q@, k@, v@, heads as int, n as int, hd as int, scale, Core::KeyByKey),
{
    attend(q, k, v, heads, n, hd, scale, Core::KeyByKey)
}

} // verus!
