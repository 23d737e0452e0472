//! Small dense matrices, row-major.

use crate::exact::{lemma_plus, lemma_times_unit};
use crate::index::{accumulate, lemma_join, lemma_row_within, lemma_split, lemma_within};
use crate::scalar::{one, zero, Analytic, Fixed, Scalar};
use vstd::prelude::*;

verus! {

/// The sign of a number: -1, 0 or 1.
pub open spec fn sign_of<T: Scalar>(x: T) -> T {
    if zero::<T>().less_spec(x) {
        one()
    } else if x.less_spec(zero()) {
        T::ratio_spec((-1) as i32, 1)
    } else {
        zero()
    }
}

fn sign<T: Scalar>(x: T) -> (r: T)
    ensures
        r == sign_of(x),
{
    let nil: T = T::ratio(0, 1);
    if nil.less(x) {
        T::ratio(1, 1)
    } else if x.less(nil) {
        T::ratio(-1, 1)
    } else {
        nil
    }
}

/// The side of zero that a number stands on: -1 below it, else 1.
pub open spec fn side_of<T: Scalar>(x: T) -> T {
    if x.less_spec(zero()) {
        T::ratio_spec((-1) as i32, 1)
    } else {
        one()
    }
}

fn side<T: Scalar>(x: T) -> (r: T)
    ensures
        r == side_of(x),
{
    if x.less(T::ratio(0, 1)) {
        T::ratio(-1, 1)
    } else {
        T::ratio(1, 1)
    }
}

/// 1e-300: what is closer to zero is taken for zero.
pub open spec fn tiny<T: Scalar>() -> T {
    T::from_double_bits_spec(0x01a5_6e1f_c2f8_f359)
}

/// The determinant of a 3x3 matrix, along its first row.
pub open spec fn det3_of<T: Scalar>(a: Seq<T>) -> T {
    a[0].times_spec(a[4].times_spec(a[8]).minus_spec(a[5].times_spec(a[7]))).minus_spec(
        a[1].times_spec(a[3].times_spec(a[8]).minus_spec(a[5].times_spec(a[6]))),
    ).plus_spec(a[2].times_spec(a[3].times_spec(a[7]).minus_spec(a[4].times_spec(a[6]))))
}

/// The determinant of a 3x3 matrix.
pub fn det3<T: Scalar>(a: &[T; 9]) -> (r: T)
    ensures
        r == det3_of(a@),
{
    a[0].times(a[4].times(a[8]).minus(a[5].times(a[7]))).minus(
        a[1].times(a[3].times(a[8]).minus(a[5].times(a[6]))),
    ).plus(a[2].times(a[3].times(a[7]).minus(a[4].times(a[6]))))
}

/// The terms of element `p` of a product of square matrices.
pub open spec fn product_term<T: Scalar>(a: Seq<T>, b: Seq<T>, n: int, p: int) -> spec_fn(
    int,
) -> T {
    |k: int| a[p / n * n + k].times_spec(b[k * n + p % n])
}

/// The product of two square matrices.
pub open spec fn product_of<T: Scalar>(a: Seq<T>, b: Seq<T>, n: int) -> Seq<T> {
    Seq::new(
        (n * n) as nat,
        |p: int| accumulate(zero(), product_term(a, b, n, p), n as nat),
    )
}

/// The product of two `n` by `n` matrices.
pub fn matmul<T: Scalar>(a: &[T], b: &[T], n: usize) -> (r: Vec<T>)
    requires
        a.len() == n * n,
        b.len() == n * n,
    ensures
        r@ == product_of(a@, b@, n as int),
        r.len() == n * n,
{
    let total: usize = a.len();
    let mut r: Vec<T> = Vec::new();
    let mut p: usize = 0;
    while p < total
        invariant
            p <= total,
            total == n * n,
            a.len() == n * n,
            b.len() == n * n,
            r.len() == p,
            forall|j: int| 0 <= j < p ==> #[trigger] r[j] == product_of(a@, b@, n as int)[j],
        decreases total - p,
    {
        proof {
            assert(n > 0) by (nonlinear_arith)
                requires
                    0 <= p < n * n,
            ;
            lemma_row_within(p as int, n as int, n as int);
            lemma_join(p as int, n as int);
        }
        let row: usize = p / n;
        let col: usize = p % n;
        let mut s: T = T::ratio(0, 1);
        let mut k: usize = 0;
        while k < n
            invariant
                k <= n,
                row < n,
                col < n,
                row == p as int / n as int,
                col == p as int % n as int,
                a.len() == n * n,
                b.len() == n * n,
                s == accumulate(zero(), product_term(a@, b@, n as int, p as int), k as nat),
            decreases n - k,
        {
            proof {
                lemma_within(row as int, n as int, k as int, n as int);
                lemma_within(k as int, n as int, col as int, n as int);
                let t = product_term(a@, b@, n as int, p as int);
                assert(t(k as int) == a[row * n + k].times_spec(b[k * n + col]));
            }
            s = s.plus(a[row * n + k].times(b[k * n + col]));
            k = k + 1;
        }
        r.push(s);
        p = p + 1;
    }
    assert(r@ =~= product_of(a@, b@, n as int));
    r
}

/// Nine numbers as an array.
pub(crate) fn nine<T: Scalar>(v: &[T]) -> (r: [T; 9])
    requires
        v.len() == 9,
    ensures
        r@ == v@,
{
    let r: [T; 9] = [v[0], v[1], v[2], v[3], v[4], v[5], v[6], v[7], v[8]];
    assert(r@ =~= v@);
    r
}

/// The product of two 3x3 matrices.
pub fn mat3_mul<T: Scalar>(a: &[T; 9], b: &[T; 9]) -> (c: [T; 9])
    ensures
        c@ == product_of(a@, b@, 3),
{
    let v: Vec<T> = matmul(a.as_slice(), b.as_slice(), 3);
    nine(v.as_slice())
}

/// A square matrix with rows and columns exchanged.
pub open spec fn transposed<T>(a: Seq<T>, n: int) -> Seq<T> {
    Seq::new((n * n) as nat, |p: int| a[p % n * n + p / n])
}

/// The transpose of a 3x3 matrix.
pub fn mat3_transpose<T: Scalar>(a: &[T; 9]) -> (r: [T; 9])
    ensures
        r@ == transposed(a@, 3),
{
    let r: [T; 9] = [a[0], a[3], a[6], a[1], a[4], a[7], a[2], a[5], a[8]];
    assert(r@ =~= transposed(a@, 3));
    r
}

/// Transposing twice gives the matrix back.
pub proof fn law_transpose_twice<T>(a: Seq<T>, n: int)
    requires
        0 <= n,
        a.len() == n * n,
    ensures
        transposed(transposed(a, n), n) == a,
{
    assert forall|p: int| 0 <= p < n * n implies #[trigger] transposed(transposed(a, n), n)[p]
        == a[p] by {
        assert(n > 0) by (nonlinear_arith)
            requires
                0 <= p < n * n,
                0 <= n,
        ;
        lemma_join(p, n);
        lemma_row_within(p, n, n);
        lemma_within(p % n, n, p / n, n);
        lemma_split(p % n, n, p / n);
    }
    assert(transposed(transposed(a, n), n) =~= a);
}

/// The cofactors of a 3x3 matrix, transposed, each times `inv`.
pub open spec fn cofactors_times<T: Scalar>(a: Seq<T>, inv: T) -> Seq<T> {
    seq![
        a[4].times_spec(a[8]).minus_spec(a[5].times_spec(a[7])).times_spec(inv),
        a[2].times_spec(a[7]).minus_spec(a[1].times_spec(a[8])).times_spec(inv),
        a[1].times_spec(a[5]).minus_spec(a[2].times_spec(a[4])).times_spec(inv),
        a[5].times_spec(a[6]).minus_spec(a[3].times_spec(a[8])).times_spec(inv),
        a[0].times_spec(a[8]).minus_spec(a[2].times_spec(a[6])).times_spec(inv),
        a[2].times_spec(a[3]).minus_spec(a[0].times_spec(a[5])).times_spec(inv),
        a[3].times_spec(a[7]).minus_spec(a[4].times_spec(a[6])).times_spec(inv),
        a[1].times_spec(a[6]).minus_spec(a[0].times_spec(a[7])).times_spec(inv),
        a[0].times_spec(a[4]).minus_spec(a[1].times_spec(a[3])).times_spec(inv),
    ]
}

/// The inverse of a 3x3 matrix; `None` where its determinant is as good as zero.
pub fn mat3_inverse<T: Analytic>(a: &[T; 9]) -> (r: Option<[T; 9]>)
    ensures
        r is None <==> det3_of(a@).magnitude_spec().less_spec(tiny()),
        r matches Some(m) ==> m@ == cofactors_times(a@, one::<T>().over_spec(det3_of(a@))),
{
    let d: T = det3(a);
    if d.magnitude().less(T::from_double_bits(0x01a5_6e1f_c2f8_f359)) {
        return None;
    }
    let inv: T = T::ratio(1, 1).over(d);
    let m: [T; 9] = [
        a[4].times(a[8]).minus(a[5].times(a[7])).times(inv),
        a[2].times(a[7]).minus(a[1].times(a[8])).times(inv),
        a[1].times(a[5]).minus(a[2].times(a[4])).times(inv),
        a[5].times(a[6]).minus(a[3].times(a[8])).times(inv),
        a[0].times(a[8]).minus(a[2].times(a[6])).times(inv),
        a[2].times(a[3]).minus(a[0].times(a[5])).times(inv),
        a[3].times(a[7]).minus(a[4].times(a[6])).times(inv),
        a[1].times(a[6]).minus(a[0].times(a[7])).times(inv),
        a[0].times(a[4]).minus(a[1].times(a[3])).times(inv),
    ];
    assert(m@ =~= cofactors_times(a@, inv));
    Some(m)
}

// ---- QR ---------------------------------------------------------------------

/// The identity matrix.
pub open spec fn identity<T: Scalar>(n: int) -> Seq<T> {
    Seq::new(
        (n * n) as nat,
        |p: int|
            if p / n == p % n {
                one::<T>()
            } else {
                zero::<T>()
            },
    )
}

fn identity_matrix<T: Scalar>(n: usize, total: usize) -> (r: Vec<T>)
    requires
        total == n * n,
    ensures
        r@ == identity::<T>(n as int),
{
    let mut r: Vec<T> = Vec::new();
    let mut p: usize = 0;
    while p < total
        invariant
            p <= total,
            total == n * n,
            r.len() == p,
            forall|j: int| 0 <= j < p ==> #[trigger] r[j] == identity::<T>(n as int)[j],
        decreases total - p,
    {
        proof {
            assert(n > 0) by (nonlinear_arith)
                requires
                    0 <= p < n * n,
            ;
        }
        if p / n == p % n {
            r.push(T::ratio(1, 1));
        } else {
            r.push(T::ratio(0, 1));
        }
        p = p + 1;
    }
    assert(r@ =~= identity::<T>(n as int));
    r
}

/// The terms `x[base + i * step] * v[i]` from `i == k` on.
pub open spec fn dot_term<T: Scalar>(
    x: Seq<T>,
    base: int,
    step: int,
    v: Seq<T>,
    k: int,
) -> spec_fn(int) -> T {
    |t: int| v[k + t].times_spec(x[base + (k + t) * step])
}

/// The terms `x[base + i * step] * v[i]` from `i == k` on, the other way round.
pub open spec fn dot_term_left<T: Scalar>(
    x: Seq<T>,
    base: int,
    step: int,
    v: Seq<T>,
    k: int,
) -> spec_fn(int) -> T {
    |t: int| x[base + (k + t) * step].times_spec(v[k + t])
}

/// A matrix that is being brought to triangular form, and the reflections so
/// far.
pub struct QrState<T> {
    pub r: Seq<T>,
    pub q: Seq<T>,
}

/// Column `k` from row `k` on, with zeros above it.
pub open spec fn lower_column<T: Scalar>(r: Seq<T>, n: int, k: int) -> Seq<T> {
    Seq::new(
        n as nat,
        |i: int|
            if i < k {
                zero::<T>()
            } else {
                r[i * n + k]
            },
    )
}

/// The sum of the squares of `v` from `k` on.
pub open spec fn square_sum<T: Scalar>(v: Seq<T>, n: int, k: int) -> T {
    accumulate(zero(), |t: int| v[k + t].times_spec(v[k + t]), (n - k) as nat)
}

/// The length of column `k` from row `k` on.
pub open spec fn column_length<T: Analytic>(r: Seq<T>, n: int, k: int) -> T {
    square_sum(lower_column(r, n, k), n, k).root_spec()
}

/// Not below zero.
pub open spec fn not_negative<T: Scalar>(x: T) -> bool {
    zero::<T>().less_spec(x) || zero::<T>().same_spec(x)
}

/// The vector whose mirror takes column `k` onto its axis.
pub open spec fn mirror<T: Analytic>(r: Seq<T>, n: int, k: int) -> Seq<T> {
    let len = column_length(r, n, k);
    let alpha = if not_negative(r[k * n + k]) {
        len.negated_spec()
    } else {
        len
    };
    let col = lower_column(r, n, k);
    col.update(k, col[k].minus_spec(alpha))
}

/// `2 * dot / len`.
pub open spec fn twice_over<T: Scalar>(dot: T, len: T) -> T {
    T::ratio_spec(2, 1).times_spec(dot).over_spec(len)
}

/// How much of the mirror is taken off column `j` of `r`.
pub open spec fn column_share<T: Scalar>(r: Seq<T>, v: Seq<T>, len: T, n: int, k: int, j: int) -> T {
    twice_over(accumulate(zero(), dot_term(r, j, n, v, k), (n - k) as nat), len)
}

/// How much of the mirror is taken off row `i` of `q`.
pub open spec fn row_share<T: Scalar>(q: Seq<T>, v: Seq<T>, len: T, n: int, k: int, i: int) -> T {
    twice_over(accumulate(zero(), dot_term_left(q, i * n, 1, v, k), (n - k) as nat), len)
}

/// One reflection.
pub open spec fn reflect<T: Analytic>(s: QrState<T>, n: int, k: int) -> QrState<T> {
    let v = mirror(s.r, n, k);
    let len = square_sum(v, n, k);
    if column_length(s.r, n, k).less_spec(tiny()) || len.less_spec(tiny()) {
        s
    } else {
        QrState {
            r: Seq::new(
                (n * n) as nat,
                |p: int|
                    if p / n >= k {
                        s.r[p].minus_spec(
                            column_share(s.r, v, len, n, k, p % n).times_spec(v[p / n]),
                        )
                    } else {
                        s.r[p]
                    },
            ),
            q: Seq::new(
                (n * n) as nat,
                |p: int|
                    if p % n >= k {
                        s.q[p].minus_spec(
                            row_share(s.q, v, len, n, k, p / n).times_spec(v[p % n]),
                        )
                    } else {
                        s.q[p]
                    },
            ),
        }
    }
}

/// The state after `k` reflections.
pub open spec fn reflected<T: Analytic>(a: Seq<T>, n: int, k: nat) -> QrState<T>
    decreases k,
{
    if k == 0 {
        QrState { r: a, q: identity(n) }
    } else {
        reflect(reflected(a, n, (k - 1) as nat), n, k - 1)
    }
}

/// A matrix with zeros below its diagonal.
pub open spec fn upper<T: Scalar>(r: Seq<T>, n: int) -> Seq<T> {
    Seq::new(
        (n * n) as nat,
        |p: int|
            if p % n < p / n {
                zero::<T>()
            } else {
                r[p]
            },
    )
}

/// How many reflections a matrix takes.
pub open spec fn reflections(n: int) -> nat {
    if n > 0 {
        (n - 1) as nat
    } else {
        0
    }
}

/// What [`householder_qr`] gives.
pub open spec fn qr_of<T: Analytic>(a: Seq<T>, n: int) -> (Seq<T>, Seq<T>) {
    let s = reflected(a, n, reflections(n));
    (s.q, upper(s.r, n))
}

fn sum_squares<T: Scalar>(v: &[T], k: usize) -> (r: T)
    requires
        k <= v.len(),
    ensures
        r == square_sum(v@, v.len() as int, k as int),
{
    let ghost f = |t: int| v@[k + t].times_spec(v@[k + t]);
    let mut s: T = T::ratio(0, 1);
    let mut i: usize = k;
    while i < v.len()
        invariant
            k <= i <= v.len(),
            f == (|t: int| v@[k + t].times_spec(v@[k + t])),
            s == accumulate(zero(), f, (i - k) as nat),
        decreases v.len() - i,
    {
        assert(f(i - k) == v@[i as int].times_spec(v@[i as int]));
        s = s.plus(v[i].times(v[i]));
        i = i + 1;
    }
    s
}

/// One reflection of `r` and `q` in place; whether it was done.
fn reflect_in_place<T: Analytic>(r: &mut Vec<T>, q: &mut Vec<T>, n: usize, k: usize)
    requires
        k < n,
        old(r).len() == n * n,
        old(q).len() == n * n,
    ensures
        final(r)@ == reflect(QrState { r: old(r)@, q: old(q)@ }, n as int, k as int).r,
        final(q)@ == reflect(QrState { r: old(r)@, q: old(q)@ }, n as int, k as int).q,
        final(r).len() == n * n,
        final(q).len() == n * n,
{
    let ghost s0 = QrState { r: r@, q: q@ };
    let nil: T = T::ratio(0, 1);
    let small: T = T::from_double_bits(0x01a5_6e1f_c2f8_f359);
    let mut v: Vec<T> = Vec::new();
    let mut i: usize = 0;
    while i < n
        invariant
            i <= n,
            k < n,
            r.len() == n * n,
            nil == zero::<T>(),
            v.len() == i,
            forall|j: int| 0 <= j < i ==> #[trigger] v[j] == lower_column(r@, n as int, k as int)[j],
        decreases n - i,
    {
        proof {
            lemma_within(i as int, n as int, k as int, n as int);
        }
        if i < k {
            v.push(nil);
        } else {
            v.push(r[i * n + k]);
        }
        i = i + 1;
    }
    assert(v@ =~= lower_column(r@, n as int, k as int));
    let length: T = sum_squares(v.as_slice(), k).root();
    if length.less(small) {
        return;
    }
    proof {
        lemma_within(k as int, n as int, k as int, n as int);
    }
    let pivot: T = r[k * n + k];
    let alpha: T = if nil.less(pivot) || nil.same(pivot) {
        length.negated()
    } else {
        length
    };
    let head: T = v[k].minus(alpha);
    v[k] = head;
    assert(v@ =~= mirror(s0.r, n as int, k as int));
    let len: T = sum_squares(v.as_slice(), k);
    if len.less(small) {
        return;
    }
    let ghost want = reflect(s0, n as int, k as int);
    let total: usize = r.len();
    let shares: Vec<T> = column_shares(r.as_slice(), v.as_slice(), len, n, k);
    let rows: Vec<T> = row_shares(q.as_slice(), v.as_slice(), len, n, k);
    let mut p: usize = 0;
    while p < total
        invariant
            p <= total,
            k < n,
            total == n * n,
            r.len() == total,
            q.len() == total,
            v.len() == n,
            shares.len() == n,
            rows.len() == n,
            v@ == mirror(s0.r, n as int, k as int),
            len == square_sum(v@, n as int, k as int),
            want == reflect(s0, n as int, k as int),
            !column_length(s0.r, n as int, k as int).less_spec(tiny()),
            !len.less_spec(tiny()),
            forall|j: int|
                0 <= j < n ==> #[trigger] shares[j] == column_share(
                    s0.r,
                    v@,
                    len,
                    n as int,
                    k as int,
                    j,
                ),
            forall|j: int|
                0 <= j < n ==> #[trigger] rows[j] == row_share(
                    s0.q,
                    v@,
                    len,
                    n as int,
                    k as int,
                    j,
                ),
            forall|j: int| 0 <= j < p ==> #[trigger] r[j] == want.r[j],
            forall|j: int| p <= j < total ==> #[trigger] r[j] == s0.r[j],
            forall|j: int| 0 <= j < p ==> #[trigger] q[j] == want.q[j],
            forall|j: int| p <= j < total ==> #[trigger] q[j] == s0.q[j],
        decreases total - p,
    {
        proof {
            lemma_row_within(p as int, n as int, n as int);
            lemma_join(p as int, n as int);
        }
        let row: usize = p / n;
        let col: usize = p % n;
        if row >= k {
            let x: T = r[p].minus(shares[col].times(v[row]));
            r[p] = x;
        }
        if col >= k {
            let x: T = q[p].minus(rows[row].times(v[col]));
            q[p] = x;
        }
        p = p + 1;
    }
    assert(r@ =~= want.r);
    assert(q@ =~= want.q);
}

fn column_shares<T: Scalar>(r: &[T], v: &[T], len: T, n: usize, k: usize) -> (f: Vec<T>)
    requires
        k < n,
        r.len() == n * n,
        v.len() == n,
    ensures
        f.len() == n,
        forall|j: int|
            0 <= j < n ==> #[trigger] f[j] == column_share(r@, v@, len, n as int, k as int, j),
{
    let two: T = T::ratio(2, 1);
    let mut f: Vec<T> = Vec::new();
    let mut j: usize = 0;
    while j < n
        invariant
            j <= n,
            k < n,
            r.len() == n * n,
            v.len() == n,
            two == T::ratio_spec(2, 1),
            f.len() == j,
            forall|i: int|
                0 <= i < j ==> #[trigger] f[i] == column_share(r@, v@, len, n as int, k as int, i),
        decreases n - j,
    {
        let mut dot: T = T::ratio(0, 1);
        let mut i: usize = k;
        let ghost t = dot_term(r@, j as int, n as int, v@, k as int);
        while i < n
            invariant
                k <= i <= n,
                j < n,
                r.len() == n * n,
                v.len() == n,
                t == dot_term(r@, j as int, n as int, v@, k as int),
                dot == accumulate(zero(), t, (i - k) as nat),
            decreases n - i,
        {
            proof {
                lemma_within(i as int, n as int, j as int, n as int);
                assert(t(i - k) == v@[i as int].times_spec(r@[i * n + j]));
            }
            dot = dot.plus(v[i].times(r[i * n + j]));
            i = i + 1;
        }
        f.push(two.times(dot).over(len));
        j = j + 1;
    }
    f
}

fn row_shares<T: Scalar>(q: &[T], v: &[T], len: T, n: usize, k: usize) -> (f: Vec<T>)
    requires
        k < n,
        q.len() == n * n,
        v.len() == n,
    ensures
        f.len() == n,
        forall|j: int|
            0 <= j < n ==> #[trigger] f[j] == row_share(q@, v@, len, n as int, k as int, j),
{
    let two: T = T::ratio(2, 1);
    let mut f: Vec<T> = Vec::new();
    let mut j: usize = 0;
    while j < n
        invariant
            j <= n,
            k < n,
            q.len() == n * n,
            v.len() == n,
            two == T::ratio_spec(2, 1),
            f.len() == j,
            forall|i: int|
                0 <= i < j ==> #[trigger] f[i] == row_share(q@, v@, len, n as int, k as int, i),
        decreases n - j,
    {
        let mut dot: T = T::ratio(0, 1);
        let mut i: usize = k;
        let ghost t = dot_term_left(q@, j * n, 1, v@, k as int);
        while i < n
            invariant
                k <= i <= n,
                j < n,
                q.len() == n * n,
                v.len() == n,
                t == dot_term_left(q@, j * n, 1, v@, k as int),
                dot == accumulate(zero(), t, (i - k) as nat),
            decreases n - i,
        {
            proof {
                lemma_within(j as int, n as int, i as int, n as int);
                assert(t(i - k) == q@[j * n + i].times_spec(v@[i as int]));
            }
            dot = dot.plus(q[j * n + i].times(v[i]));
            i = i + 1;
        }
        f.push(two.times(dot).over(len));
        j = j + 1;
    }
    f
}

pub(crate) fn copy_of<T: Scalar>(v: &[T]) -> (r: Vec<T>)
    ensures
        r@ == v@,
{
    let mut r: Vec<T> = Vec::new();
    let mut i: usize = 0;
    while i < v.len()
        invariant
            i <= v.len(),
            r@ == v@.take(i as int),
        decreases v.len() - i,
    {
        r.push(v[i]);
        assert(r@ =~= v@.take(i + 1));
        i = i + 1;
    }
    assert(v@.take(i as int) =~= v@);
    r
}

/// Householder QR of an `n` by `n` matrix: `(q, r)` with `r` upper triangular.
///
/// The last column is not reflected, so its diagonal element keeps its sign.
pub fn householder_qr<T: Analytic>(a: &[T], n: usize) -> (r: (Vec<T>, Vec<T>))
    requires
        a.len() == n * n,
    ensures
        r.0@ == qr_of(a@, n as int).0,
        r.1@ == qr_of(a@, n as int).1,
        r.0.len() == n * n,
        r.1.len() == n * n,
{
    let total: usize = a.len();
    let mut r: Vec<T> = copy_of(a);
    let mut q: Vec<T> = identity_matrix(n, total);
    let count: usize = if n > 0 {
        n - 1
    } else {
        0
    };
    let mut k: usize = 0;
    while k < count
        invariant
            k <= count,
            count == reflections(n as int),
            n > 0 ==> count < n,
            r.len() == n * n,
            q.len() == n * n,
            r@ == reflected(a@, n as int, k as nat).r,
            q@ == reflected(a@, n as int, k as nat).q,
        decreases count - k,
    {
        reflect_in_place(&mut r, &mut q, n, k);
        k = k + 1;
    }
    let ghost full = r@;
    let mut p: usize = 0;
    while p < total
        invariant
            p <= total,
            total == n * n,
            r.len() == total,
            forall|j: int| 0 <= j < p ==> #[trigger] r[j] == upper(full, n as int)[j],
            forall|j: int| p <= j < total ==> #[trigger] r[j] == full[j],
        decreases total - p,
    {
        proof {
            assert(n > 0) by (nonlinear_arith)
                requires
                    0 <= p < n * n,
            ;
        }
        if p % n < p / n {
            r[p] = T::ratio(0, 1);
        }
        p = p + 1;
    }
    assert(r@ =~= upper(full, n as int));
    (q, r)
}

/// The second factor of a QR decomposition is upper triangular.
pub proof fn law_qr_triangular<T: Analytic>(a: Seq<T>, n: int, i: int, j: int)
    requires
        0 <= j < i < n,
    ensures
        qr_of(a, n).1[i * n + j] == zero::<T>(),
{
    lemma_within(i, n, j, n);
    lemma_split(i, n, j);
}

/// Householder QR of a 3x3 matrix.
pub fn qr3x3<T: Analytic>(a: &[T; 9]) -> (r: ([T; 9], [T; 9]))
    ensures
        r.0@ == qr_of(a@, 3).0,
        r.1@ == qr_of(a@, 3).1,
{
    let (q, r): (Vec<T>, Vec<T>) = householder_qr(a.as_slice(), 3);
    (nine(q.as_slice()), nine(r.as_slice()))
}

/// A 3x3 matrix with its columns in reverse.
pub open spec fn columns_reversed<T>(a: Seq<T>) -> Seq<T> {
    seq![a[2], a[1], a[0], a[5], a[4], a[3], a[8], a[7], a[6]]
}

/// What [`ql_decomposition`] gives: QR of the matrix with its columns reversed,
/// turned back, with the signs moved so that the diagonal is not negative.
pub open spec fn ql_of<T: Analytic>(a: Seq<T>) -> (Seq<T>, Seq<T>) {
    let (qt, rt) = qr_of(columns_reversed(a), 3);
    let q = columns_reversed(qt);
    let l = seq![rt[8], rt[7], rt[6], rt[5], rt[4], rt[3], rt[2], rt[1], rt[0]];
    let signs = seq![side_of(l[0]), side_of(l[4]), side_of(l[8])];
    (
        Seq::new(9, |p: int| q[p].times_spec(signs[p % 3])),
        Seq::new(9, |p: int| l[p].times_spec(signs[p / 3])),
    )
}

/// The decomposition `a == q * l` of a 3x3 matrix with `l` lower triangular, its
/// diagonal not negative.
pub fn ql_decomposition<T: Analytic>(a: &[T; 9]) -> (r: ([T; 9], [T; 9]))
    ensures
        r.0@ == ql_of(a@).0,
        r.1@ == ql_of(a@).1,
{
    let at: [T; 9] = [a[2], a[1], a[0], a[5], a[4], a[3], a[8], a[7], a[6]];
    assert(at@ =~= columns_reversed(a@));
    let (qt, rt): ([T; 9], [T; 9]) = qr3x3(&at);
    let s0: T = side(rt[8]);
    let s1: T = side(rt[4]);
    let s2: T = side(rt[0]);
    let q: [T; 9] = [
        qt[2].times(s0),
        qt[1].times(s1),
        qt[0].times(s2),
        qt[5].times(s0),
        qt[4].times(s1),
        qt[3].times(s2),
        qt[8].times(s0),
        qt[7].times(s1),
        qt[6].times(s2),
    ];
    let l: [T; 9] = [
        rt[8].times(s0),
        rt[7].times(s0),
        rt[6].times(s0),
        rt[5].times(s1),
        rt[4].times(s1),
        rt[3].times(s1),
        rt[2].times(s2),
        rt[1].times(s2),
        rt[0].times(s2),
    ];
    assert(q@ =~= ql_of(a@).0);
    assert(l@ =~= ql_of(a@).1);
    (q, l)
}

/// The second factor of a QL decomposition is lower triangular, and its diagonal
/// is not negative unless it holds the least number there is.
pub proof fn law_ql_triangular(a: Seq<Fixed>, i: int, j: int)
    requires
        0 <= i < 3,
        i <= j < 3,
    ensures
        i < j ==> ql_of(a).1[i * 3 + j] == zero::<Fixed>(),
        i == j && qr_of(columns_reversed(a), 3).1[8 - 4 * i].0 != i64::MIN ==> ql_of(a).1[i * 3
            + j].0 >= 0,
{
    let r = qr_of(columns_reversed(a), 3).1;
    law_qr_triangular(columns_reversed(a), 3, 1, 0);
    law_qr_triangular(columns_reversed(a), 3, 2, 0);
    law_qr_triangular(columns_reversed(a), 3, 2, 1);
    assert(65536u64 / 1u64 == 65536);
    assert(0u64 / 1u64 == 0);
    assert(zero::<Fixed>() == Fixed(0));
    assert(one::<Fixed>() == Fixed(65536));
    assert(Fixed::ratio_spec((-1) as i32, 1) == Fixed((-65536) as i64));
    lemma_times_unit(Fixed(0));
    lemma_times_unit(r[0]);
    lemma_times_unit(r[4]);
    lemma_times_unit(r[8]);
    assert((i, j) == (0int, 0int) || (i, j) == (0int, 1int) || (i, j) == (0int, 2int) || (i, j) == (
        1int,
        1int,
    ) || (i, j) == (1int, 2int) || (i, j) == (2int, 2int));
}

/// The 3x3 identity in fixed point.
pub open spec fn identity3() -> Seq<Fixed> {
    let (u, z) = (Fixed(65536), Fixed(0));
    seq![u, z, z, z, u, z, z, z, u]
}

/// In fixed point, a product with the identity is the other factor.
pub proof fn law_identity3(a: Seq<Fixed>)
    requires
        a.len() == 9,
    ensures
        product_of(a, identity3(), 3) == a,
        product_of(identity3(), a, 3) == a,
{
    let e = identity3();
    assert(0u64 / 1u64 == 0);
    assert(zero::<Fixed>() == Fixed(0));
    assert forall|p: int| 0 <= p < 9 implies #[trigger] product_of(a, e, 3)[p] == a[p] && product_of(
        e,
        a,
        3,
    )[p] == a[p] by {
        let f = product_term(a, e, 3, p);
        let g = product_term(e, a, 3, p);
        let v = a[p];
        assert forall|k: int| 0 <= k < 3 implies #[trigger] f(k) == (if k == p % 3 {
            v
        } else {
            Fixed(0)
        }) by {
            lemma_times_unit(a[(p / 3) * 3 + k]);
        }
        assert forall|k: int| 0 <= k < 3 implies #[trigger] g(k) == (if k == p / 3 {
            v
        } else {
            Fixed(0)
        }) by {
            lemma_times_unit(a[k * 3 + p % 3]);
        }
        lemma_plus(Fixed(0), Fixed(0));
        lemma_plus(Fixed(0), v);
        lemma_plus(v, Fixed(0));
        reveal_with_fuel(accumulate, 4);
        assert(f(0) == f(0) && f(1) == f(1) && f(2) == f(2));
        assert(g(0) == g(0) && g(1) == g(1) && g(2) == g(2));
    }
    assert(product_of(a, e, 3) =~= a);
    assert(product_of(e, a, 3) =~= a);
}

// ---- eigenvectors -----------------------------------------------------------

/// A symmetric matrix that is being brought to diagonal form, and the rotations
/// so far.
pub struct EigenState<T> {
    pub a: Seq<T>,
    pub v: Seq<T>,
}

/// Columns `p` and `q` of a matrix rotated by the angle with cosine `c` and
/// sine `s`.
pub open spec fn columns_rotated<T: Scalar>(a: Seq<T>, n: int, p: int, q: int, c: T, s: T) -> Seq<T> {
    Seq::new(
        (n * n) as nat,
        |x: int|
            {
                let row = x / n * n;
                if x % n == p {
                    c.times_spec(a[row + p]).minus_spec(s.times_spec(a[row + q]))
                } else if x % n == q {
                    s.times_spec(a[row + p]).plus_spec(c.times_spec(a[row + q]))
                } else {
                    a[x]
                }
            },
    )
}

/// Rows `p` and `q` of a matrix rotated likewise.
pub open spec fn rows_rotated<T: Scalar>(a: Seq<T>, n: int, p: int, q: int, c: T, s: T) -> Seq<T> {
    Seq::new(
        (n * n) as nat,
        |x: int|
            {
                let col = x % n;
                if x / n == p {
                    c.times_spec(a[p * n + col]).minus_spec(s.times_spec(a[q * n + col]))
                } else if x / n == q {
                    s.times_spec(a[p * n + col]).plus_spec(c.times_spec(a[q * n + col]))
                } else {
                    a[x]
                }
            },
    )
}

/// The tangent of the angle that makes the elements at `(p, q)` and `(q, p)`
/// zero.
pub open spec fn jacobi_tangent<T: Analytic>(a: Seq<T>, n: int, p: int, q: int) -> T {
    let theta = a[q * n + q].minus_spec(a[p * n + p]).over_spec(
        T::ratio_spec(2, 1).times_spec(a[p * n + q]),
    );
    if theta.same_spec(zero()) {
        one()
    } else {
        sign_of(theta).over_spec(
            theta.magnitude_spec().plus_spec(
                theta.times_spec(theta).plus_spec(one()).root_spec(),
            ),
        )
    }
}

/// One rotation.
pub open spec fn rotated<T: Analytic>(st: EigenState<T>, n: int, p: int, q: int) -> EigenState<T> {
    if st.a[p * n + q].magnitude_spec().less_spec(tiny()) {
        st
    } else {
        let t = jacobi_tangent(st.a, n, p, q);
        let c = one::<T>().over_spec(t.times_spec(t).plus_spec(one()).root_spec());
        let s = t.times_spec(c);
        EigenState {
            a: rows_rotated(columns_rotated(st.a, n, p, q, c, s), n, p, q, c, s),
            v: columns_rotated(st.v, n, p, q, c, s),
        }
    }
}

/// The rotations of one sweep from `(p, q)` on.
pub open spec fn swept<T: Analytic>(st: EigenState<T>, n: int, p: int, q: int) -> EigenState<T>
    decreases n - p, n - q,
{
    if p >= n {
        st
    } else if q >= n {
        swept(st, n, p + 1, p + 2)
    } else {
        swept(rotated(st, n, p, q), n, p, q + 1)
    }
}

/// The squares of the elements above the diagonal from `(p, q)` on, added to
/// `sum`.
pub open spec fn off_diagonal<T: Scalar>(a: Seq<T>, n: int, p: int, q: int, sum: T) -> T
    decreases n - p, n - q,
{
    if p >= n {
        sum
    } else if q >= n {
        off_diagonal(a, n, p + 1, p + 2, sum)
    } else {
        off_diagonal(a, n, p, q + 1, sum.plus_spec(a[p * n + q].times_spec(a[p * n + q])))
    }
}

/// Sweeps until the matrix is diagonal up to 1e-30, at most `left`.
pub open spec fn sweeps<T: Analytic>(st: EigenState<T>, n: int, left: nat) -> EigenState<T>
    decreases left,
{
    if left == 0 || off_diagonal(st.a, n, 0, 1, zero()).less_spec(
        T::from_double_bits_spec(0x39b4_484b_feeb_c2a0),
    ) {
        st
    } else {
        sweeps(swept(st, n, 0, 1), n, (left - 1) as nat)
    }
}

/// What [`jacobi_eigen_sym`] gives.
pub open spec fn eigen_of<T: Analytic>(m: Seq<T>, n: int) -> (Seq<T>, Seq<T>) {
    let st = sweeps(EigenState { a: m, v: identity(n) }, n, 100);
    (Seq::new(n as nat, |i: int| st.a[i * n + i]), st.v)
}

fn rotate_columns<T: Scalar>(a: &mut Vec<T>, n: usize, p: usize, q: usize, c: T, s: T)
    requires
        p < q < n,
        old(a).len() == n * n,
    ensures
        final(a)@ == columns_rotated(old(a)@, n as int, p as int, q as int, c, s),
        final(a).len() == n * n,
{
    let ghost a0 = a@;
    let ghost want = columns_rotated(a0, n as int, p as int, q as int, c, s);
    let mut i: usize = 0;
    while i < n
        invariant
            i <= n,
            p < q < n,
            a.len() == n * n,
            a0.len() == n * n,
            want == columns_rotated(a0, n as int, p as int, q as int, c, s),
            forall|x: int| 0 <= x < i * n ==> #[trigger] a[x] == want[x],
            forall|x: int| i * n <= x < n * n ==> #[trigger] a[x] == a0[x],
        decreases n - i,
    {
        proof {
            lemma_within(i as int, n as int, p as int, n as int);
            lemma_within(i as int, n as int, q as int, n as int);
        }
        let x: T = a[i * n + p];
        let y: T = a[i * n + q];
        let np: T = c.times(x).minus(s.times(y));
        let nq: T = s.times(x).plus(c.times(y));
        a[i * n + p] = np;
        a[i * n + q] = nq;
        proof {
            assert((i + 1) * n == i * n + n) by (nonlinear_arith);
            assert forall|x: int| 0 <= x < (i + 1) * n implies #[trigger] a[x] == want[x] by {
                if x >= i * n {
                    lemma_split(i as int, n as int, x - i * n);
                }
            }
        }
        i = i + 1;
    }
    assert(a@ =~= want);
}

fn rotate_rows<T: Scalar>(a: &mut Vec<T>, n: usize, p: usize, q: usize, c: T, s: T)
    requires
        p < q < n,
        old(a).len() == n * n,
    ensures
        final(a)@ == rows_rotated(old(a)@, n as int, p as int, q as int, c, s),
        final(a).len() == n * n,
{
    let ghost a0 = a@;
    let ghost want = rows_rotated(a0, n as int, p as int, q as int, c, s);
    let mut i: usize = 0;
    while i < n
        invariant
            i <= n,
            p < q < n,
            a.len() == n * n,
            a0.len() == n * n,
            want == rows_rotated(a0, n as int, p as int, q as int, c, s),
            forall|x: int|
                0 <= x < n * n ==> #[trigger] a[x] == (if x % (n as int) < i {
                    want[x]
                } else {
                    a0[x]
                }),
        decreases n - i,
    {
        proof {
            lemma_within(p as int, n as int, i as int, n as int);
            lemma_within(q as int, n as int, i as int, n as int);
            lemma_split(p as int, n as int, i as int);
            lemma_split(q as int, n as int, i as int);
        }
        let x: T = a[p * n + i];
        let y: T = a[q * n + i];
        let np: T = c.times(x).minus(s.times(y));
        let nq: T = s.times(x).plus(c.times(y));
        let ghost before = a@;
        proof {
            assert(p * n + i != q * n + i) by (nonlinear_arith)
                requires
                    p < q,
                    n > 0,
            ;
        }
        a[p * n + i] = np;
        a[q * n + i] = nq;
        proof {
            assert forall|x: int| 0 <= x < n * n implies #[trigger] a[x] == (if x % (n as int) < i
                + 1 {
                want[x]
            } else {
                a0[x]
            }) by {
                lemma_join(x, n as int);
                if x % (n as int) == i {
                    if x / (n as int) == p {
                        assert(x == p * n + i);
                    } else if x / (n as int) == q {
                        assert(x == q * n + i);
                    } else {
                        if x == p * n + i {
                            assert(false);
                        }
                        if x == q * n + i {
                            assert(false);
                        }
                        assert(a[x] == before[x]);
                    }
                } else {
                    assert(a[x] == before[x]);
                }
            }
        }
        i = i + 1;
    }
    proof {
        assert forall|x: int| 0 <= x < n * n implies a[x] == want[x] by {
            lemma_join(x, n as int);
        }
    }
    assert(a@ =~= want);
}

fn rotate<T: Analytic>(a: &mut Vec<T>, v: &mut Vec<T>, n: usize, p: usize, q: usize)
    requires
        p < q < n,
        old(a).len() == n * n,
        old(v).len() == n * n,
    ensures
        final(a)@ == rotated(
            EigenState { a: old(a)@, v: old(v)@ },
            n as int,
            p as int,
            q as int,
        ).a,
        final(v)@ == rotated(
            EigenState { a: old(a)@, v: old(v)@ },
            n as int,
            p as int,
            q as int,
        ).v,
        final(a).len() == n * n,
        final(v).len() == n * n,
{
    proof {
        lemma_within(p as int, n as int, q as int, n as int);
        lemma_within(p as int, n as int, p as int, n as int);
        lemma_within(q as int, n as int, q as int, n as int);
    }
    let apq: T = a[p * n + q];
    if apq.magnitude().less(T::from_double_bits(0x01a5_6e1f_c2f8_f359)) {
        return;
    }
    let unit: T = T::ratio(1, 1);
    let theta: T = a[q * n + q].minus(a[p * n + p]).over(T::ratio(2, 1).times(apq));
    let t: T = if theta.same(T::ratio(0, 1)) {
        unit
    } else {
        sign(theta).over(theta.magnitude().plus(theta.times(theta).plus(unit).root()))
    };
    let c: T = unit.over(t.times(t).plus(unit).root());
    let s: T = t.times(c);
    rotate_columns(a, n, p, q, c, s);
    rotate_rows(a, n, p, q, c, s);
    rotate_columns(v, n, p, q, c, s);
}

fn off_sum<T: Scalar>(a: &[T], n: usize) -> (r: T)
    requires
        a.len() == n * n,
        n < usize::MAX,
    ensures
        r == off_diagonal(a@, n as int, 0, 1, zero()),
{
    let mut sum: T = T::ratio(0, 1);
    let mut p: usize = 0;
    while p < n
        invariant
            p <= n,
            n < usize::MAX,
            a.len() == n * n,
            off_diagonal(a@, n as int, p as int, p + 1, sum) == off_diagonal(
                a@,
                n as int,
                0,
                1,
                zero(),
            ),
        decreases n - p,
    {
        let mut q: usize = p + 1;
        while q < n
            invariant
                p < n,
                p < q <= n,
                a.len() == n * n,
                off_diagonal(a@, n as int, p as int, q as int, sum) == off_diagonal(
                    a@,
                    n as int,
                    0,
                    1,
                    zero(),
                ),
            decreases n - q,
        {
            proof {
                lemma_within(p as int, n as int, q as int, n as int);
            }
            sum = sum.plus(a[p * n + q].times(a[p * n + q]));
            q = q + 1;
        }
        p = p + 1;
    }
    sum
}

/// Cyclic Jacobi eigendecomposition of a symmetric `n` by `n` matrix: the
/// eigenvalues, unsorted, and the eigenvectors as columns.
pub fn jacobi_eigen_sym<T: Analytic>(m: &[T], n: usize) -> (r: (Vec<T>, Vec<T>))
    requires
        m.len() == n * n,
        n < usize::MAX,
    ensures
        r.0@ == eigen_of(m@, n as int).0,
        r.1@ == eigen_of(m@, n as int).1,
        r.0.len() == n,
        r.1.len() == n * n,
{
    let mut a: Vec<T> = copy_of(m);
    let mut v: Vec<T> = identity_matrix(n, m.len());
    let ghost st0 = EigenState { a: a@, v: v@ };
    let ghost want = sweeps(st0, n as int, 100);
    let limit: T = T::from_double_bits(0x39b4_484b_feeb_c2a0);
    let mut left: usize = 100;
    while left > 0 && !off_sum(a.as_slice(), n).less(limit)
        invariant
            left <= 100,
            n < usize::MAX,
            a.len() == n * n,
            v.len() == n * n,
            limit == T::from_double_bits_spec(0x39b4_484b_feeb_c2a0),
            sweeps(EigenState { a: a@, v: v@ }, n as int, left as nat) == want,
        decreases left,
    {
        let ghost st = EigenState { a: a@, v: v@ };
        let mut p: usize = 0;
        while p < n
            invariant
                p <= n,
                n < usize::MAX,
                a.len() == n * n,
                v.len() == n * n,
                swept(EigenState { a: a@, v: v@ }, n as int, p as int, p + 1) == swept(
                    st,
                    n as int,
                    0,
                    1,
                ),
            decreases n - p,
        {
            let mut q: usize = p + 1;
            while q < n
                invariant
                    p < n,
                    p < q <= n,
                    a.len() == n * n,
                    v.len() == n * n,
                    swept(EigenState { a: a@, v: v@ }, n as int, p as int, q as int) == swept(
                        st,
                        n as int,
                        0,
                        1,
                    ),
                decreases n - q,
            {
                rotate(&mut a, &mut v, n, p, q);
                q = q + 1;
            }
            p = p + 1;
        }
        left = left - 1;
    }
    let mut values: Vec<T> = Vec::new();
    let mut i: usize = 0;
    while i < n
        invariant
            i <= n,
            a.len() == n * n,
            values.len() == i,
            a@ == want.a,
            forall|j: int| 0 <= j < i ==> #[trigger] values[j] == want.a[j * n + j],
        decreases n - i,
    {
        proof {
            lemma_within(i as int, n as int, i as int, n as int);
        }
        values.push(a[i * n + i]);
        i = i + 1;
    }
    assert(values@ =~= eigen_of(m@, n as int).0);
    (values, v)
}

/// The first index of a smallest number among the first `n`.
pub open spec fn least_index<T: Scalar>(v: Seq<T>, n: nat) -> int
    decreases n,
{
    if n <= 1 {
        0
    } else {
        let before = least_index(v, (n - 1) as nat);
        if v[n - 1].less_spec(v[before]) {
            n - 1
        } else {
            before
        }
    }
}

/// What [`smallest_eigvec`] gives: the column of the smallest eigenvalue.
pub open spec fn smallest_of<T: Analytic>(m: Seq<T>, n: int) -> Seq<T> {
    let (values, vectors) = eigen_of(m, n);
    Seq::new(n as nat, |i: int| vectors[i * n + least_index(values, n as nat)])
}

/// The eigenvector of the smallest eigenvalue of a symmetric matrix.
pub fn smallest_eigvec<T: Analytic>(m: &[T], n: usize) -> (r: Vec<T>)
    requires
        m.len() == n * n,
        n < usize::MAX,
    ensures
        r@ == smallest_of(m@, n as int),
{
    let (values, vectors): (Vec<T>, Vec<T>) = jacobi_eigen_sym(m, n);
    let mut best: usize = 0;
    let mut i: usize = 1;
    while i < n
        invariant
            1 <= i,
            n > 0 ==> i <= n,
            values.len() == n,
            n > 0 ==> best < n && best < i,
            n > 0 ==> best == least_index(values@, i as nat),
        decreases n - i,
    {
        if values[i].less(values[best]) {
            best = i;
        }
        i = i + 1;
    }
    let mut r: Vec<T> = Vec::new();
    let mut k: usize = 0;
    while k < n
        invariant
            k <= n,
            vectors.len() == n * n,
            n > 0 ==> best < n,
            r.len() == k,
            forall|j: int| 0 <= j < k ==> #[trigger] r[j] == vectors[j * n + best],
        decreases n - k,
    {
        proof {
            lemma_within(k as int, n as int, best as int, n as int);
        }
        r.push(vectors[k * n + best]);
        k = k + 1;
    }
    assert(r@ =~= smallest_of(m@, n as int));
    r
}

// ---- homography -------------------------------------------------------------

/// The weight of a point pair: the square root of its confidence, zero where
/// that is negative.
pub open spec fn root_weight<T: Analytic>(w: T) -> T {
    if w.less_spec(zero()) {
        zero()
    } else {
        w.root_spec()
    }
}

/// The first equation of a point pair.
pub open spec fn first_row<T: Scalar>(x: T, y: T, u: T, sw: T) -> Seq<T> {
    seq![
        x.negated_spec().times_spec(sw),
        y.negated_spec().times_spec(sw),
        sw.negated_spec(),
        zero(),
        zero(),
        zero(),
        x.times_spec(u).times_spec(sw),
        y.times_spec(u).times_spec(sw),
        u.times_spec(sw),
    ]
}

/// The second equation of a point pair.
pub open spec fn second_row<T: Scalar>(x: T, y: T, v: T, sw: T) -> Seq<T> {
    seq![
        zero(),
        zero(),
        zero(),
        x.negated_spec().times_spec(sw),
        y.negated_spec().times_spec(sw),
        sw.negated_spec(),
        x.times_spec(v).times_spec(sw),
        y.times_spec(v).times_spec(sw),
        v.times_spec(sw),
    ]
}

/// What point pair `k` adds to element `p` of the normal equations.
pub open spec fn normal_term<T: Analytic>(src: Seq<T>, dst: Seq<T>, w: Seq<T>, p: int) -> spec_fn(
    int,
) -> T {
    |k: int|
        {
            let sw = root_weight(w[k]);
            let r1 = first_row(src[2 * k], src[2 * k + 1], dst[2 * k], sw);
            let r2 = second_row(src[2 * k], src[2 * k + 1], dst[2 * k + 1], sw);
            r1[p / 9].times_spec(r1[p % 9]).plus_spec(r2[p / 9].times_spec(r2[p % 9]))
        }
}

/// The normal equations of `m` point pairs.
pub open spec fn normal_of<T: Analytic>(src: Seq<T>, dst: Seq<T>, w: Seq<T>, m: nat) -> Seq<T> {
    Seq::new(81, |p: int| accumulate(zero(), normal_term(src, dst, w, p), m))
}

/// The homography that takes `src` to `dst` with the least weighted squared
/// error, its last element one; `None` where that element is as good as zero.
///
/// Points are interleaved `x, y`.
pub fn homography_weighted<T: Analytic>(src: &[T], dst: &[T], w: &[T], m: usize) -> (r: Option<
    [T; 9],
>)
    requires
        2 * m <= src.len(),
        2 * m <= dst.len(),
        m <= w.len(),
    ensures
        ({
            let h = smallest_of(normal_of(src@, dst@, w@, m as nat), 9);
            let inv = one::<T>().over_spec(h[8]);
            match r {
                Some(out) => {
                    &&& !h[8].magnitude_spec().less_spec(tiny())
                    &&& out@ == Seq::new(9, |i: int| h[i].times_spec(inv))
                },
                None => h[8].magnitude_spec().less_spec(tiny()),
            }
        }),
{
    let nil: T = T::ratio(0, 1);
    let mut ata: Vec<T> = Vec::new();
    let mut z: usize = 0;
    while z < 81
        invariant
            z <= 81,
            ata.len() == z,
            nil == zero::<T>(),
            forall|p: int|
                0 <= p < z ==> #[trigger] ata[p] == accumulate(
                    zero(),
                    normal_term(src@, dst@, w@, p),
                    0,
                ),
        decreases 81 - z,
    {
        ata.push(nil);
        z = z + 1;
    }
    let mut k: usize = 0;
    while k < m
        invariant
            k <= m,
            2 * m <= src.len(),
            2 * m <= dst.len(),
            m <= w.len(),
            nil == zero::<T>(),
            ata.len() == 81,
            forall|p: int|
                0 <= p < 81 ==> #[trigger] ata[p] == accumulate(
                    zero(),
                    normal_term(src@, dst@, w@, p),
                    k as nat,
                ),
        decreases m - k,
    {
        let x: T = src[2 * k];
        let y: T = src[2 * k + 1];
        let u: T = dst[2 * k];
        let v: T = dst[2 * k + 1];
        let sw: T = if w[k].less(nil) {
            nil
        } else {
            w[k].root()
        };
        let r1: [T; 9] = [
            x.negated().times(sw),
            y.negated().times(sw),
            sw.negated(),
            nil,
            nil,
            nil,
            x.times(u).times(sw),
            y.times(u).times(sw),
            u.times(sw),
        ];
        let r2: [T; 9] = [
            nil,
            nil,
            nil,
            x.negated().times(sw),
            y.negated().times(sw),
            sw.negated(),
            x.times(v).times(sw),
            y.times(v).times(sw),
            v.times(sw),
        ];
        assert(r1@ =~= first_row(x, y, u, sw));
        assert(r2@ =~= second_row(x, y, v, sw));
        let mut p: usize = 0;
        while p < 81
            invariant
                p <= 81,
                k < m,
                ata.len() == 81,
                r1@ == first_row(x, y, u, sw),
                r2@ == second_row(x, y, v, sw),
                x == src[2 * k],
                y == src[2 * k + 1],
                u == dst[2 * k],
                v == dst[2 * k + 1],
                sw == root_weight(w[k as int]),
                forall|j: int|
                    p <= j < 81 ==> #[trigger] ata[j] == accumulate(
                        zero(),
                        normal_term(src@, dst@, w@, j),
                        k as nat,
                    ),
                forall|j: int|
                    0 <= j < p ==> #[trigger] ata[j] == accumulate(
                        zero(),
                        normal_term(src@, dst@, w@, j),
                        (k + 1) as nat,
                    ),
            decreases 81 - p,
        {
            let i: usize = p / 9;
            let j: usize = p % 9;
            proof {
                let t = normal_term(src@, dst@, w@, p as int);
                assert(t(k as int) == r1@[i as int].times_spec(r1@[j as int]).plus_spec(
                    r2@[i as int].times_spec(r2@[j as int]),
                ));
            }
            let sum: T = ata[p].plus(r1[i].times(r1[j]).plus(r2[i].times(r2[j])));
            ata[p] = sum;
            p = p + 1;
        }
        k = k + 1;
    }
    assert(ata@ =~= normal_of(src@, dst@, w@, m as nat));
    let h: Vec<T> = smallest_eigvec(ata.as_slice(), 9);
    let last: T = h[8];
    if last.magnitude().less(T::from_double_bits(0x01a5_6e1f_c2f8_f359)) {
        return None;
    }
    let inv: T = T::ratio(1, 1).over(last);
    let out: [T; 9] = [
        h[0].times(inv),
        h[1].times(inv),
        h[2].times(inv),
        h[3].times(inv),
        h[4].times(inv),
        h[5].times(inv),
        h[6].times(inv),
        h[7].times(inv),
        h[8].times(inv),
    ];
    assert(out@ =~= Seq::new(9, |i: int| h@[i].times_spec(inv)));
    Some(out)
}

} // verus!
