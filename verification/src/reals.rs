//! Numbers read as reals, and sums of reals: what holds where arithmetic is exact.

use crate::index::accumulate;
use crate::scalar::{Analytic, Scalar, Widens};
use vstd::prelude::*;

verus! {

/// The product of two reals.
#[verifier::opaque]
pub open spec fn prod(a: real, b: real) -> real {
    a * b
}

/// `v` reads numbers as reals, and arithmetic on them is exact.
pub open spec fn faithful<T: Scalar>(v: spec_fn(T) -> real) -> bool {
    &&& forall|x: T, y: T| #[trigger] v(x.plus_spec(y)) == v(x) + v(y)
    &&& forall|x: T, y: T| #[trigger] v(x.minus_spec(y)) == v(x) - v(y)
    &&& forall|x: T, y: T| #[trigger] v(x.times_spec(y)) == prod(v(x), v(y))
    &&& forall|x: T, y: T|
        v(y) != 0 as real ==> prod(#[trigger] v(x.over_spec(y)), v(y)) == v(x)
    &&& forall|x: T| #[trigger] v(x.negated_spec()) == -v(x)
    &&& forall|num: i32, den: u32|
        den > 0 ==> prod(#[trigger] v(T::ratio_spec(num, den)), den as int as real)
            == num as int as real
    &&& forall|n: usize| #[trigger] v(T::from_count_spec(n)) == n as int as real
    &&& forall|x: T, y: T|
        #[trigger] v(x.larger_spec(y)) == (if v(x) < v(y) {
            v(y)
        } else {
            v(x)
        })
    &&& forall|x: T, y: T|
        #[trigger] v(x.smaller_spec(y)) == (if v(y) < v(x) {
            v(y)
        } else {
            v(x)
        })
    &&& forall|x: T, y: T| #[trigger] x.less_spec(y) == (v(x) < v(y))
    &&& forall|x: T, y: T| #[trigger] x.same_spec(y) == (v(x) == v(y))
    &&& forall|x: T, y: T| #[trigger] x.precedes_spec(y) == (v(x) < v(y))
}

/// Roots are exact besides.
pub open spec fn faithful_roots<T: Analytic>(v: spec_fn(T) -> real) -> bool {
    &&& faithful(v)
    &&& forall|x: T|
        v(x) >= 0 as real ==> #[trigger] v(x.root_spec()) >= 0 as real && prod(
            v(x.root_spec()),
            v(x.root_spec()),
        ) == v(x)
}

/// Wider numbers stand for the same reals.
pub open spec fn faithful_widening<S: Scalar, D: Widens<S>>(
    v: spec_fn(S) -> real,
    u: spec_fn(D) -> real,
) -> bool {
    &&& forall|x: S| u(#[trigger] D::widened_spec(x)) == v(x)
    &&& forall|y: D| v(#[trigger] y.narrowed_spec()) == u(y)
}

// ---- products -----------------------------------------------------------------

/// Products with zero and one, and of opposites.
pub proof fn lemma_prod(a: real, b: real)
    ensures
        prod(a, b) == prod(b, a),
        prod(a, 0 as real) == 0 as real,
        prod(a, 1 as real) == a,
        prod(a, -b) == -prod(a, b),
        prod(-a, b) == -prod(a, b),
        prod(-a, -b) == prod(a, b),
{
    reveal(prod);
    assert(a * b == b * a) by (nonlinear_arith);
    assert(a * (-b) == -(a * b)) by (nonlinear_arith);
    assert((-a) * b == -(a * b)) by (nonlinear_arith);
    assert((-a) * (-b) == a * b) by (nonlinear_arith);
}

/// Twice and half of a product.
pub proof fn lemma_prod_two(a: real)
    ensures
        prod(2 as real, a) == a + a,
{
    reveal(prod);
}

/// Products of sums.
pub proof fn lemma_prod_plus(a: real, b: real, c: real)
    ensures
        prod(a, b + c) == prod(a, b) + prod(a, c),
        prod(a, b - c) == prod(a, b) - prod(a, c),
        prod(b + c, a) == prod(b, a) + prod(c, a),
        prod(b - c, a) == prod(b, a) - prod(c, a),
{
    reveal(prod);
    assert(a * (b + c) == a * b + a * c) by (nonlinear_arith);
    assert(a * (b - c) == a * b - a * c) by (nonlinear_arith);
    assert((b + c) * a == b * a + c * a) by (nonlinear_arith);
    assert((b - c) * a == b * a - c * a) by (nonlinear_arith);
}

/// Factors in another order.
pub proof fn lemma_prod_regroup(a: real, b: real, c: real)
    ensures
        prod(a, prod(b, c)) == prod(b, prod(a, c)),
        prod(a, prod(b, c)) == prod(prod(a, b), c),
        prod(a, prod(b, c)) == prod(c, prod(a, b)),
{
    reveal(prod);
    assert(a * (b * c) == b * (a * c)) by (nonlinear_arith);
    assert(a * (b * c) == (a * b) * c) by (nonlinear_arith);
    assert(a * (b * c) == c * (a * b)) by (nonlinear_arith);
}

/// A square is not negative, and zero only of zero.
pub proof fn lemma_prod_square(a: real)
    ensures
        prod(a, a) >= 0 as real,
        prod(a, a) == 0 as real ==> a == 0 as real,
{
    reveal(prod);
    assert(a * a >= 0 as real) by (nonlinear_arith);
    assert(a * a == 0 as real ==> a == 0 as real) by (nonlinear_arith);
}

/// A product of numbers that are not negative is not negative; a product with a
/// positive factor has the sign of the other.
pub proof fn lemma_prod_sign(a: real, b: real)
    ensures
        a >= 0 as real && b >= 0 as real ==> prod(a, b) >= 0 as real,
        a > 0 as real && b > 0 as real ==> prod(a, b) > 0 as real,
        a > 0 as real && prod(a, b) >= 0 as real ==> b >= 0 as real,
        a > 0 as real && prod(a, b) > 0 as real ==> b > 0 as real,
{
    reveal(prod);
    assert(a >= 0 as real && b >= 0 as real ==> a * b >= 0 as real) by (nonlinear_arith);
    assert(a > 0 as real && b > 0 as real ==> a * b > 0 as real) by (nonlinear_arith);
    assert(a > 0 as real && b < 0 as real ==> a * b < 0 as real) by (nonlinear_arith);
}

/// A factor that is not zero can be taken off both sides.
pub proof fn lemma_prod_cancel(a: real, b: real, c: real)
    requires
        a != 0 as real,
        prod(a, b) == prod(a, c),
    ensures
        b == c,
{
    reveal(prod);
    let d = b - c;
    assert(a * d == a * b - a * c) by (nonlinear_arith)
        requires
            d == b - c,
    ;
    assert(d == 0 as real) by (nonlinear_arith)
        requires
            a * d == 0 as real,
            a != 0 as real,
    ;
}

// ---- sums -----------------------------------------------------------------------

/// The sum of the first `n` terms.
pub open spec fn sum(f: spec_fn(int) -> real, n: nat) -> real
    decreases n,
{
    if n == 0 {
        0 as real
    } else {
        sum(f, (n - 1) as nat) + f(n - 1)
    }
}

/// An accumulated number, read as a real, is a sum.
pub proof fn lemma_accumulate<T: Scalar>(v: spec_fn(T) -> real, init: T, f: spec_fn(int) -> T, n: nat)
    requires
        faithful(v),
    ensures
        v(accumulate(init, f, n)) == v(init) + sum(|i: int| v(f(i)), n),
    decreases n,
{
    if n > 0 {
        lemma_accumulate(v, init, f, (n - 1) as nat);
    }
}

/// Zero and one are what they are called.
pub proof fn lemma_whole<T: Scalar>(v: spec_fn(T) -> real, n: i32)
    requires
        faithful(v),
    ensures
        v(T::ratio_spec(n, 1)) == n as int as real,
{
    let x = v(T::ratio_spec(n, 1));
    lemma_prod(x, 1 as real);
    assert(prod(x, 1u32 as int as real) == n as int as real);
}

/// Sums of terms that agree are equal.
pub proof fn lemma_sum_agree(f: spec_fn(int) -> real, g: spec_fn(int) -> real, n: nat)
    requires
        forall|i: int| 0 <= i < n ==> #[trigger] f(i) == g(i),
    ensures
        sum(f, n) == sum(g, n),
    decreases n,
{
    if n > 0 {
        lemma_sum_agree(f, g, (n - 1) as nat);
        assert(f(n - 1) == g(n - 1));
    }
}

/// The sum of `f` and `b` times `g`.
pub proof fn lemma_sum_plus(f: spec_fn(int) -> real, g: spec_fn(int) -> real, b: real, n: nat)
    ensures
        sum(|i: int| f(i) + prod(b, g(i)), n) == sum(f, n) + prod(b, sum(g, n)),
    decreases n,
{
    let h = |i: int| f(i) + prod(b, g(i));
    if n > 0 {
        lemma_sum_plus(f, g, b, (n - 1) as nat);
        lemma_prod_plus(b, sum(g, (n - 1) as nat), g(n - 1));
        assert(sum(h, n) == sum(h, (n - 1) as nat) + h(n - 1));
    } else {
        lemma_prod(b, 0 as real);
    }
}

/// A factor can be taken out of a sum.
pub proof fn lemma_sum_times(f: spec_fn(int) -> real, b: real, n: nat)
    ensures
        sum(|i: int| prod(b, f(i)), n) == prod(b, sum(f, n)),
    decreases n,
{
    let h = |i: int| prod(b, f(i));
    if n > 0 {
        lemma_sum_times(f, b, (n - 1) as nat);
        lemma_prod_plus(b, sum(f, (n - 1) as nat), f(n - 1));
        assert(sum(h, n) == sum(h, (n - 1) as nat) + h(n - 1));
    } else {
        lemma_prod(b, 0 as real);
    }
}

/// The inner sums of a double sum.
pub open spec fn inner(f: spec_fn(int, int) -> real, m: nat) -> spec_fn(int) -> real {
    |i: int| sum(|j: int| f(i, j), m)
}

/// A double sum taken the other way round.
pub open spec fn turned(f: spec_fn(int, int) -> real) -> spec_fn(int, int) -> real {
    |j: int, i: int| f(i, j)
}

/// The order of a double sum does not matter.
pub proof fn lemma_sum_swap(f: spec_fn(int, int) -> real, n: nat, m: nat)
    ensures
        sum(inner(f, m), n) == sum(inner(turned(f), n), m),
    decreases n,
{
    if n == 0 {
        lemma_sum_zero(inner(turned(f), 0), m);
    } else {
        let k = (n - 1) as nat;
        lemma_sum_swap(f, k, m);
        let row = |j: int| f(n - 1, j);
        let a = inner(turned(f), k);
        lemma_sum_both(a, row, m);
        let h = |j: int| a(j) + row(j);
        assert forall|j: int| 0 <= j < m implies #[trigger] h(j) == inner(turned(f), n)(j) by {
            let c = |i: int| turned(f)(j, i);
            assert(sum(c, n) == sum(c, k) + c(n - 1));
        }
        lemma_sum_agree(h, inner(turned(f), n), m);
        assert(inner(f, m)(n - 1) == sum(row, m)) by {
            lemma_sum_agree(|j: int| f(n - 1, j), row, m);
        }
    }
}

/// The sum of two sums.
pub proof fn lemma_sum_both(f: spec_fn(int) -> real, g: spec_fn(int) -> real, n: nat)
    ensures
        sum(|i: int| f(i) + g(i), n) == sum(f, n) + sum(g, n),
    decreases n,
{
    let h = |i: int| f(i) + g(i);
    if n > 0 {
        lemma_sum_both(f, g, (n - 1) as nat);
        assert(sum(h, n) == sum(h, (n - 1) as nat) + h(n - 1));
    }
}

/// A sum of zeros.
pub proof fn lemma_sum_zero(f: spec_fn(int) -> real, n: nat)
    requires
        forall|i: int| 0 <= i < n ==> #[trigger] f(i) == 0 as real,
    ensures
        sum(f, n) == 0 as real,
    decreases n,
{
    if n > 0 {
        lemma_sum_zero(f, (n - 1) as nat);
        assert(f(n - 1) == 0 as real);
    }
}

/// A sum with one term that is not zero.
pub proof fn lemma_sum_single(f: spec_fn(int) -> real, k: int, n: nat)
    requires
        0 <= k < n,
        forall|i: int| 0 <= i < n && i != k ==> #[trigger] f(i) == 0 as real,
    ensures
        sum(f, n) == f(k),
    decreases n,
{
    if k == n - 1 {
        lemma_sum_zero(f, (n - 1) as nat);
    } else {
        lemma_sum_single(f, k, (n - 1) as nat);
        assert(f(n - 1) == 0 as real);
    }
}

/// A sum of squares is not negative, and zero only where every term is.
pub proof fn lemma_sum_squares(w: spec_fn(int) -> real, n: nat)
    ensures
        sum(|i: int| prod(w(i), w(i)), n) >= 0 as real,
        sum(|i: int| prod(w(i), w(i)), n) == 0 as real ==> forall|i: int|
            0 <= i < n ==> #[trigger] w(i) == 0 as real,
    decreases n,
{
    let h = |i: int| prod(w(i), w(i));
    if n > 0 {
        lemma_sum_squares(w, (n - 1) as nat);
        lemma_prod_square(w(n - 1));
        assert(sum(h, n) == sum(h, (n - 1) as nat) + h(n - 1));
    }
}

/// A sum that starts at `k`, where the terms before are zero.
pub proof fn lemma_sum_from(f: spec_fn(int) -> real, k: nat, n: nat)
    requires
        k <= n,
        forall|i: int| 0 <= i < k ==> #[trigger] f(i) == 0 as real,
    ensures
        sum(|t: int| f(k + t), (n - k) as nat) == sum(f, n),
    decreases n,
{
    let h = |t: int| f(k + t);
    if n == k {
        lemma_sum_zero(f, n);
    } else {
        lemma_sum_from(f, k, (n - 1) as nat);
        assert(sum(h, (n - k) as nat) == sum(h, (n - 1 - k) as nat) + h(n - 1 - k));
        assert(h(n - 1 - k) == f(n - 1));
    }
}

/// The rows of a sum of `n * m` terms.
pub open spec fn in_rows(f: spec_fn(int) -> real, m: nat) -> spec_fn(int) -> real {
    |i: int| sum(|j: int| f(i * m + j), m)
}

/// One sum after another.
proof fn lemma_sum_split(f: spec_fn(int) -> real, a: nat, b: nat)
    ensures
        sum(f, a + b) == sum(f, a) + sum(|j: int| f(a + j), b),
    decreases b,
{
    let g = |j: int| f(a + j);
    if b > 0 {
        lemma_sum_split(f, a, (b - 1) as nat);
        assert(sum(g, b) == sum(g, (b - 1) as nat) + g(b - 1));
        assert(sum(f, a + b) == sum(f, (a + b - 1) as nat) + f(a + b - 1));
    }
}

/// A sum of `n * m` terms, row by row.
pub proof fn lemma_sum_rows(f: spec_fn(int) -> real, n: nat, m: nat)
    ensures
        sum(f, n * m) == sum(in_rows(f, m), n),
    decreases n,
{
    if n > 0 {
        let k = (n - 1) as nat;
        lemma_sum_rows(f, k, m);
        assert(k * m + m == n * m) by (nonlinear_arith)
            requires
                k == n - 1,
        ;
        lemma_sum_split(f, k * m, m);
        lemma_sum_agree(|j: int| f((k * m) as nat + j), |j: int| f(k * m + j), m);
    } else {
        assert(n * m == 0) by (nonlinear_arith)
            requires
                n == 0,
        ;
    }
}

} // verus!
