//! Inverses of 3x3 matrices where arithmetic is exact.

use crate::gs_adapter::inverse3;
use crate::linalg::{cofactors_times, det3_of};
use crate::linalg_laws::{at, delta, lemma_sum_three, multiplies_to, product};
use crate::reals::{
    faithful, lemma_prod, lemma_prod_plus, lemma_prod_regroup, lemma_whole, prod,
};
use crate::scalar::{one, Scalar};
use vstd::prelude::*;

verus! {

/// One on the diagonal, zero beside it, as a matrix.
pub open spec fn unit_matrix() -> spec_fn(int, int) -> real {
    |i: int, j: int| delta(i, j)
}

/// Three factors in any order.
pub proof fn lemma_three(a: real, b: real, c: real)
    ensures
        prod(a, prod(b, c)) == prod(a, prod(c, b)),
        prod(a, prod(b, c)) == prod(b, prod(a, c)),
        prod(a, prod(b, c)) == prod(b, prod(c, a)),
        prod(a, prod(b, c)) == prod(c, prod(a, b)),
        prod(a, prod(b, c)) == prod(c, prod(b, a)),
{
    lemma_prod(b, c);
    lemma_prod(a, c);
    lemma_prod(a, b);
    lemma_prod_regroup(a, b, c);
}

/// The triple product of three vectors: the determinant of the matrix they make up.
spec fn triple(p: (real, real, real), q: (real, real, real), r: (real, real, real)) -> real {
    prod(p.0, prod(q.1, r.2) - prod(q.2, r.1)) + prod(p.1, prod(q.2, r.0) - prod(q.0, r.2))
        + prod(p.2, prod(q.0, r.1) - prod(q.1, r.0))
}

proof fn lemma_triple(p: (real, real, real), q: (real, real, real), r: (real, real, real))
    ensures
        triple(p, q, r) == prod(p.0, prod(q.1, r.2)) - prod(p.0, prod(q.2, r.1)) + prod(
            p.1,
            prod(q.2, r.0),
        ) - prod(p.1, prod(q.0, r.2)) + prod(p.2, prod(q.0, r.1)) - prod(p.2, prod(q.1, r.0)),
{
    lemma_prod_plus(p.0, prod(q.1, r.2), prod(q.2, r.1));
    lemma_prod_plus(p.1, prod(q.2, r.0), prod(q.0, r.2));
    lemma_prod_plus(p.2, prod(q.0, r.1), prod(q.1, r.0));
}

/// Every product of one component of each of three vectors, all different.
proof fn lemma_products(p: (real, real, real), q: (real, real, real), r: (real, real, real))
    ensures
        prod(p.0, prod(q.1, r.2)) == prod(q.1, prod(r.2, p.0)),
        prod(p.0, prod(q.2, r.1)) == prod(q.2, prod(r.1, p.0)),
        prod(p.1, prod(q.2, r.0)) == prod(q.2, prod(r.0, p.1)),
        prod(p.1, prod(q.0, r.2)) == prod(q.0, prod(r.2, p.1)),
        prod(p.2, prod(q.0, r.1)) == prod(q.0, prod(r.1, p.2)),
        prod(p.2, prod(q.1, r.0)) == prod(q.1, prod(r.0, p.2)),
{
    lemma_three(p.0, q.1, r.2);
    lemma_three(p.0, q.2, r.1);
    lemma_three(p.1, q.2, r.0);
    lemma_three(p.1, q.0, r.2);
    lemma_three(p.2, q.0, r.1);
    lemma_three(p.2, q.1, r.0);
}

proof fn lemma_cycle(p: (real, real, real), q: (real, real, real), r: (real, real, real))
    ensures
        triple(p, q, r) == triple(q, r, p),
{
    lemma_triple(p, q, r);
    lemma_triple(q, r, p);
    lemma_products(p, q, r);
}

/// A vector stands at right angles to its product with another.
proof fn lemma_twice(p: (real, real, real), r: (real, real, real))
    ensures
        triple(p, p, r) == 0 as real,
        triple(p, r, p) == 0 as real,
{
    lemma_triple(p, p, r);
    lemma_triple(p, r, p);
    lemma_three(p.0, p.1, r.2);
    lemma_three(p.0, p.2, r.1);
    lemma_three(p.1, p.2, r.0);
}

/// Rows and columns have the same triple product.
proof fn lemma_transposed(p: (real, real, real), q: (real, real, real), r: (real, real, real))
    ensures
        triple(p, q, r) == triple((p.0, q.0, r.0), (p.1, q.1, r.1), (p.2, q.2, r.2)),
{
    lemma_triple(p, q, r);
    lemma_triple((p.0, q.0, r.0), (p.1, q.1, r.1), (p.2, q.2, r.2));
    lemma_three(p.0, q.1, r.2);
    lemma_three(p.0, q.2, r.1);
    lemma_three(p.1, q.2, r.0);
    lemma_three(p.1, q.0, r.2);
    lemma_three(p.2, q.0, r.1);
    lemma_three(p.2, q.1, r.0);
}

/// Row `i` of a matrix of nine reals.
spec fn row(a: spec_fn(int) -> real, i: int) -> (real, real, real) {
    (a(3 * i), a(3 * i + 1), a(3 * i + 2))
}

/// Column `j`.
spec fn col(a: spec_fn(int) -> real, j: int) -> (real, real, real) {
    (a(j), a(3 + j), a(6 + j))
}

spec fn minor(a: spec_fn(int) -> real, p: int, q: int, r: int, s: int) -> real {
    prod(a(p), a(q)) - prod(a(r), a(s))
}

/// The cofactors, transposed.
spec fn adjugate(a: spec_fn(int) -> real, k: int) -> real {
    if k == 0 {
        minor(a, 4, 8, 5, 7)
    } else if k == 1 {
        minor(a, 2, 7, 1, 8)
    } else if k == 2 {
        minor(a, 1, 5, 2, 4)
    } else if k == 3 {
        minor(a, 5, 6, 3, 8)
    } else if k == 4 {
        minor(a, 0, 8, 2, 6)
    } else if k == 5 {
        minor(a, 2, 3, 0, 5)
    } else if k == 6 {
        minor(a, 3, 7, 4, 6)
    } else if k == 7 {
        minor(a, 1, 6, 0, 7)
    } else {
        minor(a, 0, 4, 1, 3)
    }
}

/// Every product of two elements, either way round.
proof fn lemma_commute(a: spec_fn(int) -> real)
    ensures
        forall|i: int, j: int| #[trigger] prod(a(i), a(j)) == prod(a(j), a(i)),
{
    assert forall|i: int, j: int| #[trigger] prod(a(i), a(j)) == prod(a(j), a(i)) by {
        lemma_prod(a(i), a(j));
    }
}

/// A row times a column of the cofactors.
proof fn lemma_row_cofactors(a: spec_fn(int) -> real, i: int, j: int)
    requires
        0 <= i < 3,
        0 <= j < 3,
    ensures
        prod(a(3 * i), adjugate(a, j)) + prod(a(3 * i + 1), adjugate(a, 3 + j)) + prod(
            a(3 * i + 2),
            adjugate(a, 6 + j),
        ) == (if i == j {
            triple(row(a, 0), row(a, 1), row(a, 2))
        } else {
            0 as real
        }),
{
    lemma_commute(a);
    let (p, q, r) = (row(a, i), row(a, (j + 1) % 3), row(a, (j + 2) % 3));
    assert(adjugate(a, j) == prod(q.1, r.2) - prod(q.2, r.1));
    assert(adjugate(a, 3 + j) == prod(q.2, r.0) - prod(q.0, r.2));
    assert(adjugate(a, 6 + j) == prod(q.0, r.1) - prod(q.1, r.0));
    lemma_cycle(row(a, 0), row(a, 1), row(a, 2));
    lemma_cycle(row(a, 1), row(a, 2), row(a, 0));
    lemma_twice(p, q);
    lemma_twice(p, r);
    assert(i == j || i == (j + 1) % 3 || i == (j + 2) % 3);
}

/// A row of the cofactors times a column.
proof fn lemma_cofactors_column(a: spec_fn(int) -> real, i: int, j: int)
    requires
        0 <= i < 3,
        0 <= j < 3,
    ensures
        prod(a(j), adjugate(a, 3 * i)) + prod(a(3 + j), adjugate(a, 3 * i + 1)) + prod(
            a(6 + j),
            adjugate(a, 3 * i + 2),
        ) == (if i == j {
            triple(row(a, 0), row(a, 1), row(a, 2))
        } else {
            0 as real
        }),
{
    lemma_commute(a);
    let (p, q, r) = (col(a, j), col(a, (i + 1) % 3), col(a, (i + 2) % 3));
    assert(adjugate(a, 3 * i) == prod(q.1, r.2) - prod(q.2, r.1));
    assert(adjugate(a, 3 * i + 1) == prod(q.2, r.0) - prod(q.0, r.2));
    assert(adjugate(a, 3 * i + 2) == prod(q.0, r.1) - prod(q.1, r.0));
    lemma_transposed(row(a, 0), row(a, 1), row(a, 2));
    lemma_cycle(col(a, 0), col(a, 1), col(a, 2));
    lemma_cycle(col(a, 1), col(a, 2), col(a, 0));
    lemma_twice(p, q);
    lemma_twice(p, r);
    assert(j == i || j == (i + 1) % 3 || j == (i + 2) % 3);
}

/// A factor that three products share.
proof fn lemma_shared(x: real, y: real, z: real, p: real, q: real, r: real, f: real)
    ensures
        prod(x, prod(p, f)) + prod(y, prod(q, f)) + prod(z, prod(r, f)) == prod(
            f,
            prod(x, p) + prod(y, q) + prod(z, r),
        ),
{
    lemma_prod_regroup(x, p, f);
    lemma_prod_regroup(y, q, f);
    lemma_prod_regroup(z, r, f);
    lemma_prod_plus(f, prod(x, p) + prod(y, q), prod(z, r));
    lemma_prod_plus(f, prod(x, p), prod(y, q));
}

/// Cofactors over the determinant make up the inverse.
proof fn lemma_inverse<T: Scalar>(v: spec_fn(T) -> real, a: Seq<T>, m: Seq<T>, f: real)
    requires
        ({
            let x = |k: int| v(a[k]);
            &&& forall|k: int| 0 <= k < 9 ==> v(#[trigger] m[k]) == prod(adjugate(x, k), f)
            &&& prod(f, triple(row(x, 0), row(x, 1), row(x, 2))) == 1 as real
        }),
    ensures
        multiplies_to(at(v, a, 3), at(v, m, 3), unit_matrix(), 3),
        multiplies_to(at(v, m, 3), at(v, a, 3), unit_matrix(), 3),
{
    let x = |k: int| v(a[k]);
    lemma_prod(f, 0 as real);
    assert forall|i: int, j: int| 0 <= i < 3 && 0 <= j < 3 implies #[trigger] product(
        at(v, a, 3),
        at(v, m, 3),
        3,
        i,
        j,
    ) == unit_matrix()(i, j) by {
        let (b, c) = (at(v, a, 3), at(v, m, 3));
        lemma_sum_three(|t: int| prod(b(i, t), c(t, j)));
        assert(v(m[j]) == prod(adjugate(x, j), f));
        assert(v(m[3 + j]) == prod(adjugate(x, 3 + j), f));
        assert(v(m[6 + j]) == prod(adjugate(x, 6 + j), f));
        assert(b(i, 0) == x(3 * i) && b(i, 1) == x(3 * i + 1) && b(i, 2) == x(3 * i + 2));
        assert(c(0, j) == v(m[j]) && c(1, j) == v(m[3 + j]) && c(2, j) == v(m[6 + j]));
        lemma_row_cofactors(x, i, j);
        lemma_shared(
            x(3 * i),
            x(3 * i + 1),
            x(3 * i + 2),
            adjugate(x, j),
            adjugate(x, 3 + j),
            adjugate(x, 6 + j),
            f,
        );
    }
    assert forall|i: int, j: int| 0 <= i < 3 && 0 <= j < 3 implies #[trigger] product(
        at(v, m, 3),
        at(v, a, 3),
        3,
        i,
        j,
    ) == unit_matrix()(i, j) by {
        let (b, c) = (at(v, m, 3), at(v, a, 3));
        lemma_sum_three(|t: int| prod(b(i, t), c(t, j)));
        assert(v(m[3 * i]) == prod(adjugate(x, 3 * i), f));
        assert(v(m[3 * i + 1]) == prod(adjugate(x, 3 * i + 1), f));
        assert(v(m[3 * i + 2]) == prod(adjugate(x, 3 * i + 2), f));
        assert(b(i, 0) == v(m[3 * i]) && b(i, 1) == v(m[3 * i + 1]) && b(i, 2) == v(
            m[3 * i + 2],
        ));
        assert(c(0, j) == x(j) && c(1, j) == x(3 + j) && c(2, j) == x(6 + j));
        lemma_prod(b(i, 0), c(0, j));
        lemma_prod(b(i, 1), c(1, j));
        lemma_prod(b(i, 2), c(2, j));
        lemma_cofactors_column(x, i, j);
        lemma_shared(
            x(j),
            x(3 + j),
            x(6 + j),
            adjugate(x, 3 * i),
            adjugate(x, 3 * i + 1),
            adjugate(x, 3 * i + 2),
            f,
        );
    }
}

/// Where arithmetic is exact, a matrix whose determinant is not zero times its
/// inverse is the identity, and so is the inverse times the matrix.
pub proof fn law_inverse<T: Scalar>(v: spec_fn(T) -> real, a: Seq<T>)
    requires
        faithful(v),
        a.len() == 9,
        v(det3_of(a)) != 0 as real,
    ensures
        ({
            let m = cofactors_times(a, one::<T>().over_spec(det3_of(a)));
            &&& multiplies_to(at(v, a, 3), at(v, m, 3), unit_matrix(), 3)
            &&& multiplies_to(at(v, m, 3), at(v, a, 3), unit_matrix(), 3)
        }),
{
    let d = det3_of(a);
    let inv = one::<T>().over_spec(d);
    let m = cofactors_times(a, inv);
    let x = |k: int| v(a[k]);
    lemma_whole(v, 1);
    assert(prod(v(inv), v(d)) == 1 as real);
    assert(v(d) == triple(row(x, 0), row(x, 1), row(x, 2))) by {
        lemma_prod_plus(x(1), prod(x(5), x(6)), prod(x(3), x(8)));
        lemma_prod_plus(x(1), prod(x(3), x(8)), prod(x(5), x(6)));
    }
    lemma_inverse(v, a, m, v(inv));
}

/// Where arithmetic is exact, the same holds of the inverse that has zeros for a
/// singular matrix.
pub proof fn law_inverse_or_zeros<T: Scalar>(v: spec_fn(T) -> real, a: Seq<T>)
    requires
        faithful(v),
        a.len() == 9,
        v(det3_of(a)) != 0 as real,
    ensures
        multiplies_to(at(v, a, 3), at(v, inverse3(a), 3), unit_matrix(), 3),
        multiplies_to(at(v, inverse3(a), 3), at(v, a, 3), unit_matrix(), 3),
{
    let m = inverse3(a);
    let x = |k: int| v(a[k]);
    lemma_whole(v, 1);
    lemma_whole(v, 0);
    let aa = a[4].times_spec(a[8]).minus_spec(a[5].times_spec(a[7]));
    let bb = a[3].times_spec(a[8]).minus_spec(a[5].times_spec(a[6])).negated_spec();
    let cc = a[3].times_spec(a[7]).minus_spec(a[4].times_spec(a[6]));
    let d = a[0].times_spec(aa).plus_spec(a[1].times_spec(bb)).plus_spec(a[2].times_spec(cc));
    lemma_prod_plus(x(1), prod(x(5), x(6)), prod(x(3), x(8)));
    lemma_prod_plus(x(1), prod(x(3), x(8)), prod(x(5), x(6)));
    assert(v(bb) == prod(x(5), x(6)) - prod(x(3), x(8)));
    assert(v(d) == triple(row(x, 0), row(x, 1), row(x, 2)));
    assert(v(d) == v(det3_of(a)));
    let inv = one::<T>().over_spec(d);
    assert(prod(v(inv), v(d)) == 1 as real);
    assert(m[0] == aa.times_spec(inv) && m[3] == bb.times_spec(inv) && m[6] == cc.times_spec(inv));
    lemma_inverse(v, a, m, v(inv));
}

} // verus!
