//! What a decoded camera is where arithmetic is exact.

use crate::cam_pose::{focal_of, pose_extrinsics, pose_intrinsics, pose_rotation};
use crate::linalg::det3_of;
use crate::linalg_laws::{delta, lemma_four_factors};
use crate::reals::{
    faithful, lemma_prod, lemma_prod_cancel, lemma_prod_plus, lemma_prod_regroup,
    lemma_prod_square, lemma_prod_two, lemma_whole, prod,
};
use crate::scalar::{one, Circular, Scalar};
use vstd::prelude::*;

verus! {

/// The square of a quaternion's length.
spec fn length2(x: real, y: real, z: real, w: real) -> real {
    prod(x, x) + prod(y, y) + prod(z, z) + prod(w, w)
}

/// `s * s * (n * t) == 2 * s * t` where `s * n == 2`.
proof fn lemma_fold(s: real, n: real, t: real)
    requires
        prod(s, n) == 2 as real,
    ensures
        prod(prod(s, s), prod(n, t)) == prod(s, t) + prod(s, t),
{
    lemma_prod_regroup(s, s, prod(n, t));
    lemma_prod_regroup(s, n, t);
    lemma_prod_two(t);
    lemma_prod_plus(s, t, t);
}

/// `(1 - s t) (s p) == s p - s s (t p)`.
proof fn lemma_off(s: real, t: real, p: real)
    ensures
        prod(1 as real - prod(s, t), prod(s, p)) == prod(s, p) - prod(prod(s, s), prod(t, p)),
        prod(prod(s, p), 1 as real - prod(s, t)) == prod(s, p) - prod(prod(s, s), prod(t, p)),
{
    lemma_prod_plus(prod(s, p), 1 as real, prod(s, t));
    lemma_prod(prod(s, p), 1 as real);
    lemma_prod(prod(s, p), prod(s, t));
    lemma_four_factors(s, t, s, p);
}

/// The square of a difference and of a sum of two products.
proof fn lemma_squares(a: real, b: real)
    ensures
        prod(a - b, a - b) == prod(a, a) - prod(a, b) - prod(a, b) + prod(b, b),
        prod(a + b, a + b) == prod(a, a) + prod(a, b) + prod(a, b) + prod(b, b),
{
    lemma_prod_plus(a - b, a, b);
    lemma_prod_plus(a, a, b);
    lemma_prod_plus(b, a, b);
    lemma_prod_plus(a + b, a, b);
    lemma_prod(a, b);
}

/// A row of the rotation has length one.
proof fn lemma_row(x: real, y: real, z: real, w: real, s: real)
    requires
        prod(s, length2(x, y, z, w)) == 2 as real,
    ensures
        ({
            let r0 = 1 as real - prod(s, prod(y, y) + prod(z, z));
            let r1 = prod(s, prod(x, y) - prod(z, w));
            let r2 = prod(s, prod(x, z) + prod(y, w));
            prod(r0, r0) + prod(r1, r1) + prod(r2, r2) == 1 as real
        }),
{
    let (xx, yy, zz, ww) = (prod(x, x), prod(y, y), prod(z, z), prod(w, w));
    let t = yy + zz;
    let (xy, zw, xz, yw) = (prod(x, y), prod(z, w), prod(x, z), prod(y, w));
    let (m, k) = (xy - zw, xz + yw);
    let ss = prod(s, s);
    let n = length2(x, y, z, w);
    lemma_squares(1 as real, prod(s, t));
    lemma_prod(prod(s, t), 1 as real);
    lemma_prod(1 as real, 1 as real);
    lemma_four_factors(s, t, s, t);
    lemma_four_factors(s, m, s, m);
    lemma_four_factors(s, k, s, k);
    lemma_squares(xy, zw);
    lemma_squares(xz, yw);
    lemma_four_factors(x, z, y, w);
    lemma_four_factors(x, y, x, y);
    lemma_four_factors(z, w, z, w);
    lemma_four_factors(x, z, x, z);
    lemma_four_factors(y, w, y, w);
    lemma_prod_plus(xx, yy, zz);
    lemma_prod_plus(ww, yy, zz);
    lemma_prod(ww, yy);
    lemma_prod(ww, zz);
    lemma_prod_plus(t, xx + ww, t);
    lemma_prod_plus(t, xx, ww);
    let (tt, mm, kk) = (prod(t, t), prod(m, m), prod(k, k));
    assert(tt + mm + kk == prod(n, t)) by {
        assert(n == (xx + ww) + t);
        assert(mm + kk == prod(xx, t) + prod(ww, t));
    }
    lemma_prod_plus(ss, tt + mm, kk);
    lemma_prod_plus(ss, tt, mm);
    lemma_fold(s, n, t);
}

/// Two rows of the rotation stand at right angles.
proof fn lemma_rows(x: real, y: real, z: real, w: real, s: real)
    requires
        prod(s, length2(x, y, z, w)) == 2 as real,
    ensures
        ({
            let r0 = 1 as real - prod(s, prod(y, y) + prod(z, z));
            let r1 = prod(s, prod(x, y) - prod(z, w));
            let r2 = prod(s, prod(x, z) + prod(y, w));
            let u0 = prod(s, prod(x, y) + prod(z, w));
            let u1 = 1 as real - prod(s, prod(x, x) + prod(z, z));
            let u2 = prod(s, prod(y, z) - prod(x, w));
            prod(r0, u0) + prod(r1, u1) + prod(r2, u2) == 0 as real
        }),
{
    let (xx, yy, zz, ww) = (prod(x, x), prod(y, y), prod(z, z), prod(w, w));
    let (xy, zw, xz, yw, yz, xw) = (
        prod(x, y),
        prod(z, w),
        prod(x, z),
        prod(y, w),
        prod(y, z),
        prod(x, w),
    );
    let (t, g) = (yy + zz, xx + zz);
    let (p, m, k, l) = (xy + zw, xy - zw, xz + yw, yz - xw);
    let ss = prod(s, s);
    let n = length2(x, y, z, w);
    lemma_off(s, t, p);
    lemma_off(s, g, m);
    lemma_four_factors(s, k, s, l);
    // t p + g m - k l == n xy
    lemma_prod_plus(t, xy, zw);
    lemma_prod_plus(g, xy, zw);
    lemma_prod_plus(xy, yy, zz);
    lemma_prod_plus(zw, yy, zz);
    lemma_prod_plus(xy, xx, zz);
    lemma_prod_plus(zw, xx, zz);
    lemma_prod_plus(k, yz, xw);
    lemma_prod_plus(yz, xz, yw);
    lemma_prod_plus(xw, xz, yw);
    lemma_four_factors(x, z, y, z);
    lemma_four_factors(x, z, x, w);
    lemma_four_factors(y, w, y, z);
    lemma_four_factors(y, w, x, w);
    lemma_prod(w, z);
    lemma_prod(y, x);
    lemma_prod(xy, zz);
    lemma_prod_plus(xy, xx + yy + zz, ww);
    lemma_prod_plus(xy, xx + yy, zz);
    lemma_prod_plus(xy, xx, yy);
    lemma_prod(n, xy);
    lemma_prod(xy, ww);
    lemma_prod(xx, zw);
    lemma_prod(yy, zw);
    lemma_prod(zz, zw);
    lemma_prod(xx, xy);
    lemma_prod(yy, xy);
    lemma_prod(zz, xy);
    let (tp, gm, kl) = (prod(t, p), prod(g, m), prod(k, l));
    assert(tp == prod(yy, xy) + prod(zz, xy) + prod(yy, zw) + prod(zz, zw));
    assert(gm == prod(xx, xy) + prod(zz, xy) - prod(xx, zw) - prod(zz, zw));
    assert(kl == prod(zz, xy) + prod(yy, zw) - prod(xx, zw) - prod(ww, xy)) by {
        lemma_prod(ww, xy);
    }
    assert(tp + gm - kl == prod(n, xy)) by {
        lemma_prod(ww, xy);
    }
    lemma_prod_plus(ss, tp + gm, kl);
    lemma_prod_plus(ss, tp, gm);
    lemma_fold(s, n, xy);
    lemma_prod_plus(s, p, m);
    lemma_prod_plus(s, xy, xy);
}

/// The third row is the product of the first two.
proof fn lemma_cross(x: real, y: real, z: real, w: real, s: real)
    requires
        prod(s, length2(x, y, z, w)) == 2 as real,
    ensures
        ({
            let r0 = 1 as real - prod(s, prod(y, y) + prod(z, z));
            let r1 = prod(s, prod(x, y) - prod(z, w));
            let r2 = prod(s, prod(x, z) + prod(y, w));
            let u0 = prod(s, prod(x, y) + prod(z, w));
            let u1 = 1 as real - prod(s, prod(x, x) + prod(z, z));
            let u2 = prod(s, prod(y, z) - prod(x, w));
            &&& prod(r0, u1) - prod(r1, u0) == 1 as real - prod(s, prod(x, x) + prod(y, y))
            &&& prod(r1, u2) - prod(r2, u1) == prod(s, prod(x, z) - prod(y, w))
            &&& prod(r2, u0) - prod(r0, u2) == prod(s, prod(y, z) + prod(x, w))
        }),
{
    let (xx, yy, zz, ww) = (prod(x, x), prod(y, y), prod(z, z), prod(w, w));
    let (xy, zw, xz, yw, yz, xw) = (
        prod(x, y),
        prod(z, w),
        prod(x, z),
        prod(y, w),
        prod(y, z),
        prod(x, w),
    );
    let (t, g) = (yy + zz, xx + zz);
    let (p, m, k, l) = (xy + zw, xy - zw, xz + yw, yz - xw);
    let ss = prod(s, s);
    let n = length2(x, y, z, w);
    lemma_prod(y, x);
    lemma_prod(z, x);
    lemma_prod(z, y);
    lemma_prod(w, x);
    lemma_prod(w, y);
    lemma_prod(w, z);
    // the component along the third axis
    assert(prod(1 as real - prod(s, t), 1 as real - prod(s, g)) - prod(prod(s, m), prod(s, p))
        == 1 as real - prod(s, xx + yy)) by {
        lemma_prod_plus(1 as real - prod(s, t), 1 as real, prod(s, g));
        lemma_prod(1 as real - prod(s, t), 1 as real);
        lemma_prod_plus(prod(s, g), 1 as real, prod(s, t));
        lemma_prod(prod(s, g), 1 as real);
        lemma_four_factors(s, t, s, g);
        lemma_four_factors(s, m, s, p);
        lemma_prod_plus(t, xx, zz);
        lemma_prod_plus(xx, yy, zz);
        lemma_prod_plus(zz, yy, zz);
        lemma_prod_plus(m, xy, zw);
        lemma_prod_plus(xy, xy, zw);
        lemma_prod_plus(zw, xy, zw);
        lemma_prod(xy, zw);
        lemma_four_factors(x, y, x, y);
        lemma_four_factors(z, w, z, w);
        lemma_prod(xx, yy);
        lemma_prod(xx, zz);
        lemma_prod(zz, yy);
        lemma_prod_plus(zz, xx + yy + zz, ww);
        lemma_prod_plus(zz, xx + yy, zz);
        lemma_prod_plus(zz, xx, yy);
        lemma_prod(n, zz);
        let (tg, mp) = (prod(t, g), prod(m, p));
        assert(mp == prod(xx, yy) - prod(zz, ww));
        assert(tg == prod(xx, yy) + prod(xx, zz) + prod(zz, yy) + prod(zz, zz));
        assert(tg - mp == prod(n, zz));
        lemma_prod_plus(ss, tg, mp);
        lemma_fold(s, n, zz);
        lemma_prod_plus(s, t, g);
        lemma_prod_plus(s, xx + yy, zz + zz);
        lemma_prod_plus(s, zz, zz);
        assert(t + g == (xx + yy) + (zz + zz));
    }
    // along the first
    assert(prod(prod(s, m), prod(s, l)) - prod(prod(s, k), 1 as real - prod(s, g)) == prod(
        s,
        xz - yw,
    )) by {
        lemma_four_factors(s, m, s, l);
        lemma_off(s, g, k);
        lemma_prod_plus(m, yz, xw);
        lemma_prod_plus(yz, xy, zw);
        lemma_prod_plus(xw, xy, zw);
        lemma_four_factors(x, y, y, z);
        lemma_four_factors(x, y, x, w);
        lemma_four_factors(z, w, y, z);
        lemma_four_factors(z, w, x, w);
        lemma_four_factors(x, y, z, y);
        lemma_four_factors(z, w, z, y);
        lemma_prod_plus(k, xx, zz);
        lemma_prod_plus(xx, xz, yw);
        lemma_prod_plus(zz, xz, yw);
        lemma_prod(g, k);
        let (ml, gk) = (prod(m, l), prod(g, k));
        lemma_prod(xz, yy);
        lemma_prod(xz, ww);
        lemma_prod(xx, yw);
        lemma_prod(zz, yw);
        lemma_prod(xx, xz);
        lemma_prod(zz, xz);
        assert(prod(xy, yz) == prod(xz, yy));
        assert(prod(xy, xw) == prod(xx, yw));
        assert(prod(zw, yz) == prod(zz, yw));
        assert(prod(zw, xw) == prod(xz, ww));
        assert(ml == prod(xz, yy) - prod(xx, yw) - prod(zz, yw) + prod(xz, ww));
        assert(gk == prod(xx, xz) + prod(xx, yw) + prod(zz, xz) + prod(zz, yw));
        lemma_prod_plus(xz, xx + yy + zz, ww);
        lemma_prod_plus(xz, xx + yy, zz);
        lemma_prod_plus(xz, xx, yy);
        lemma_prod(n, xz);
        assert(ml + gk == prod(n, xz));
        lemma_prod_plus(ss, ml, gk);
        lemma_fold(s, n, xz);
        lemma_prod_plus(s, xz, yw);
    }
    // along the second
    assert(prod(prod(s, k), prod(s, p)) - prod(1 as real - prod(s, t), prod(s, l)) == prod(
        s,
        yz + xw,
    )) by {
        lemma_four_factors(s, k, s, p);
        lemma_off(s, t, l);
        lemma_prod_plus(k, xy, zw);
        lemma_prod_plus(xy, xz, yw);
        lemma_prod_plus(zw, xz, yw);
        lemma_four_factors(x, z, x, y);
        lemma_four_factors(x, z, z, w);
        lemma_four_factors(y, w, x, y);
        lemma_four_factors(y, w, z, w);
        lemma_four_factors(x, z, w, z);
        lemma_four_factors(y, w, y, x);
        lemma_prod_plus(t, yz, xw);
        lemma_prod_plus(yz, yy, zz);
        lemma_prod_plus(xw, yy, zz);
        let (kp, tl) = (prod(k, p), prod(t, l));
        lemma_prod(xx, yz);
        lemma_prod(ww, yz);
        lemma_prod(zz, xw);
        lemma_prod(yy, xw);
        lemma_prod(yy, yz);
        lemma_prod(zz, yz);
        assert(prod(xz, xy) == prod(xx, yz));
        assert(prod(xz, zw) == prod(zz, xw)) by {
            lemma_prod(xw, zz);
        }
        assert(prod(yw, xy) == prod(yy, xw)) by {
            lemma_four_factors(y, w, y, x);
        }
        assert(prod(yw, zw) == prod(ww, yz)) by {
            lemma_prod(yz, ww);
        }
        lemma_prod(xy, xz);
        lemma_prod(xy, yw);
        lemma_prod(zw, xz);
        lemma_prod(zw, yw);
        assert(kp == prod(xx, yz) + prod(zz, xw) + prod(yy, xw) + prod(ww, yz));
        assert(tl == prod(yy, yz) + prod(zz, yz) - prod(yy, xw) - prod(zz, xw));
        lemma_prod_plus(yz, xx + yy + zz, ww);
        lemma_prod_plus(yz, xx + yy, zz);
        lemma_prod_plus(yz, xx, yy);
        lemma_prod(n, yz);
        assert(kp + tl == prod(n, yz));
        lemma_prod_plus(ss, kp, tl);
        lemma_fold(s, n, yz);
        lemma_prod_plus(s, yz, xw);
    }
}


/// The quaternion of a pose is not zero.
pub open spec fn turns<T>(v: spec_fn(T) -> real, p: Seq<T>) -> bool {
    v(p[3]) != 0 as real || v(p[4]) != 0 as real || v(p[5]) != 0 as real || v(p[6]) != 0 as real
}

/// Element `i` of a rotation, over the reals.
spec fn rotation_at(x: real, y: real, z: real, w: real, s: real, i: int) -> real {
    if i == 0 {
        1 as real - prod(s, prod(y, y) + prod(z, z))
    } else if i == 1 {
        prod(s, prod(x, y) - prod(z, w))
    } else if i == 2 {
        prod(s, prod(x, z) + prod(y, w))
    } else if i == 3 {
        prod(s, prod(x, y) + prod(z, w))
    } else if i == 4 {
        1 as real - prod(s, prod(x, x) + prod(z, z))
    } else if i == 5 {
        prod(s, prod(y, z) - prod(x, w))
    } else if i == 6 {
        prod(s, prod(x, z) - prod(y, w))
    } else if i == 7 {
        prod(s, prod(y, z) + prod(x, w))
    } else {
        1 as real - prod(s, prod(x, x) + prod(y, y))
    }
}

/// Two over the square of a quaternion's length.
spec fn factor_of<T: Scalar>(p: Seq<T>) -> T {
    let (qi, qj, qk, qr) = (p[3], p[4], p[5], p[6]);
    T::ratio_spec(2, 1).over_spec(
        qi.times_spec(qi).plus_spec(qj.times_spec(qj)).plus_spec(qk.times_spec(qk)).plus_spec(
            qr.times_spec(qr),
        ),
    )
}

proof fn lemma_rotation<T: Scalar>(v: spec_fn(T) -> real, p: Seq<T>)
    requires
        faithful(v),
        p.len() >= 7,
        turns(v, p),
    ensures
        ({
            let (x, y, z, w) = (v(p[3]), v(p[4]), v(p[5]), v(p[6]));
            let s = v(factor_of(p));
            &&& length2(x, y, z, w) > 0 as real
            &&& prod(s, length2(x, y, z, w)) == 2 as real
            &&& forall|i: int|
                0 <= i < 9 ==> v(#[trigger] pose_rotation(p)[i]) == rotation_at(x, y, z, w, s, i)
        }),
{
    let (x, y, z, w) = (v(p[3]), v(p[4]), v(p[5]), v(p[6]));
    lemma_prod_square(x);
    lemma_prod_square(y);
    lemma_prod_square(z);
    lemma_prod_square(w);
    lemma_whole::<T>(v, 1);
    lemma_whole::<T>(v, 2);
    let r = pose_rotation(p);
    let s = v(factor_of(p));
    assert(length2(x, y, z, w) > 0 as real);
    assert(v(r[0]) == rotation_at(x, y, z, w, s, 0));
    assert(v(r[1]) == rotation_at(x, y, z, w, s, 1));
    assert(v(r[2]) == rotation_at(x, y, z, w, s, 2));
    assert(v(r[3]) == rotation_at(x, y, z, w, s, 3));
    assert(v(r[4]) == rotation_at(x, y, z, w, s, 4));
    assert(v(r[5]) == rotation_at(x, y, z, w, s, 5));
    assert(v(r[6]) == rotation_at(x, y, z, w, s, 6));
    assert(v(r[7]) == rotation_at(x, y, z, w, s, 7));
    assert(v(r[8]) == rotation_at(x, y, z, w, s, 8));
    assert forall|i: int| 0 <= i < 9 implies v(#[trigger] r[i]) == rotation_at(x, y, z, w, s, i) by {
        assert(i == 0 || i == 1 || i == 2 || i == 3 || i == 4 || i == 5 || i == 6 || i == 7 || i
            == 8);
    }
}

/// The product of columns `i` and `j` of the rotation of an extrinsic matrix.
pub open spec fn column_product<T>(v: spec_fn(T) -> real, ext: Seq<T>, i: int, j: int) -> real {
    prod(v(ext[i]), v(ext[j])) + prod(v(ext[4 + i]), v(ext[4 + j])) + prod(
        v(ext[8 + i]),
        v(ext[8 + j]),
    )
}

/// Where arithmetic is exact, a camera's extrinsics are a rotation, and they take the
/// camera's place to the origin.
pub proof fn law_camera_is_rigid<T: Scalar>(v: spec_fn(T) -> real, p: Seq<T>)
    requires
        faithful(v),
        p.len() >= 7,
        turns(v, p),
    ensures
        forall|i: int, j: int|
            0 <= i < 3 && 0 <= j < 3 ==> #[trigger] column_product(v, pose_extrinsics(p), i, j)
                == delta(i, j),
        v(det3_of(pose_rotation(p))) == 1 as real,
        forall|i: int|
            0 <= i < 3 ==> prod(v(#[trigger] pose_extrinsics(p)[4 * i]), v(p[0])) + prod(
                v(pose_extrinsics(p)[4 * i + 1]),
                v(p[1]),
            ) + prod(v(pose_extrinsics(p)[4 * i + 2]), v(p[2])) + v(pose_extrinsics(p)[4 * i + 3])
                == 0 as real,
{
    let (x, y, z, w) = (v(p[3]), v(p[4]), v(p[5]), v(p[6]));
    let s = v(factor_of(p));
    lemma_rotation(v, p);
    let r = pose_rotation(p);
    let e = pose_extrinsics(p);
    lemma_prod(x, y);
    lemma_prod(x, z);
    lemma_prod(y, z);
    assert(length2(y, z, x, w) == length2(x, y, z, w));
    assert(length2(z, x, y, w) == length2(x, y, z, w));
    lemma_row(x, y, z, w, s);
    lemma_row(y, z, x, w, s);
    lemma_row(z, x, y, w, s);
    lemma_rows(x, y, z, w, s);
    lemma_rows(y, z, x, w, s);
    lemma_rows(z, x, y, w, s);
    lemma_cross(y, z, x, w, s);
    let f = |i: int| rotation_at(x, y, z, w, s, i);
    assert(prod(f(0), f(0)) + prod(f(1), f(1)) + prod(f(2), f(2)) == 1 as real);
    assert(prod(f(4), f(4)) + prod(f(5), f(5)) + prod(f(3), f(3)) == 1 as real);
    assert(prod(f(8), f(8)) + prod(f(6), f(6)) + prod(f(7), f(7)) == 1 as real);
    assert(prod(f(0), f(3)) + prod(f(1), f(4)) + prod(f(2), f(5)) == 0 as real);
    assert(prod(f(4), f(7)) + prod(f(5), f(8)) + prod(f(3), f(6)) == 0 as real);
    assert(prod(f(8), f(2)) + prod(f(6), f(0)) + prod(f(7), f(1)) == 0 as real);
    assert forall|i: int, j: int| 0 <= i < 3 && 0 <= j < 3 implies #[trigger] column_product(
        v,
        e,
        i,
        j,
    ) == delta(i, j) by {
        assert(v(e[i]) == f(3 * i) && v(e[4 + i]) == f(3 * i + 1) && v(e[8 + i]) == f(3 * i + 2))
            by {
            assert(v(r[3 * i]) == f(3 * i));
            assert(v(r[3 * i + 1]) == f(3 * i + 1));
            assert(v(r[3 * i + 2]) == f(3 * i + 2));
        }
        assert(v(e[j]) == f(3 * j) && v(e[4 + j]) == f(3 * j + 1) && v(e[8 + j]) == f(3 * j + 2))
            by {
            assert(v(r[3 * j]) == f(3 * j));
            assert(v(r[3 * j + 1]) == f(3 * j + 1));
            assert(v(r[3 * j + 2]) == f(3 * j + 2));
        }
        assert(i == 0 || i == 1 || i == 2);
        assert(j == 0 || j == 1 || j == 2);
        lemma_prod(f(3 * i), f(3 * j));
        lemma_prod(f(3 * i + 1), f(3 * j + 1));
        lemma_prod(f(3 * i + 2), f(3 * j + 2));
    }
    assert(v(det3_of(r)) == 1 as real) by {
        assert(v(r[0]) == f(0) && v(r[1]) == f(1) && v(r[2]) == f(2) && v(r[3]) == f(3) && v(r[4])
            == f(4) && v(r[5]) == f(5) && v(r[6]) == f(6) && v(r[7]) == f(7) && v(r[8]) == f(8));
        lemma_prod(f(4), f(8));
        lemma_prod(f(5), f(7));
        lemma_prod(f(3), f(8));
        lemma_prod(f(5), f(6));
        lemma_prod(f(3), f(7));
        lemma_prod(f(4), f(6));
        assert(prod(f(4), f(8)) - prod(f(5), f(7)) == f(0));
        assert(prod(f(5), f(6)) - prod(f(3), f(8)) == f(1));
        assert(prod(f(3), f(7)) - prod(f(4), f(6)) == f(2));
        lemma_prod(f(1), prod(f(5), f(6)) - prod(f(3), f(8)));
    }
    assert forall|i: int| 0 <= i < 3 implies prod(v(#[trigger] e[4 * i]), v(p[0])) + prod(
        v(e[4 * i + 1]),
        v(p[1]),
    ) + prod(v(e[4 * i + 2]), v(p[2])) + v(e[4 * i + 3]) == 0 as real by {
        assert(i == 0 || i == 1 || i == 2);
    }
}

/// `s2 * (c a) * (c b)` is `s * a * b` where `s2 * c * c` is `s`.
proof fn lemma_scaled(s: real, s2: real, c: real, t: real)
    requires
        prod(s2, prod(c, c)) == s,
    ensures
        prod(s2, prod(prod(c, c), t)) == prod(s, t),
{
    lemma_prod_regroup(s2, prod(c, c), t);
}

/// Where arithmetic is exact, the length of a pose's quaternion does not matter.
pub proof fn law_quaternion_scale<T: Scalar>(v: spec_fn(T) -> real, p: Seq<T>, q: Seq<T>, c: real)
    requires
        faithful(v),
        p.len() >= 7,
        q.len() >= 7,
        turns(v, p),
        c != 0 as real,
        forall|i: int| 0 <= i < 3 ==> #[trigger] q[i] == p[i],
        forall|i: int| 3 <= i < 7 ==> v(#[trigger] q[i]) == prod(c, v(p[i])),
    ensures
        forall|i: int|
            0 <= i < 12 ==> v(#[trigger] pose_extrinsics(q)[i]) == v(pose_extrinsics(p)[i]),
{
    let (x, y, z, w) = (v(p[3]), v(p[4]), v(p[5]), v(p[6]));
    let (x2, y2, z2, w2) = (v(q[3]), v(q[4]), v(q[5]), v(q[6]));
    let cc = prod(c, c);
    lemma_prod(c, 0 as real);
    if x != 0 as real && x2 == 0 as real {
        lemma_prod_cancel(c, x, 0 as real);
    }
    if y != 0 as real && y2 == 0 as real {
        lemma_prod_cancel(c, y, 0 as real);
    }
    if z != 0 as real && z2 == 0 as real {
        lemma_prod_cancel(c, z, 0 as real);
    }
    if w != 0 as real && w2 == 0 as real {
        lemma_prod_cancel(c, w, 0 as real);
    }
    assert(turns(v, q));
    lemma_rotation(v, p);
    lemma_rotation(v, q);
    let (s, s2) = (v(factor_of(p)), v(factor_of(q)));
    let n = length2(x, y, z, w);
    lemma_four_factors(c, x, c, x);
    lemma_four_factors(c, y, c, y);
    lemma_four_factors(c, z, c, z);
    lemma_four_factors(c, w, c, w);
    lemma_four_factors(c, x, c, y);
    lemma_four_factors(c, x, c, z);
    lemma_four_factors(c, x, c, w);
    lemma_four_factors(c, y, c, z);
    lemma_four_factors(c, y, c, w);
    lemma_four_factors(c, z, c, w);
    let (xx, yy, zz, ww) = (prod(x, x), prod(y, y), prod(z, z), prod(w, w));
    let (xy, zw, xz, yw, yz, xw) = (
        prod(x, y),
        prod(z, w),
        prod(x, z),
        prod(y, w),
        prod(y, z),
        prod(x, w),
    );
    lemma_prod_plus(cc, xx + yy + zz, ww);
    lemma_prod_plus(cc, xx + yy, zz);
    lemma_prod_plus(cc, xx, yy);
    assert(length2(x2, y2, z2, w2) == prod(cc, n));
    lemma_prod_regroup(s2, cc, n);
    lemma_prod(n, prod(s2, cc));
    lemma_prod(n, s);
    lemma_prod_cancel(n, prod(s2, cc), s);
    lemma_prod_plus(cc, yy, zz);
    lemma_prod_plus(cc, xx, zz);
    lemma_prod_plus(cc, xy, zw);
    lemma_prod_plus(cc, xz, yw);
    lemma_prod_plus(cc, yz, xw);
    lemma_scaled(s, s2, c, yy + zz);
    lemma_scaled(s, s2, c, xx + zz);
    lemma_scaled(s, s2, c, xx + yy);
    lemma_scaled(s, s2, c, xy - zw);
    lemma_scaled(s, s2, c, xy + zw);
    lemma_scaled(s, s2, c, xz - yw);
    lemma_scaled(s, s2, c, xz + yw);
    lemma_scaled(s, s2, c, yz - xw);
    lemma_scaled(s, s2, c, yz + xw);
    let (r, r2) = (pose_rotation(p), pose_rotation(q));
    assert forall|i: int| 0 <= i < 9 implies v(#[trigger] r2[i]) == v(r[i]) by {
        assert(v(r[i]) == rotation_at(x, y, z, w, s, i));
        assert(i == 0 || i == 1 || i == 2 || i == 3 || i == 4 || i == 5 || i == 6 || i == 7 || i
            == 8);
    }
    let (e, e2) = (pose_extrinsics(p), pose_extrinsics(q));
    assert forall|i: int| 0 <= i < 12 implies v(#[trigger] e2[i]) == v(e[i]) by {
        let row = i / 4;
        if i % 4 == 3 {
            assert(v(r2[row]) == v(r[row]));
            assert(v(r2[3 + row]) == v(r[3 + row]));
            assert(v(r2[6 + row]) == v(r[6 + row]));
            assert(q[0] == p[0] && q[1] == p[1] && q[2] == p[2]);
        } else {
            assert(v(r2[3 * (i % 4) + row]) == v(r[3 * (i % 4) + row]));
        }
    }
}

/// The principal point lies in the middle of the image.
pub proof fn law_principal_point<T: Circular>(v: spec_fn(T) -> real, p: Seq<T>, w: usize, h: usize)
    requires
        faithful(v),
    ensures
        v(pose_intrinsics(p, w as int, h as int)[2]) + v(pose_intrinsics(p, w as int, h as int)[2])
            == w as int as real,
        v(pose_intrinsics(p, w as int, h as int)[5]) + v(pose_intrinsics(p, w as int, h as int)[5])
            == h as int as real,
{
    lemma_whole::<T>(v, 2);
    let k = pose_intrinsics(p, w as int, h as int);
    lemma_prod(v(k[2]), 2 as real);
    lemma_prod(v(k[5]), 2 as real);
    lemma_prod_two(v(k[2]));
    lemma_prod_two(v(k[5]));
}

/// `r` times a million.
proof fn lemma_million(r: real)
    ensures
        prod(r, 1_000_000 as real) == (1_000_000 as real) * r,
{
    reveal(prod);
}

/// The focal length of an image side, read as a real.
proof fn lemma_focal<T: Circular>(
    v: spec_fn(T) -> real,
    tn: spec_fn(real) -> real,
    size: usize,
    fov: T,
    half: real,
)
    requires
        faithful(v),
        forall|x: T| #[trigger] v(x.tangent_spec()) == tn(v(x)),
        half + half == v(fov),
    ensures
        (1_000_000 as real) * tn(half) >= 1 as real ==> prod(v(focal_of(size as int, fov)), tn(half))
            + prod(v(focal_of(size as int, fov)), tn(half)) == size as int as real,
        (1_000_000 as real) * tn(half) < 1 as real ==> v(focal_of(size as int, fov)) == (500_000
            as real) * (size as int as real),
{
    let two = T::ratio_spec(2, 1);
    lemma_whole::<T>(v, 2);
    let f = fov.over_spec(two);
    lemma_prod(v(f), 2 as real);
    lemma_prod_two(v(f));
    assert(v(f) == half);
    let least = T::ratio_spec(1, 1_000_000);
    lemma_million(v(least));
    assert(prod(v(least), 1_000_000u32 as int as real) == 1 as real);
    let t = f.tangent_spec();
    assert(v(t) == tn(half));
    let d = t.larger_spec(least);
    let s = T::from_count_spec(size).over_spec(two);
    lemma_prod(v(s), 2 as real);
    lemma_prod_two(v(s));
    assert(v(d) != 0 as real);
    let k = s.over_spec(d);
    assert(focal_of(size as int, fov) == k);
    assert(prod(v(k), v(d)) == v(s));
    if (1_000_000 as real) * tn(half) < 1 as real {
        assert(v(d) == v(least));
        lemma_million(v(k));
        lemma_prod_regroup(v(k), v(least), 1_000_000 as real);
        lemma_prod(v(k), 1 as real);
        lemma_million(v(s));
        assert(v(k) == prod(v(s), 1_000_000 as real));
    }
}

/// A decoded camera sees the angles it was given. With `tn` for the tangent, the
/// focal length along a side times the tangent of half the angle of view along
/// that side is half the side: the angle at place 8 along the width, the angle at
/// place 7 along the height. Where the tangent is below one millionth, one
/// millionth stands for it. The rest of the matrix is that of square axes.
pub proof fn law_field_of_view<T: Circular>(
    v: spec_fn(T) -> real,
    tn: spec_fn(real) -> real,
    p: Seq<T>,
    w: usize,
    h: usize,
    half_w: real,
    half_h: real,
)
    requires
        faithful(v),
        forall|x: T| #[trigger] v(x.tangent_spec()) == tn(v(x)),
        p.len() >= 9,
        half_w + half_w == v(p[8]),
        half_h + half_h == v(p[7]),
    ensures
        pose_intrinsics(p, w as int, h as int).len() == 9,
        (1_000_000 as real) * tn(half_w) >= 1 as real ==> prod(
            v(pose_intrinsics(p, w as int, h as int)[0]),
            tn(half_w),
        ) + prod(v(pose_intrinsics(p, w as int, h as int)[0]), tn(half_w)) == w as int as real,
        (1_000_000 as real) * tn(half_h) >= 1 as real ==> prod(
            v(pose_intrinsics(p, w as int, h as int)[4]),
            tn(half_h),
        ) + prod(v(pose_intrinsics(p, w as int, h as int)[4]), tn(half_h)) == h as int as real,
        (1_000_000 as real) * tn(half_w) < 1 as real ==> v(
            pose_intrinsics(p, w as int, h as int)[0],
        ) == (500_000 as real) * (w as int as real),
        (1_000_000 as real) * tn(half_h) < 1 as real ==> v(
            pose_intrinsics(p, w as int, h as int)[4],
        ) == (500_000 as real) * (h as int as real),
        v(pose_intrinsics(p, w as int, h as int)[1]) == 0 as real,
        v(pose_intrinsics(p, w as int, h as int)[3]) == 0 as real,
        v(pose_intrinsics(p, w as int, h as int)[6]) == 0 as real,
        v(pose_intrinsics(p, w as int, h as int)[7]) == 0 as real,
        v(pose_intrinsics(p, w as int, h as int)[8]) == 1 as real,
{
    lemma_focal(v, tn, w, p[8], half_w);
    lemma_focal(v, tn, h, p[7], half_h);
    lemma_whole::<T>(v, 0);
    lemma_whole::<T>(v, 1);
}

/// The product of two quaternions, each with its real part last.
pub open spec fn hamilton(p: (real, real, real, real), q: (real, real, real, real)) -> (
    real,
    real,
    real,
    real,
) {
    (
        prod(p.3, q.0) + prod(p.0, q.3) + prod(p.1, q.2) - prod(p.2, q.1),
        prod(p.3, q.1) - prod(p.0, q.2) + prod(p.1, q.3) + prod(p.2, q.0),
        prod(p.3, q.2) + prod(p.0, q.1) - prod(p.1, q.0) + prod(p.2, q.3),
        prod(p.3, q.3) - prod(p.0, q.0) - prod(p.1, q.1) - prod(p.2, q.2),
    )
}

/// The quaternion of a pose.
pub open spec fn quaternion<T>(v: spec_fn(T) -> real, p: Seq<T>) -> (real, real, real, real) {
    (v(p[3]), v(p[4]), v(p[5]), v(p[6]))
}

/// What a quaternion turns a direction into, times the square of its own length.
pub open spec fn turned_by(q: (real, real, real, real), a: (real, real, real)) -> (
    real,
    real,
    real,
    real,
) {
    hamilton(
        hamilton(q, (a.0, a.1, a.2, 0 as real)),
        (-q.0, -q.1, -q.2, q.3),
    )
}

/// A sum of three products times a number.
proof fn lemma_three_times(a: real, b: real, c: real, x: real, y: real, z: real, s: real)
    ensures
        prod(prod(x, a) + prod(y, b) + prod(z, c), s) == prod(prod(x, s), a) + prod(prod(y, s), b)
            + prod(prod(z, s), c),
        prod(prod(x, a) + prod(y, b) - prod(z, c), s) == prod(prod(x, s), a) + prod(prod(y, s), b)
            - prod(prod(z, s), c),
        prod(prod(x, a) - prod(y, b) + prod(z, c), s) == prod(prod(x, s), a) - prod(prod(y, s), b)
            + prod(prod(z, s), c),
        prod(-prod(x, a) - prod(y, b) - prod(z, c), s) == -prod(prod(x, s), a) - prod(
            prod(y, s),
            b,
        ) - prod(prod(z, s), c),
{
    lemma_prod_plus(s, prod(x, a), prod(y, b));
    lemma_prod_plus(s, prod(x, a) + prod(y, b), prod(z, c));
    lemma_prod_plus(s, prod(x, a) - prod(y, b), prod(z, c));
    lemma_prod_plus(s, -prod(x, a), prod(y, b));
    lemma_prod_plus(s, -prod(x, a) - prod(y, b), prod(z, c));
    lemma_prod(prod(x, a), s);
    lemma_prod_regroup(s, x, a);
    lemma_prod_regroup(s, y, b);
    lemma_prod_regroup(s, z, c);
    lemma_prod(s, x);
    lemma_prod(s, y);
    lemma_prod(s, z);
    lemma_prod(s, prod(x, a));
    lemma_prod(s, prod(y, b));
    lemma_prod(s, prod(z, c));
}

/// What a quaternion turns a direction into, written out.
pub proof fn lemma_turned(q: (real, real, real, real), a: (real, real, real))
    ensures
        turned_by(q, a).3 == 0 as real,
        ({
            let (x, y, z, w) = q;
            let b = turned_by(q, a);
            let (xx, yy, zz, ww) = (prod(x, x), prod(y, y), prod(z, z), prod(w, w));
            &&& b.0 == prod(ww + xx - yy - zz, a.0) + (2 as real) * prod(
                prod(x, y) - prod(z, w),
                a.1,
            ) + (2 as real) * prod(prod(x, z) + prod(y, w), a.2)
            &&& b.1 == (2 as real) * prod(prod(x, y) + prod(z, w), a.0) + prod(
                ww + yy - xx - zz,
                a.1,
            ) + (2 as real) * prod(prod(y, z) - prod(x, w), a.2)
            &&& b.2 == (2 as real) * prod(prod(x, z) - prod(y, w), a.0) + (2 as real) * prod(
                prod(y, z) + prod(x, w),
                a.1,
            ) + prod(ww + zz - xx - yy, a.2)
        }),
{
    let (x, y, z, w) = q;
    let (a0, a1, a2) = a;
    let t = hamilton(q, (a0, a1, a2, 0 as real));
    lemma_prod(x, 0 as real);
    lemma_prod(y, 0 as real);
    lemma_prod(z, 0 as real);
    lemma_prod(w, 0 as real);
    assert(t.0 == prod(w, a0) + prod(y, a2) - prod(z, a1));
    assert(t.1 == prod(w, a1) - prod(x, a2) + prod(z, a0));
    assert(t.2 == prod(w, a2) + prod(x, a1) - prod(y, a0));
    assert(t.3 == -prod(x, a0) - prod(y, a1) - prod(z, a2));
    lemma_three_times(a0, a2, a1, w, y, z, x);
    lemma_three_times(a1, a2, a0, w, x, z, x);
    lemma_three_times(a2, a1, a0, w, x, y, x);
    lemma_three_times(a0, a1, a2, x, y, z, x);
    lemma_three_times(a0, a2, a1, w, y, z, y);
    lemma_three_times(a1, a2, a0, w, x, z, y);
    lemma_three_times(a2, a1, a0, w, x, y, y);
    lemma_three_times(a0, a1, a2, x, y, z, y);
    lemma_three_times(a0, a2, a1, w, y, z, z);
    lemma_three_times(a1, a2, a0, w, x, z, z);
    lemma_three_times(a2, a1, a0, w, x, y, z);
    lemma_three_times(a0, a1, a2, x, y, z, z);
    lemma_three_times(a0, a2, a1, w, y, z, w);
    lemma_three_times(a1, a2, a0, w, x, z, w);
    lemma_three_times(a2, a1, a0, w, x, y, w);
    lemma_three_times(a0, a1, a2, x, y, z, w);
    lemma_prod(t.0, x);
    lemma_prod(t.0, y);
    lemma_prod(t.0, z);
    lemma_prod(t.1, x);
    lemma_prod(t.1, y);
    lemma_prod(t.1, z);
    lemma_prod(t.2, x);
    lemma_prod(t.2, y);
    lemma_prod(t.2, z);
    lemma_prod(t.3, x);
    lemma_prod(t.3, y);
    lemma_prod(t.3, z);
    lemma_prod(x, y);
    lemma_prod(x, z);
    lemma_prod(x, w);
    lemma_prod(y, z);
    lemma_prod(y, w);
    lemma_prod(z, w);
    let (xx, yy, zz, ww) = (prod(x, x), prod(y, y), prod(z, z), prod(w, w));
    lemma_prod_plus(a0, ww + xx - yy, zz);
    lemma_prod_plus(a0, ww + xx, yy);
    lemma_prod_plus(a0, ww, xx);
    lemma_prod_plus(a1, ww + yy - xx, zz);
    lemma_prod_plus(a1, ww + yy, xx);
    lemma_prod_plus(a1, ww, yy);
    lemma_prod_plus(a2, ww + zz - xx, yy);
    lemma_prod_plus(a2, ww + zz, xx);
    lemma_prod_plus(a2, ww, zz);
    lemma_prod_plus(a0, prod(x, y), prod(z, w));
    lemma_prod_plus(a0, prod(x, z), prod(y, w));
    lemma_prod_plus(a1, prod(x, y), prod(z, w));
    lemma_prod_plus(a1, prod(y, z), prod(x, w));
    lemma_prod_plus(a2, prod(x, z), prod(y, w));
    lemma_prod_plus(a2, prod(y, z), prod(x, w));
}

/// Twice a factor over the square of a length.
proof fn lemma_scaled_entry(n: real, s: real, m: real, a: real)
    requires
        prod(s, n) == 2 as real,
    ensures
        prod(n, prod(prod(s, m), a)) == (2 as real) * prod(m, a),
        prod(n, prod(1 as real - prod(s, m), a)) == prod(n, a) - (2 as real) * prod(m, a),
{
    let ma = prod(m, a);
    lemma_prod_regroup(s, m, a);
    lemma_prod_regroup(n, s, ma);
    lemma_prod(n, s);
    lemma_prod_two(ma);
    lemma_prod_plus(a, 1 as real, prod(s, m));
    lemma_prod(1 as real, a);
    lemma_prod(a, 1 as real);
    lemma_prod_plus(n, a, prod(prod(s, m), a));
}

/// The camera is turned as the quaternion says: a direction of the camera's, taken to
/// the world by the transposed rotation of the extrinsics, is what the quaternion turns
/// it into, both times the square of the quaternion's length.
pub proof fn law_camera_turns<T: Scalar>(
    v: spec_fn(T) -> real,
    p: Seq<T>,
    a: (real, real, real),
)
    requires
        faithful(v),
        p.len() >= 7,
        turns(v, p),
    ensures
        ({
            let q = quaternion(v, p);
            let n = prod(q.0, q.0) + prod(q.1, q.1) + prod(q.2, q.2) + prod(q.3, q.3);
            let e = pose_extrinsics(p);
            let b = turned_by(q, a);
            &&& n > 0 as real
            &&& prod(n, prod(v(e[0]), a.0) + prod(v(e[4]), a.1) + prod(v(e[8]), a.2)) == b.0
            &&& prod(n, prod(v(e[1]), a.0) + prod(v(e[5]), a.1) + prod(v(e[9]), a.2)) == b.1
            &&& prod(n, prod(v(e[2]), a.0) + prod(v(e[6]), a.1) + prod(v(e[10]), a.2)) == b.2
        }),
{
    let q = quaternion(v, p);
    let (x, y, z, w) = q;
    lemma_rotation(v, p);
    let s = v(factor_of(p));
    let n = length2(x, y, z, w);
    let r = pose_rotation(p);
    let e = pose_extrinsics(p);
    assert(e[0] == r[0] && e[4] == r[1] && e[8] == r[2]);
    assert(e[1] == r[3] && e[5] == r[4] && e[9] == r[5]);
    assert(e[2] == r[6] && e[6] == r[7] && e[10] == r[8]);
    let (xx, yy, zz, ww) = (prod(x, x), prod(y, y), prod(z, z), prod(w, w));
    let (xy, xz, xw, yz, yw, zw) = (
        prod(x, y),
        prod(x, z),
        prod(x, w),
        prod(y, z),
        prod(y, w),
        prod(z, w),
    );
    lemma_turned(q, a);
    lemma_scaled_entry(n, s, yy + zz, a.0);
    lemma_scaled_entry(n, s, xy - zw, a.1);
    lemma_scaled_entry(n, s, xz + yw, a.2);
    lemma_scaled_entry(n, s, xy + zw, a.0);
    lemma_scaled_entry(n, s, xx + zz, a.1);
    lemma_scaled_entry(n, s, yz - xw, a.2);
    lemma_scaled_entry(n, s, xz - yw, a.0);
    lemma_scaled_entry(n, s, yz + xw, a.1);
    lemma_scaled_entry(n, s, xx + yy, a.2);
    lemma_prod_plus(n, prod(v(r[0]), a.0) + prod(v(r[1]), a.1), prod(v(r[2]), a.2));
    lemma_prod_plus(n, prod(v(r[0]), a.0), prod(v(r[1]), a.1));
    lemma_prod_plus(n, prod(v(r[3]), a.0) + prod(v(r[4]), a.1), prod(v(r[5]), a.2));
    lemma_prod_plus(n, prod(v(r[3]), a.0), prod(v(r[4]), a.1));
    lemma_prod_plus(n, prod(v(r[6]), a.0) + prod(v(r[7]), a.1), prod(v(r[8]), a.2));
    lemma_prod_plus(n, prod(v(r[6]), a.0), prod(v(r[7]), a.1));
    lemma_prod_plus(a.0, yy, zz);
    lemma_prod_plus(a.0, ww + xx - yy, zz);
    lemma_prod_plus(a.0, ww + xx, yy);
    lemma_prod_plus(a.0, ww, xx);
    lemma_prod_plus(a.0, xx + yy + zz, ww);
    lemma_prod_plus(a.0, xx + yy, zz);
    lemma_prod_plus(a.0, xx, yy);
    lemma_prod_plus(a.1, xx, zz);
    lemma_prod_plus(a.1, ww + yy - xx, zz);
    lemma_prod_plus(a.1, ww + yy, xx);
    lemma_prod_plus(a.1, ww, yy);
    lemma_prod_plus(a.1, xx + yy + zz, ww);
    lemma_prod_plus(a.1, xx + yy, zz);
    lemma_prod_plus(a.1, xx, yy);
    lemma_prod_plus(a.2, xx, yy);
    lemma_prod_plus(a.2, ww + zz - xx, yy);
    lemma_prod_plus(a.2, ww + zz, xx);
    lemma_prod_plus(a.2, ww, zz);
    lemma_prod_plus(a.2, xx + yy + zz, ww);
    lemma_prod_plus(a.2, xx + yy, zz);
    lemma_prod_plus(a.2, xx, yy);
}

} // verus!
