//! World-space 3D Gaussians from the raw Gaussian field, depth and a camera.
//!
//! A pixel of the raw field has 37 channels:
//!
//! ```text
//! 0, 1      offset in the image
//! 2 .. 4    scales
//! 5 .. 8    quaternion, x y z w
//! 9 .. 35   spherical harmonics, nine per colour
//! 36        offset in depth
//! ```

use crate::error::{Error, ModelError};
use crate::exact::{lemma_half, lemma_plus};
use crate::index::{accumulate, lemma_accumulate_agree, lemma_row_within, lemma_split, lemma_within};
use crate::linalg::{matmul, nine, product_of};
use crate::scalar::{one, zero, Analytic, Circular, Fixed, Scalar, Widens};
use vstd::prelude::*;

verus! {

/// Gaussians, one per pixel, in row-major arrays.
pub struct Gaussians<S> {
    pub n: usize,
    /// Three per Gaussian.
    pub means: Vec<S>,
    /// Three per Gaussian.
    pub scales: Vec<S>,
    /// Four per Gaussian.
    pub rotations: Vec<S>,
    /// Three colours per Gaussian, `d_sh` coefficients each.
    pub harmonics: Vec<S>,
    pub opacities: Vec<S>,
}

/// How raw Gaussians are read.
pub struct GsAdapter<D> {
    pub sh_degree: usize,
    /// `(sh_degree + 1)^2`.
    pub d_sh: usize,
    pub pred_offset_depth: bool,
    pub pred_offset_xy: bool,
    pub pred_color: bool,
    pub scale_min: D,
    pub scale_max: D,
}

/// Why Gaussians cannot be built.
#[derive(Debug, PartialEq, Eq)]
pub enum BuildError {
    /// The array `name` has a wrong length.
    BadInputLen { name: &'static str, expected: usize, got: usize },
}

impl From<BuildError> for Error {
    fn from(e: BuildError) -> (r: Error) {
        match e {
            BuildError::BadInputLen { name, expected, got } => Error::Model(
                ModelError::FieldLength { array: name, expected, got },
            ),
        }
    }
}

impl vstd::std_specs::convert::FromSpecImpl<BuildError> for Error {
    open spec fn obeys_from_spec() -> bool {
        true
    }

    open spec fn from_spec(e: BuildError) -> Error {
        match e {
            BuildError::BadInputLen { name, expected, got } => Error::Model(
                ModelError::FieldLength { array: name, expected, got },
            ),
        }
    }
}

// ---- matrices and quaternions -----------------------------------------------

/// One over a number, zero for zero.
pub open spec fn inverse_or_zero<D: Scalar>(x: D) -> D {
    if x.same_spec(zero()) {
        zero()
    } else {
        one::<D>().over_spec(x)
    }
}

fn inverse_of<D: Scalar>(x: D) -> (r: D)
    ensures
        r == inverse_or_zero(x),
{
    if x.same(D::ratio(0, 1)) {
        D::ratio(0, 1)
    } else {
        D::ratio(1, 1).over(x)
    }
}

/// The difference of the products `a b - c d`.
pub open spec fn cross<D: Scalar>(a: D, b: D, c: D, d: D) -> D {
    a.times_spec(b).minus_spec(c.times_spec(d))
}

fn cross_of<D: Scalar>(a: D, b: D, c: D, d: D) -> (r: D)
    ensures
        r == cross(a, b, c, d),
{
    a.times(b).minus(c.times(d))
}

/// The inverse of a 3x3 matrix by cofactors; zeros where it has none.
pub open spec fn inverse3<D: Scalar>(m: Seq<D>) -> Seq<D> {
    let aa = cross(m[4], m[8], m[5], m[7]);
    let bb = cross(m[3], m[8], m[5], m[6]).negated_spec();
    let cc = cross(m[3], m[7], m[4], m[6]);
    let id = inverse_or_zero(
        m[0].times_spec(aa).plus_spec(m[1].times_spec(bb)).plus_spec(m[2].times_spec(cc)),
    );
    seq![
        aa.times_spec(id),
        cross(m[2], m[7], m[1], m[8]).times_spec(id),
        cross(m[1], m[5], m[2], m[4]).times_spec(id),
        bb.times_spec(id),
        cross(m[0], m[8], m[2], m[6]).times_spec(id),
        cross(m[2], m[3], m[0], m[5]).times_spec(id),
        cc.times_spec(id),
        cross(m[1], m[6], m[0], m[7]).times_spec(id),
        cross(m[0], m[4], m[1], m[3]).times_spec(id),
    ]
}

/// The inverse of a 3x3 matrix; zeros where it is singular.
pub fn mat3_inverse<D: Scalar>(m: &[D; 9]) -> (r: [D; 9])
    ensures
        r@ == inverse3(m@),
{
    let aa: D = cross_of(m[4], m[8], m[5], m[7]);
    let bb: D = cross_of(m[3], m[8], m[5], m[6]).negated();
    let cc: D = cross_of(m[3], m[7], m[4], m[6]);
    let id: D = inverse_of(m[0].times(aa).plus(m[1].times(bb)).plus(m[2].times(cc)));
    let r: [D; 9] = [
        aa.times(id),
        cross_of(m[2], m[7], m[1], m[8]).times(id),
        cross_of(m[1], m[5], m[2], m[4]).times(id),
        bb.times(id),
        cross_of(m[0], m[8], m[2], m[6]).times(id),
        cross_of(m[2], m[3], m[0], m[5]).times(id),
        cc.times(id),
        cross_of(m[1], m[6], m[0], m[7]).times(id),
        cross_of(m[0], m[4], m[1], m[3]).times(id),
    ];
    assert(r@ =~= inverse3(m@));
    r
}

/// The largest row sum of magnitudes among the first `rows` rows.
pub open spec fn row_norm<D: Analytic>(a: Seq<D>, n: int, rows: nat) -> D
    decreases rows,
{
    if rows == 0 {
        zero()
    } else {
        let before = row_norm(a, n, (rows - 1) as nat);
        let s = accumulate(
            zero(),
            |j: int| a[(rows - 1) * n + j].magnitude_spec(),
            n as nat,
        );
        if before.less_spec(s) {
            s
        } else {
            before
        }
    }
}

/// How often a norm is halved until it is at most a quarter, at most 2048 times,
/// and the scale that remains.
pub open spec fn halvings<D: Scalar>(norm: D, scale: D, done: nat, left: nat) -> (D, nat)
    decreases left,
{
    if left == 0 || !D::ratio_spec(1, 4).less_spec(norm.times_spec(scale)) {
        (scale, done)
    } else {
        halvings(norm, scale.times_spec(D::ratio_spec(1, 2)), done + 1, (left - 1) as nat)
    }
}

/// A matrix, element by element over a number.
pub open spec fn divided<D: Scalar>(a: Seq<D>, by: D) -> Seq<D> {
    Seq::new(a.len(), |i: int| a[i].over_spec(by))
}

/// The sum of two matrices.
pub open spec fn summed<D: Scalar>(a: Seq<D>, b: Seq<D>) -> Seq<D> {
    Seq::new(a.len(), |i: int| a[i].plus_spec(b[i]))
}

/// A matrix, element by element times a number, the number first.
pub open spec fn multiplied<D: Scalar>(by: D, a: Seq<D>) -> Seq<D> {
    Seq::new(a.len(), |i: int| by.times_spec(a[i]))
}

/// A matrix, element by element times a number, the number last.
pub open spec fn times_each<D: Scalar>(a: Seq<D>, by: D) -> Seq<D> {
    Seq::new(a.len(), |i: int| a[i].times_spec(by))
}

/// The term of order `m` of the exponential series of `b`.
pub open spec fn series_term<D: Scalar>(b: Seq<D>, n: int, m: nat) -> Seq<D>
    decreases m,
{
    if m == 0 {
        crate::linalg::identity(n)
    } else {
        divided(
            product_of(series_term(b, n, (m - 1) as nat), b, n),
            D::from_count_spec(m as usize),
        )
    }
}

/// The exponential series of `b` up to the term of order `m`.
pub open spec fn series_sum<D: Scalar>(b: Seq<D>, n: int, m: nat) -> Seq<D>
    decreases m,
{
    if m == 0 {
        crate::linalg::identity(n)
    } else {
        summed(series_sum(b, n, (m - 1) as nat), series_term(b, n, m))
    }
}

/// A matrix squared `k` times over.
pub open spec fn squared<D: Scalar>(a: Seq<D>, n: int, k: nat) -> Seq<D>
    decreases k,
{
    if k == 0 {
        a
    } else {
        let before = squared(a, n, (k - 1) as nat);
        product_of(before, before, n)
    }
}

/// The matrix exponential: the series up to order 18 of a scaled-down matrix,
/// squared back.
pub open spec fn exponential_of<D: Analytic>(a: Seq<D>, n: int) -> Seq<D> {
    let (scale, k) = halvings(row_norm(a, n, n as nat), one::<D>(), 0, 2048);
    squared(series_sum(times_each(a, scale), n, 18), n, k)
}

fn row_norm_of<D: Analytic>(a: &[D], n: usize) -> (r: D)
    requires
        a.len() == n * n,
    ensures
        r == row_norm(a@, n as int, n as nat),
{
    let mut norm: D = D::ratio(0, 1);
    let mut i: usize = 0;
    while i < n
        invariant
            i <= n,
            a.len() == n * n,
            norm == row_norm(a@, n as int, i as nat),
        decreases n - i,
    {
        let mut s: D = D::ratio(0, 1);
        let mut j: usize = 0;
        let ghost t = |j: int| a@[(i + 1 - 1) * n + j].magnitude_spec();
        while j < n
            invariant
                j <= n,
                i < n,
                a.len() == n * n,
                t == (|j: int| a@[(i + 1 - 1) * n + j].magnitude_spec()),
                s == accumulate(zero(), t, j as nat),
            decreases n - j,
        {
            proof {
                lemma_within(i as int, n as int, j as int, n as int);
                assert(t(j as int) == a@[i * n + j].magnitude_spec());
            }
            s = s.plus(a[i * n + j].magnitude());
            j = j + 1;
        }
        if norm.less(s) {
            norm = s;
        }
        i = i + 1;
    }
    norm
}

fn identity_of<D: Scalar>(n: usize, total: usize) -> (r: Vec<D>)
    requires
        total == n * n,
    ensures
        r@ == crate::linalg::identity::<D>(n as int),
{
    let mut r: Vec<D> = Vec::new();
    let mut p: usize = 0;
    while p < total
        invariant
            p <= total,
            total == n * n,
            r.len() == p,
            forall|j: int|
                0 <= j < p ==> #[trigger] r[j] == crate::linalg::identity::<D>(n as int)[j],
        decreases total - p,
    {
        proof {
            assert(n > 0) by (nonlinear_arith)
                requires
                    0 <= p < n * n,
            ;
        }
        if p / n == p % n {
            r.push(D::ratio(1, 1));
        } else {
            r.push(D::ratio(0, 1));
        }
        p = p + 1;
    }
    assert(r@ =~= crate::linalg::identity::<D>(n as int));
    r
}

fn times_all<D: Scalar>(a: &[D], by: D) -> (r: Vec<D>)
    ensures
        r@ == times_each(a@, by),
{
    let mut r: Vec<D> = Vec::new();
    let mut i: usize = 0;
    while i < a.len()
        invariant
            i <= a.len(),
            r.len() == i,
            forall|j: int| 0 <= j < i ==> #[trigger] r[j] == a[j].times_spec(by),
        decreases a.len() - i,
    {
        r.push(a[i].times(by));
        i = i + 1;
    }
    assert(r@ =~= times_each(a@, by));
    r
}

/// The exponential of an `n` by `n` matrix.
pub fn mat_exp<D: Analytic>(a: &[D], n: usize) -> (r: Vec<D>)
    requires
        a.len() == n * n,
    ensures
        r@ == exponential_of(a@, n as int),
        r.len() == n * n,
{
    let total: usize = a.len();
    let norm: D = row_norm_of(a, n);
    let quarter: D = D::ratio(1, 4);
    let half: D = D::ratio(1, 2);
    let mut scale: D = D::ratio(1, 1);
    let mut k: usize = 0;
    while k < 2048 && quarter.less(norm.times(scale))
        invariant
            k <= 2048,
            quarter == D::ratio_spec(1, 4),
            half == D::ratio_spec(1, 2),
            halvings(norm, scale, k as nat, (2048 - k) as nat) == halvings(
                norm,
                one::<D>(),
                0,
                2048,
            ),
        decreases 2048 - k,
    {
        scale = scale.times(half);
        k = k + 1;
    }
    let b: Vec<D> = times_all(a, scale);
    let mut term: Vec<D> = identity_of(n, total);
    let mut acc: Vec<D> = identity_of(n, total);
    let mut m: usize = 0;
    while m < 18
        invariant
            m <= 18,
            total == n * n,
            b@.len() == total,
            term@ == series_term(b@, n as int, m as nat),
            acc@ == series_sum(b@, n as int, m as nat),
            term.len() == total,
            acc.len() == total,
        decreases 18 - m,
    {
        let next: Vec<D> = matmul(term.as_slice(), b.as_slice(), n);
        let by: D = D::from_count(m + 1);
        let ghost old_acc = acc@;
        let ghost want_term = series_term(b@, n as int, (m + 1) as nat);
        let ghost want_acc = series_sum(b@, n as int, (m + 1) as nat);
        let mut i: usize = 0;
        while i < total
            invariant
                i <= total,
                total == n * n,
                next.len() == total,
                term.len() == total,
                acc.len() == total,
                old_acc.len() == total,
                want_term == divided(next@, by),
                want_acc == summed(old_acc, want_term),
                forall|j: int| 0 <= j < i ==> #[trigger] term[j] == want_term[j],
                forall|j: int| 0 <= j < i ==> #[trigger] acc[j] == want_acc[j],
                forall|j: int| i <= j < total ==> #[trigger] acc[j] == old_acc[j],
            decreases total - i,
        {
            let x: D = next[i].over(by);
            term[i] = x;
            let y: D = acc[i].plus(x);
            acc[i] = y;
            i = i + 1;
        }
        assert(term@ =~= want_term);
        assert(acc@ =~= want_acc);
        m = m + 1;
    }
    let ghost sum = acc@;
    let mut done: usize = 0;
    while done < k
        invariant
            done <= k,
            acc.len() == n * n,
            acc@ == squared(sum, n as int, done as nat),
        decreases k - done,
    {
        acc = matmul(acc.as_slice(), acc.as_slice(), n);
        done = done + 1;
    }
    acc
}

/// The rotation matrix of a quaternion `x y z w`.
pub open spec fn quat_matrix<D: Scalar>(q: Seq<D>) -> Seq<D> {
    let (i, j, k, r) = (q[0], q[1], q[2], q[3]);
    let s = D::ratio_spec(2, 1).over_spec(
        i.times_spec(i).plus_spec(j.times_spec(j)).plus_spec(k.times_spec(k)).plus_spec(
            r.times_spec(r),
        ),
    );
    let u = one::<D>();
    seq![
        u.minus_spec(s.times_spec(j.times_spec(j).plus_spec(k.times_spec(k)))),
        s.times_spec(i.times_spec(j).minus_spec(k.times_spec(r))),
        s.times_spec(i.times_spec(k).plus_spec(j.times_spec(r))),
        s.times_spec(i.times_spec(j).plus_spec(k.times_spec(r))),
        u.minus_spec(s.times_spec(i.times_spec(i).plus_spec(k.times_spec(k)))),
        s.times_spec(j.times_spec(k).minus_spec(i.times_spec(r))),
        s.times_spec(i.times_spec(k).minus_spec(j.times_spec(r))),
        s.times_spec(j.times_spec(k).plus_spec(i.times_spec(r))),
        u.minus_spec(s.times_spec(i.times_spec(i).plus_spec(j.times_spec(j)))),
    ]
}

/// The rotation matrix of a quaternion `x y z w`.
pub fn quat_xyzw_to_mat<D: Scalar>(q: &[D; 4]) -> (m: [D; 9])
    ensures
        m@ == quat_matrix(q@),
{
    let (i, j, k, r): (D, D, D, D) = (q[0], q[1], q[2], q[3]);
    let s: D = D::ratio(2, 1).over(
        i.times(i).plus(j.times(j)).plus(k.times(k)).plus(r.times(r)),
    );
    let u: D = D::ratio(1, 1);
    let m: [D; 9] = [
        u.minus(s.times(j.times(j).plus(k.times(k)))),
        s.times(i.times(j).minus(k.times(r))),
        s.times(i.times(k).plus(j.times(r))),
        s.times(i.times(j).plus(k.times(r))),
        u.minus(s.times(i.times(i).plus(k.times(k)))),
        s.times(j.times(k).minus(i.times(r))),
        s.times(i.times(k).minus(j.times(r))),
        s.times(j.times(k).plus(i.times(r))),
        u.minus(s.times(i.times(i).plus(j.times(j)))),
    ];
    assert(m@ =~= quat_matrix(q@));
    m
}

/// The square root of a positive number, else zero.
pub open spec fn root_or_zero<D: Analytic>(x: D) -> D {
    if zero::<D>().less_spec(x) {
        x.root_spec()
    } else {
        zero()
    }
}

fn root_of<D: Analytic>(x: D) -> (r: D)
    ensures
        r == root_or_zero(x),
{
    if D::ratio(0, 1).less(x) {
        x.root()
    } else {
        D::ratio(0, 1)
    }
}

/// The four magnitudes of a quaternion, doubled, from its matrix.
pub open spec fn quat_sizes<D: Analytic>(m: Seq<D>) -> Seq<D> {
    let u = one::<D>();
    seq![
        root_or_zero(u.plus_spec(m[0]).plus_spec(m[4]).plus_spec(m[8])),
        root_or_zero(u.plus_spec(m[0]).minus_spec(m[4]).minus_spec(m[8])),
        root_or_zero(u.minus_spec(m[0]).plus_spec(m[4]).minus_spec(m[8])),
        root_or_zero(u.minus_spec(m[0]).minus_spec(m[4]).plus_spec(m[8])),
    ]
}

/// The first index of a largest of four numbers.
pub open spec fn largest_of_four<D: Scalar>(v: Seq<D>) -> int {
    let a: int = if v[0].less_spec(v[1]) {
        1
    } else {
        0
    };
    let b: int = if v[a].less_spec(v[2]) {
        2
    } else {
        a
    };
    if v[b].less_spec(v[3]) {
        3
    } else {
        b
    }
}

/// A multiple of the quaternion `w x y z` of a matrix, read off by its largest
/// component.
pub open spec fn quat_candidate<D: Analytic>(m: Seq<D>, qa: Seq<D>, best: int) -> Seq<D> {
    if best == 0 {
        seq![
            qa[0].times_spec(qa[0]),
            m[7].minus_spec(m[5]),
            m[2].minus_spec(m[6]),
            m[3].minus_spec(m[1]),
        ]
    } else if best == 1 {
        seq![
            m[7].minus_spec(m[5]),
            qa[1].times_spec(qa[1]),
            m[3].plus_spec(m[1]),
            m[2].plus_spec(m[6]),
        ]
    } else if best == 2 {
        seq![
            m[2].minus_spec(m[6]),
            m[3].plus_spec(m[1]),
            qa[2].times_spec(qa[2]),
            m[5].plus_spec(m[7]),
        ]
    } else {
        seq![
            m[3].minus_spec(m[1]),
            m[6].plus_spec(m[2]),
            m[7].plus_spec(m[5]),
            qa[3].times_spec(qa[3]),
        ]
    }
}

/// The quaternion `x y z w` of a rotation matrix, with `w` not negative.
pub open spec fn matrix_quat<D: Analytic>(m: Seq<D>) -> Seq<D> {
    let qa = quat_sizes(m);
    let best = largest_of_four(qa);
    let denom = D::ratio_spec(2, 1).times_spec(qa[best].larger_spec(D::ratio_spec(1, 10)));
    let c = quat_candidate(m, qa, best);
    let w = c[0].over_spec(denom);
    let (x, y, z) = (c[1].over_spec(denom), c[2].over_spec(denom), c[3].over_spec(denom));
    if w.less_spec(zero()) {
        seq![x.negated_spec(), y.negated_spec(), z.negated_spec(), w.negated_spec()]
    } else {
        seq![x, y, z, w]
    }
}

/// The quaternion `x y z w` of a rotation matrix, with `w` not negative.
pub fn mat_to_quat_xyzw<D: Analytic>(m: &[D; 9]) -> (q: [D; 4])
    ensures
        q@ == matrix_quat(m@),
{
    let u: D = D::ratio(1, 1);
    let qa: [D; 4] = [
        root_of(u.plus(m[0]).plus(m[4]).plus(m[8])),
        root_of(u.plus(m[0]).minus(m[4]).minus(m[8])),
        root_of(u.minus(m[0]).plus(m[4]).minus(m[8])),
        root_of(u.minus(m[0]).minus(m[4]).plus(m[8])),
    ];
    assert(qa@ =~= quat_sizes(m@));
    let mut best: usize = 0;
    if qa[best].less(qa[1]) {
        best = 1;
    }
    if qa[best].less(qa[2]) {
        best = 2;
    }
    if qa[best].less(qa[3]) {
        best = 3;
    }
    let c: [D; 4] = match best {
        0 => [qa[0].times(qa[0]), m[7].minus(m[5]), m[2].minus(m[6]), m[3].minus(m[1])],
        1 => [m[7].minus(m[5]), qa[1].times(qa[1]), m[3].plus(m[1]), m[2].plus(m[6])],
        2 => [m[2].minus(m[6]), m[3].plus(m[1]), qa[2].times(qa[2]), m[5].plus(m[7])],
        _ => [m[3].minus(m[1]), m[6].plus(m[2]), m[7].plus(m[5]), qa[3].times(qa[3])],
    };
    assert(c@ =~= quat_candidate(m@, qa@, best as int));
    let denom: D = D::ratio(2, 1).times(qa[best].larger(D::ratio(1, 10)));
    let w: D = c[0].over(denom);
    let x: D = c[1].over(denom);
    let y: D = c[2].over(denom);
    let z: D = c[3].over(denom);
    let q: [D; 4] = if w.less(D::ratio(0, 1)) {
        [x.negated(), y.negated(), z.negated(), w.negated()]
    } else {
        [x, y, z, w]
    };
    assert(q@ =~= matrix_quat(m@));
    q
}

/// A camera-space quaternion `x y z w` turned into world space.
///
/// The quaternion enters as `w x y z` where `x y z w` is read, and what comes
/// out is kept in that order.
pub open spec fn world_quat<D: Analytic>(q: Seq<D>, rc2w: Seq<D>) -> Seq<D> {
    matrix_quat(product_of(rc2w, quat_matrix(seq![q[3], q[0], q[1], q[2]]), 3))
}

/// Turns a camera-space quaternion into world space.
pub fn cam_quat_to_world_wxyz<D: Analytic>(q: &[D; 4], rc2w: &[D; 9]) -> (r: [D; 4])
    ensures
        r@ == world_quat(q@, rc2w@),
{
    let relabelled: [D; 4] = [q[3], q[0], q[1], q[2]];
    assert(relabelled@ =~= seq![q@[3], q@[0], q@[1], q@[2]]);
    let rcam: [D; 9] = quat_xyzw_to_mat(&relabelled);
    let rworld: Vec<D> = matmul(rc2w.as_slice(), rcam.as_slice(), 3);
    mat_to_quat_xyzw(&nine(rworld.as_slice()))
}

// ---- angles and the rotation of spherical harmonics -------------------------

/// The rotation about y by an angle.
pub open spec fn about_y<D: Circular>(a: D) -> Seq<D> {
    let (c, s) = (a.cosine_spec(), a.sine_spec());
    seq![c, zero(), s, zero(), one(), zero(), s.negated_spec(), zero(), c]
}

/// The rotation about x by an angle.
pub open spec fn about_x<D: Circular>(a: D) -> Seq<D> {
    let (c, s) = (a.cosine_spec(), a.sine_spec());
    seq![one(), zero(), zero(), zero(), c, s.negated_spec(), zero(), s, c]
}

fn matrix_y<D: Circular>(a: D) -> (m: [D; 9])
    ensures
        m@ == about_y(a),
{
    let (c, s): (D, D) = (a.cosine(), a.sine());
    let o: D = D::ratio(0, 1);
    let m: [D; 9] = [c, o, s, o, D::ratio(1, 1), o, s.negated(), o, c];
    assert(m@ =~= about_y(a));
    m
}

fn matrix_x<D: Circular>(a: D) -> (m: [D; 9])
    ensures
        m@ == about_x(a),
{
    let (c, s): (D, D) = (a.cosine(), a.sine());
    let o: D = D::ratio(0, 1);
    let m: [D; 9] = [D::ratio(1, 1), o, o, o, c, s.negated(), o, s, c];
    assert(m@ =~= about_x(a));
    m
}

/// The rotation about y by `g`, then about x by `b`, then about y by `a`.
pub open spec fn angles_matrix<D: Circular>(a: D, b: D, g: D) -> Seq<D> {
    product_of(product_of(about_y(a), about_x(b), 3), about_y(g), 3)
}

fn angles_to_matrix<D: Circular>(a: D, b: D, g: D) -> (m: [D; 9])
    ensures
        m@ == angles_matrix(a, b, g),
{
    let t: Vec<D> = matmul(matrix_y(a).as_slice(), matrix_x(b).as_slice(), 3);
    let r: Vec<D> = matmul(t.as_slice(), matrix_y(g).as_slice(), 3);
    nine(r.as_slice())
}

/// A number cut to the range from -1 to 1.
pub open spec fn unit_range<D: Scalar>(x: D) -> D {
    let low = D::ratio_spec((-1) as i32, 1);
    if x.less_spec(low) {
        low
    } else if one::<D>().less_spec(x) {
        one()
    } else {
        x
    }
}

/// The angles of a rotation matrix.
pub open spec fn matrix_angles<D: Circular>(r: Seq<D>) -> (D, D, D) {
    let nrm = r[1].times_spec(r[1]).plus_spec(r[4].times_spec(r[4])).plus_spec(
        r[7].times_spec(r[7]),
    ).root_spec();
    let (x0, x1) = if zero::<D>().less_spec(nrm) {
        (r[1].over_spec(nrm), r[4].over_spec(nrm))
    } else {
        (r[1], r[4])
    };
    let beta = unit_range(x1).arc_cosine_spec();
    let alpha = x0.arc_tangent_spec(r[7]);
    let r2 = product_of(
        crate::linalg::transposed(angles_matrix(alpha, beta, zero()), 3),
        r,
        3,
    );
    (alpha, beta, r2[2].arc_tangent_spec(r2[0]))
}

fn matrix_to_angles<D: Circular>(r: &[D; 9]) -> (out: (D, D, D))
    ensures
        out == matrix_angles(r@),
{
    let nrm: D = r[1].times(r[1]).plus(r[4].times(r[4])).plus(r[7].times(r[7])).root();
    let (x0, x1): (D, D) = if D::ratio(0, 1).less(nrm) {
        (r[1].over(nrm), r[4].over(nrm))
    } else {
        (r[1], r[4])
    };
    let low: D = D::ratio(-1, 1);
    let high: D = D::ratio(1, 1);
    let x1: D = if x1.less(low) {
        low
    } else if high.less(x1) {
        high
    } else {
        x1
    };
    let beta: D = x1.arc_cosine();
    let alpha: D = x0.arc_tangent(r[7]);
    let a: [D; 9] = angles_to_matrix(alpha, beta, D::ratio(0, 1));
    let at: [D; 9] = crate::linalg::mat3_transpose(&a);
    let r2: Vec<D> = matmul(at.as_slice(), r.as_slice(), 3);
    (alpha, beta, r2[2].arc_tangent(r2[0]))
}

/// The rotation of harmonics of degree `l` about their axis.
pub open spec fn axis_rotation<D: Circular>(angle: D, l: int) -> Seq<D> {
    let d = 2 * l + 1;
    Seq::new(
        (d * d) as nat,
        |p: int|
            {
                let freq = D::from_count_spec(l as usize).minus_spec(
                    D::from_count_spec((p / d) as usize),
                );
                if p / d == p % d {
                    freq.times_spec(angle).cosine_spec()
                } else if p % d == d - 1 - p / d {
                    freq.times_spec(angle).sine_spec()
                } else {
                    zero::<D>()
                }
            },
    )
}

fn z_rot_mat<D: Circular>(angle: D, l: usize) -> (m: Vec<D>)
    requires
        l == 1 || l == 2,
    ensures
        m@ == axis_rotation(angle, l as int),
        m.len() == (2 * l + 1) * (2 * l + 1),
{
    let d: usize = 2 * l + 1;
    let mut m: Vec<D> = Vec::new();
    let mut p: usize = 0;
    while p < d * d
        invariant
            d == 2 * l + 1,
            d == 3 || d == 5,
            p <= d * d,
            m.len() == p,
            forall|j: int| 0 <= j < p ==> #[trigger] m[j] == axis_rotation(angle, l as int)[j],
        decreases d * d - p,
    {
        let row: usize = p / d;
        let col: usize = p % d;
        let freq: D = D::from_count(l).minus(D::from_count(row));
        proof {
            lemma_row_within(p as int, d as int, d as int);
        }
        if row == col {
            m.push(freq.times(angle).cosine());
        } else if col == d - 1 - row {
            m.push(freq.times(angle).sine());
        } else {
            m.push(D::ratio(0, 1));
        }
        p = p + 1;
    }
    assert(m@ =~= axis_rotation(angle, l as int));
    m
}

/// The generator of rotations about x for harmonics of degree `l`.
pub open spec fn generator<D: Analytic>(l: int) -> Seq<D> {
    let o = zero::<D>();
    let u = one::<D>();
    let m = D::ratio_spec((-1) as i32, 1);
    if l == 1 {
        seq![o, o, o, o, o, m, o, u, o]
    } else {
        let s = D::ratio_spec(3, 1).root_spec();
        seq![
            o, u, o, o, o,
            m, o, o, o, o,
            o, o, o, s.negated_spec(), o,
            o, o, s, o, m,
            o, o, o, u, o,
        ]
    }
}

fn x_gen<D: Analytic>(l: usize) -> (r: Vec<D>)
    requires
        l == 1 || l == 2,
    ensures
        r@ == generator::<D>(l as int),
        r.len() == (2 * l + 1) * (2 * l + 1),
{
    let o: D = D::ratio(0, 1);
    let u: D = D::ratio(1, 1);
    let m: D = D::ratio(-1, 1);
    let r: Vec<D> = if l == 1 {
        vec![o, o, o, o, o, m, o, u, o]
    } else {
        let s: D = D::ratio(3, 1).root();
        vec![
            o, u, o, o, o,
            m, o, o, o, o,
            o, o, o, s.negated(), o,
            o, o, s, o, m,
            o, o, o, u, o,
        ]
    };
    assert(r@ =~= generator::<D>(l as int));
    r
}

/// The matrix that rotates harmonics of degree `l` by the angles `a`, `b`, `g`.
pub open spec fn wigner<D: Circular>(l: int, a: D, b: D, g: D) -> Seq<D> {
    let d = 2 * l + 1;
    product_of(
        product_of(
            axis_rotation(a, l),
            exponential_of(multiplied(b, generator::<D>(l)), d),
            d,
        ),
        axis_rotation(g, l),
        d,
    )
}

/// The matrix that rotates harmonics of degree `l`, one or two.
pub fn wigner_d<D: Circular>(l: usize, a: D, b: D, g: D) -> (r: Vec<D>)
    requires
        l == 1 || l == 2,
    ensures
        r@ == wigner(l as int, a, b, g),
        r.len() == (if l == 1 {
            9int
        } else {
            25
        }),
{
    let d: usize = 2 * l + 1;
    assert(l == 1 ==> d * d == 9);
    assert(l == 2 ==> d * d == 25);
    let za: Vec<D> = z_rot_mat(a, l);
    let zg: Vec<D> = z_rot_mat(g, l);
    let x0: Vec<D> = x_gen(l);
    let mut bx0: Vec<D> = Vec::new();
    let mut i: usize = 0;
    while i < x0.len()
        invariant
            i <= x0.len(),
            bx0.len() == i,
            forall|j: int| 0 <= j < i ==> #[trigger] bx0[j] == b.times_spec(x0[j]),
        decreases x0.len() - i,
    {
        bx0.push(b.times(x0[i]));
        i = i + 1;
    }
    assert(bx0@ =~= multiplied(b, x0@));
    let eb: Vec<D> = mat_exp(bx0.as_slice(), d);
    let t: Vec<D> = matmul(za.as_slice(), eb.as_slice(), d);
    matmul(t.as_slice(), zg.as_slice(), d)
}

// ---- the adapter ------------------------------------------------------------

/// What all pixels share.
pub struct Shared<D> {
    /// Camera to world.
    pub rotation: Seq<D>,
    pub translation: Seq<D>,
    /// Inverse of the intrinsics in image units.
    pub unproject: Seq<D>,
    /// What a scale is multiplied with besides depth.
    pub multiplier: D,
    pub degree1: Seq<D>,
    pub degree2: Seq<D>,
    /// The weight of each harmonic.
    pub mask: Seq<D>,
}

/// The camera-to-world rotation of world-to-camera extrinsics.
pub open spec fn rotation_of<S: Scalar, D: Widens<S>>(ext: Seq<S>) -> Seq<D> {
    Seq::new(9, |p: int| D::widened_spec(ext[p % 3 * 4 + p / 3]))
}

/// The camera's place in the world.
pub open spec fn place_of<S: Scalar, D: Widens<S>>(ext: Seq<S>) -> Seq<D> {
    let r = rotation_of::<S, D>(ext);
    Seq::new(
        3,
        |i: int|
            accumulate(
                zero(),
                |j: int| r[i * 3 + j].times_spec(D::widened_spec(ext[j * 4 + 3])),
                3,
            ).negated_spec(),
    )
}

/// Intrinsics in units of the image.
pub open spec fn normed<S: Scalar, D: Widens<S>>(intr: Seq<S>, h: int, w: int) -> Seq<D> {
    Seq::new(
        9,
        |p: int|
            if p < 3 {
                D::widened_spec(intr[p]).over_spec(D::from_count_spec(w as usize))
            } else if p < 6 {
                D::widened_spec(intr[p]).over_spec(D::from_count_spec(h as usize))
            } else {
                D::widened_spec(intr[p])
            },
    )
}

/// A tenth of the sum of a pixel's extent seen through the intrinsics.
pub open spec fn multiplier_of<D: Scalar>(kn: Seq<D>, h: int, w: int) -> D {
    let id = inverse_or_zero(cross(kn[0], kn[4], kn[1], kn[3]));
    let px = one::<D>().over_spec(D::from_count_spec(w as usize));
    let py = one::<D>().over_spec(D::from_count_spec(h as usize));
    let mx = kn[4].times_spec(id).times_spec(px).plus_spec(
        kn[1].negated_spec().times_spec(id).times_spec(py),
    );
    let my = kn[3].negated_spec().times_spec(id).times_spec(px).plus_spec(
        kn[0].times_spec(id).times_spec(py),
    );
    D::ratio_spec(1, 10).times_spec(mx.plus_spec(my))
}

/// The axes of harmonics: z, x, y.
pub open spec fn axes<D: Scalar>() -> Seq<D> {
    let o = zero::<D>();
    let u = one::<D>();
    seq![o, o, u, u, o, o, o, u, o]
}

/// The axes of harmonics, back.
pub open spec fn axes_back<D: Scalar>() -> Seq<D> {
    let o = zero::<D>();
    let u = one::<D>();
    seq![o, u, o, o, o, u, u, o, o]
}

/// The angles by which harmonics are rotated.
pub open spec fn harmonic_angles<D: Circular>(rotation: Seq<D>) -> (D, D, D) {
    matrix_angles(product_of(product_of(axes_back(), rotation, 3), axes(), 3))
}

/// The weight of harmonic `k`: one, then a tenth over four to the degree.
pub open spec fn harmonic_weight<D: Scalar>(k: int, degree: int) -> D {
    if k == 0 {
        one()
    } else if k < 4 && degree >= 1 {
        D::ratio_spec(1, 10).times_spec(D::ratio_spec(1, 4))
    } else if k >= 4 && degree >= 2 {
        D::ratio_spec(1, 10).times_spec(D::ratio_spec(1, 16))
    } else {
        zero()
    }
}

/// What all pixels share, from the camera and the image size.
pub open spec fn shared_of<S: Scalar, D: Widens<S> + Circular>(
    ext: Seq<S>,
    intr: Seq<S>,
    h: int,
    w: int,
    degree: int,
) -> Shared<D> {
    let rotation = rotation_of::<S, D>(ext);
    let kn = normed::<S, D>(intr, h, w);
    let (a, b, g) = harmonic_angles(rotation);
    Shared {
        rotation,
        translation: place_of::<S, D>(ext),
        unproject: inverse3(kn),
        multiplier: multiplier_of(kn, h, w),
        degree1: wigner(1, a, b.negated_spec(), g),
        degree2: wigner(2, a, b.negated_spec(), g),
        mask: Seq::new(9, |k: int| harmonic_weight(k, degree)),
    }
}

/// What all pixels share, computed.
struct SharedValues<D> {
    rotation: [D; 9],
    translation: [D; 3],
    unproject: [D; 9],
    multiplier: D,
    degree1: Vec<D>,
    degree2: Vec<D>,
    mask: [D; 9],
}

impl<D> SharedValues<D> {
    spec fn is(self, s: Shared<D>) -> bool {
        &&& self.rotation@ == s.rotation
        &&& self.translation@ == s.translation
        &&& self.unproject@ == s.unproject
        &&& self.multiplier == s.multiplier
        &&& self.degree1@ == s.degree1
        &&& self.degree2@ == s.degree2
        &&& self.mask@ == s.mask
        &&& self.degree1.len() == 9
        &&& self.degree2.len() == 25
    }
}

fn place<S: Scalar, D: Widens<S>>(ext: &[S; 12], r: &[D; 9], i: usize) -> (out: D)
    requires
        i < 3,
        r@ == rotation_of::<S, D>(ext@),
    ensures
        out == place_of::<S, D>(ext@)[i as int],
{
    let ghost t = |j: int| r@[i * 3 + j].times_spec(D::widened_spec(ext@[j * 4 + 3]));
    let mut s: D = D::ratio(0, 1);
    let mut j: usize = 0;
    while j < 3
        invariant
            j <= 3,
            i < 3,
            t == (|j: int| r@[i * 3 + j].times_spec(D::widened_spec(ext@[j * 4 + 3]))),
            s == accumulate(zero(), t, j as nat),
        decreases 3 - j,
    {
        assert(t(j as int) == r@[i * 3 + j].times_spec(D::widened_spec(ext@[j * 4 + 3])));
        s = s.plus(r[i * 3 + j].times(D::widened(ext[j * 4 + 3])));
        j = j + 1;
    }
    s.negated()
}

fn weight<D: Scalar>(k: usize, degree: usize) -> (r: D)
    ensures
        r == harmonic_weight::<D>(k as int, degree as int),
{
    if k == 0 {
        D::ratio(1, 1)
    } else if k < 4 && degree >= 1 {
        D::ratio(1, 10).times(D::ratio(1, 4))
    } else if k >= 4 && degree >= 2 {
        D::ratio(1, 10).times(D::ratio(1, 16))
    } else {
        D::ratio(0, 1)
    }
}

fn multiplier<D: Scalar>(kn: &[D; 9], h: usize, w: usize) -> (r: D)
    ensures
        r == multiplier_of(kn@, h as int, w as int),
{
    let id: D = inverse_of(cross_of(kn[0], kn[4], kn[1], kn[3]));
    let unit: D = D::ratio(1, 1);
    let px: D = unit.over(D::from_count(w));
    let py: D = unit.over(D::from_count(h));
    let mx: D = kn[4].times(id).times(px).plus(kn[1].negated().times(id).times(py));
    let my: D = kn[3].negated().times(id).times(px).plus(kn[0].times(id).times(py));
    D::ratio(1, 10).times(mx.plus(my))
}

fn share<S: Scalar, D: Widens<S> + Circular>(
    ext: &[S; 12],
    intr: &[S; 9],
    h: usize,
    w: usize,
    degree: usize,
) -> (r: SharedValues<D>)
    ensures
        r.is(shared_of::<S, D>(ext@, intr@, h as int, w as int, degree as int)),
{
    let rotation: [D; 9] = [
        D::widened(ext[0]),
        D::widened(ext[4]),
        D::widened(ext[8]),
        D::widened(ext[1]),
        D::widened(ext[5]),
        D::widened(ext[9]),
        D::widened(ext[2]),
        D::widened(ext[6]),
        D::widened(ext[10]),
    ];
    assert(rotation@ =~= rotation_of::<S, D>(ext@));
    let translation: [D; 3] = [
        place(ext, &rotation, 0),
        place(ext, &rotation, 1),
        place(ext, &rotation, 2),
    ];
    assert(translation@ =~= place_of::<S, D>(ext@));
    let wide: D = D::from_count(w);
    let high: D = D::from_count(h);
    let kn: [D; 9] = [
        D::widened(intr[0]).over(wide),
        D::widened(intr[1]).over(wide),
        D::widened(intr[2]).over(wide),
        D::widened(intr[3]).over(high),
        D::widened(intr[4]).over(high),
        D::widened(intr[5]).over(high),
        D::widened(intr[6]),
        D::widened(intr[7]),
        D::widened(intr[8]),
    ];
    assert(kn@ =~= normed::<S, D>(intr@, h as int, w as int));
    let o: D = D::ratio(0, 1);
    let u: D = D::ratio(1, 1);
    let p: [D; 9] = [o, o, u, u, o, o, o, u, o];
    let pinv: [D; 9] = [o, u, o, o, o, u, u, o, o];
    assert(p@ =~= axes::<D>());
    assert(pinv@ =~= axes_back::<D>());
    let t1: Vec<D> = matmul(pinv.as_slice(), rotation.as_slice(), 3);
    let perm: Vec<D> = matmul(t1.as_slice(), p.as_slice(), 3);
    let (a, b, g): (D, D, D) = matrix_to_angles(&nine(perm.as_slice()));
    let degree1: Vec<D> = wigner_d(1, a, b.negated(), g);
    let degree2: Vec<D> = wigner_d(2, a, b.negated(), g);
    let mask: [D; 9] = [
        weight(0, degree),
        weight(1, degree),
        weight(2, degree),
        weight(3, degree),
        weight(4, degree),
        weight(5, degree),
        weight(6, degree),
        weight(7, degree),
        weight(8, degree),
    ];
    let ghost want = shared_of::<S, D>(ext@, intr@, h as int, w as int, degree as int);
    assert(mask@ =~= want.mask);
    let r: SharedValues<D> = SharedValues {
        rotation,
        translation,
        unproject: mat3_inverse(&kn),
        multiplier: multiplier(&kn, h, w),
        degree1,
        degree2,
        mask,
    };
    assert((a, b, g) == harmonic_angles(rotation@));
    r
}

/// The depth of a pixel's Gaussian.
pub open spec fn depth_at<S: Scalar, D: Widens<S>>(
    raw: Seq<S>,
    depth: Seq<S>,
    offset: bool,
    pix: int,
) -> D {
    if offset {
        D::widened_spec(depth[pix]).plus_spec(D::widened_spec(raw[pix * 37 + 36]))
    } else {
        D::widened_spec(depth[pix])
    }
}

fn depth_of<S: Scalar, D: Widens<S>>(raw: &[S], depth: &[S], offset: bool, pix: usize) -> (r: D)
    requires
        raw.len() == depth.len() * 37,
        pix < depth.len(),
    ensures
        r == depth_at::<S, D>(raw@, depth@, offset, pix as int),
{
    if offset {
        D::widened(depth[pix]).plus(D::widened(raw[pix * 37 + 36]))
    } else {
        D::widened(depth[pix])
    }
}

/// `(position + 1/2) / size + offset / size`.
pub open spec fn image_place<D: Scalar>(position: int, offset: D, size: int) -> D {
    let s = D::from_count_spec(size as usize);
    D::from_count_spec(position as usize).plus_spec(D::ratio_spec(1, 2)).over_spec(s).plus_spec(
        offset.over_spec(s),
    )
}

fn image_place_of<D: Scalar>(position: usize, offset: D, size: usize) -> (r: D)
    ensures
        r == image_place(position as int, offset, size as int),
{
    let s: D = D::from_count(size);
    D::from_count(position).plus(D::ratio(1, 2)).over(s).plus(offset.over(s))
}

/// A row of a 3x3 matrix times a vector, added up from the left.
pub open spec fn row_dot<D: Scalar>(m: Seq<D>, row: int, x: D, y: D, z: D) -> D {
    m[row * 3].times_spec(x).plus_spec(m[row * 3 + 1].times_spec(y)).plus_spec(
        m[row * 3 + 2].times_spec(z),
    )
}

/// A row of a 3x3 matrix times a vector whose last component is one.
pub open spec fn row_dot_one<D: Scalar>(m: Seq<D>, row: int, x: D, y: D) -> D {
    m[row * 3].times_spec(x).plus_spec(m[row * 3 + 1].times_spec(y)).plus_spec(m[row * 3 + 2])
}

/// A vector over its length, where that is positive.
pub open spec fn unit_vector<D: Analytic>(x: D, y: D, z: D) -> (D, D, D) {
    let n = x.times_spec(x).plus_spec(y.times_spec(y)).plus_spec(z.times_spec(z)).root_spec();
    if zero::<D>().less_spec(n) {
        (x.over_spec(n), y.over_spec(n), z.over_spec(n))
    } else {
        (x, y, z)
    }
}

/// The direction in which the camera sees pixel `pix`.
pub open spec fn ray_at<S: Scalar, D: Widens<S> + Analytic>(
    raw: Seq<S>,
    unproject: Seq<D>,
    offset: bool,
    h: int,
    w: int,
    pix: int,
) -> (D, D, D) {
    let ox = if offset {
        D::widened_spec(raw[pix * 37])
    } else {
        zero::<D>()
    };
    let oy = if offset {
        D::widened_spec(raw[pix * 37 + 1])
    } else {
        zero::<D>()
    };
    let x = image_place(pix % w, ox, w);
    let y = image_place(pix / w, oy, h);
    unit_vector(
        row_dot_one(unproject, 0, x, y),
        row_dot_one(unproject, 1, x, y),
        row_dot_one(unproject, 2, x, y),
    )
}

/// Coordinate `c` of the centre of pixel `pix`'s Gaussian.
pub open spec fn mean_at<S: Scalar, D: Widens<S> + Analytic>(
    raw: Seq<S>,
    depth: Seq<S>,
    sh: Shared<D>,
    offset_depth: bool,
    offset_xy: bool,
    h: int,
    w: int,
    pix: int,
    c: int,
) -> S {
    let (x, y, z) = ray_at::<S, D>(raw, sh.unproject, offset_xy, h, w, pix);
    sh.translation[c].plus_spec(
        row_dot(sh.rotation, c, x, y, z).times_spec(
            depth_at::<S, D>(raw, depth, offset_depth, pix),
        ),
    ).narrowed_spec()
}

/// Scale `c` of pixel `pix`'s Gaussian.
pub open spec fn scale_at<S: Scalar, D: Widens<S> + Analytic>(
    raw: Seq<S>,
    depth: Seq<S>,
    multiplier: D,
    offset_depth: bool,
    low: D,
    high: D,
    pix: int,
    c: int,
) -> S {
    let sg = one::<D>().over_spec(
        one::<D>().plus_spec(
            D::widened_spec(raw[pix * 37 + 2 + c]).negated_spec().exponential_spec(),
        ),
    );
    low.plus_spec(high.minus_spec(low).times_spec(sg)).times_spec(
        depth_at::<S, D>(raw, depth, offset_depth, pix),
    ).times_spec(multiplier).narrowed_spec()
}

/// A quaternion over its length, which 1e-8 is added to.
pub open spec fn unit_quat<S: Scalar, D: Widens<S> + Analytic>(raw: Seq<S>, pix: int) -> Seq<D> {
    let q = Seq::new(4, |i: int| D::widened_spec(raw[pix * 37 + 5 + i]));
    let n = q[0].times_spec(q[0]).plus_spec(q[1].times_spec(q[1])).plus_spec(
        q[2].times_spec(q[2]),
    ).plus_spec(q[3].times_spec(q[3])).root_spec().plus_spec(
        D::from_double_bits_spec(0x3e45_798e_e230_8c3a),
    );
    Seq::new(4, |i: int| q[i].over_spec(n))
}

/// Coefficient `k` of one colour of one pixel, weighted.
pub open spec fn coefficient<S: Scalar, D: Widens<S>>(
    raw: Seq<S>,
    mask: Seq<D>,
    d_sh: int,
    row: int,
    k: int,
) -> D {
    if k < d_sh {
        D::widened_spec(raw[row / 3 * 37 + 9 + row % 3 * d_sh + k]).times_spec(mask[k])
    } else {
        zero()
    }
}

/// Coefficient `k` of one colour of one pixel after rotation; `row` counts
/// colours over all pixels.
pub open spec fn harmonic_at<S: Scalar, D: Widens<S>>(
    raw: Seq<S>,
    sh: Shared<D>,
    d_sh: int,
    row: int,
    k: int,
) -> S {
    let c = |j: int| coefficient::<S, D>(raw, sh.mask, d_sh, row, j);
    (if k == 0 {
        c(0)
    } else if k < 4 {
        accumulate(zero(), |j: int| sh.degree1[(k - 1) * 3 + j].times_spec(c(1 + j)), 3)
    } else {
        accumulate(zero(), |j: int| sh.degree2[(k - 4) * 5 + j].times_spec(c(4 + j)), 5)
    }).narrowed_spec()
}

/// The opacity for a confidence: `(1 - (1 - c) + c) / 2`.
pub open spec fn opacity_of<S: Scalar, D: Widens<S>>(conf: S) -> S {
    let c = D::widened_spec(conf);
    D::ratio_spec(1, 2).times_spec(
        one::<D>().minus_spec(one::<D>().minus_spec(c)).plus_spec(c),
    ).narrowed_spec()
}

/// Degree two, all offsets, no colours, scales from 0.00001 to 30.
pub open spec fn default_adapter<D: Scalar>() -> GsAdapter<D> {
    GsAdapter {
        sh_degree: 2,
        d_sh: 9,
        pred_offset_depth: true,
        pred_offset_xy: true,
        pred_color: false,
        scale_min: D::from_double_bits_spec(0x3ee4_f8b5_88e3_68f1),
        scale_max: D::ratio_spec(30, 1),
    }
}

/// What [`Gaussians`] hold.
pub struct GaussiansData<S> {
    pub n: int,
    pub means: Seq<S>,
    pub scales: Seq<S>,
    pub rotations: Seq<S>,
    pub harmonics: Seq<S>,
    pub opacities: Seq<S>,
}

impl<S> View for Gaussians<S> {
    type V = GaussiansData<S>;

    open spec fn view(&self) -> GaussiansData<S> {
        GaussiansData {
            n: self.n as int,
            means: self.means@,
            scales: self.scales@,
            rotations: self.rotations@,
            harmonics: self.harmonics@,
            opacities: self.opacities@,
        }
    }
}

/// The Gaussians of a raw field, a depth map and a camera.
pub open spec fn built_of<S: Scalar, D: Circular + Widens<S>>(
    a: GsAdapter<D>,
    raw: Seq<S>,
    depth: Seq<S>,
    conf: Seq<S>,
    ext: Seq<S>,
    intr: Seq<S>,
    h: int,
    w: int,
) -> GaussiansData<S> {
    let n = h * w;
    let sh = shared_of::<S, D>(ext, intr, h, w, a.sh_degree as int);
    GaussiansData {
        n,
        means: Seq::new(
            (n * 3) as nat,
            |p: int|
                mean_at::<S, D>(
                    raw,
                    depth,
                    sh,
                    a.pred_offset_depth,
                    a.pred_offset_xy,
                    h,
                    w,
                    p / 3,
                    p % 3,
                ),
        ),
        scales: Seq::new(
            (n * 3) as nat,
            |p: int|
                scale_at::<S, D>(
                    raw,
                    depth,
                    sh.multiplier,
                    a.pred_offset_depth,
                    a.scale_min,
                    a.scale_max,
                    p / 3,
                    p % 3,
                ),
        ),
        rotations: Seq::new(
            (n * 4) as nat,
            |p: int|
                world_quat(unit_quat::<S, D>(raw, p / 4), sh.rotation)[p % 4].narrowed_spec(),
        ),
        harmonics: Seq::new(
            (n * 3 * a.d_sh) as nat,
            |p: int|
                harmonic_at::<S, D>(
                    raw,
                    sh,
                    a.d_sh as int,
                    p / a.d_sh as int,
                    p % a.d_sh as int,
                ),
        ),
        opacities: Seq::new(n as nat, |p: int| opacity_of::<S, D>(conf[p])),
    }
}

impl<D: Circular> Default for GsAdapter<D> {
    /// Degree two, all offsets, no colours, scales from 0.00001 to 30.
    fn default() -> (r: Self)
        ensures
            r == default_adapter::<D>(),
            r.wf(),
    {
        GsAdapter {
            sh_degree: 2,
            d_sh: 9,
            pred_offset_depth: true,
            pred_offset_xy: true,
            pred_color: false,
            scale_min: D::from_double_bits(0x3ee4_f8b5_88e3_68f1),
            scale_max: D::ratio(30, 1),
        }
    }
}

impl<D: Circular> GsAdapter<D> {
    /// The harmonics stay within the 27 channels that hold them.
    pub open spec fn wf(&self) -> bool {
        self.sh_degree <= 2 && self.d_sh <= 9
    }

    /// Builds one Gaussian for each pixel.
    ///
    /// `raw_gs` has 37 channels a pixel, `ext` is a 3x4 world-to-camera matrix
    /// and `intr` a 3x3 matrix in pixels.
    pub fn build<S: Scalar>(
        &self,
        raw_gs: &[S],
        depth: &[S],
        gs_conf: &[S],
        ext: &[S; 12],
        intr: &[S; 9],
        h: usize,
        w: usize,
    ) -> (r: Result<Gaussians<S>, BuildError>) where D: Widens<S>
        requires
            self.wf(),
            h * w * 37 <= usize::MAX,
        ensures
            match r {
                Err(BuildError::BadInputLen { name, expected, got }) => {
                    if raw_gs.len() != h * w * 37 {
                        name@ == "raw_gs"@ && expected == h * w * 37 && got == raw_gs.len()
                    } else if depth.len() != h * w {
                        name@ == "depth"@ && expected == h * w && got == depth.len()
                    } else {
                        &&& gs_conf.len() != h * w
                        &&& name@ == "gs_conf"@
                        &&& expected == h * w
                        &&& got == gs_conf.len()
                    }
                },
                Ok(g) => {
                    &&& raw_gs.len() == h * w * 37
                    &&& depth.len() == h * w
                    &&& gs_conf.len() == h * w
                    &&& g@ == built_of::<S, D>(
                        *self,
                        raw_gs@,
                        depth@,
                        gs_conf@,
                        ext@,
                        intr@,
                        h as int,
                        w as int,
                    )
                },
            },
    {
        let n: usize = h * w;
        if raw_gs.len() != n * 37 {
            return Err(
                BuildError::BadInputLen { name: "raw_gs", expected: n * 37, got: raw_gs.len() },
            );
        }
        if depth.len() != n {
            return Err(BuildError::BadInputLen { name: "depth", expected: n, got: depth.len() });
        }
        if gs_conf.len() != n {
            return Err(
                BuildError::BadInputLen { name: "gs_conf", expected: n, got: gs_conf.len() },
            );
        }
        let sh: SharedValues<D> = share(ext, intr, h, w, self.sh_degree);
        Ok(
            Gaussians {
                n,
                means: self.means(raw_gs, depth, &sh, h, w),
                scales: self.scales(raw_gs, depth, sh.multiplier),
                rotations: rotations(raw_gs, &sh, n),
                harmonics: self.harmonics(raw_gs, &sh, n),
                opacities: opacities::<S, D>(gs_conf),
            },
        )
    }

    fn means<S: Scalar>(
        &self,
        raw: &[S],
        depth: &[S],
        sh: &SharedValues<D>,
        h: usize,
        w: usize,
    ) -> (r: Vec<S>) where D: Widens<S>
        requires
            raw.len() == depth.len() * 37,
            depth.len() == h * w,
            h * w * 37 <= usize::MAX,
        ensures
            forall|s: Shared<D>| #[trigger] sh.is(s) ==> r@ == Seq::new(
                (h * w * 3) as nat,
                |p: int|
                    mean_at::<S, D>(
                        raw@,
                        depth@,
                        s,
                        self.pred_offset_depth,
                        self.pred_offset_xy,
                        h as int,
                        w as int,
                        p / 3,
                        p % 3,
                    ),
            ),
    {
        let ghost s = Shared {
            rotation: sh.rotation@,
            translation: sh.translation@,
            unproject: sh.unproject@,
            multiplier: sh.multiplier,
            degree1: sh.degree1@,
            degree2: sh.degree2@,
            mask: sh.mask@,
        };
        let ghost want = |p: int|
            mean_at::<S, D>(
                raw@,
                depth@,
                s,
                self.pred_offset_depth,
                self.pred_offset_xy,
                h as int,
                w as int,
                p / 3,
                p % 3,
            );
        let m: &[D; 9] = &sh.unproject;
        let rc: &[D; 9] = &sh.rotation;
        let o: D = D::ratio(0, 1);
        let mut r: Vec<S> = Vec::new();
        let mut pix: usize = 0;
        while pix < depth.len()
            invariant
                pix <= depth.len(),
                raw.len() == depth.len() * 37,
                depth.len() == h * w,
                h * w * 37 <= usize::MAX,
                m@ == sh.unproject@,
                rc@ == sh.rotation@,
                o == zero::<D>(),
                s.rotation == sh.rotation@,
                s.translation == sh.translation@,
                s.unproject == sh.unproject@,
                want == (|p: int|
                    mean_at::<S, D>(
                        raw@,
                        depth@,
                        s,
                        self.pred_offset_depth,
                        self.pred_offset_xy,
                        h as int,
                        w as int,
                        p / 3,
                        p % 3,
                    )),
                r.len() == pix * 3,
                forall|p: int| 0 <= p < pix * 3 ==> #[trigger] r[p] == want(p),
            decreases depth.len() - pix,
        {
            proof {
                assert(w > 0) by (nonlinear_arith)
                    requires
                        0 <= pix < h * w,
                ;
            }
            let (ox, oy): (D, D) = if self.pred_offset_xy {
                (D::widened(raw[pix * 37]), D::widened(raw[pix * 37 + 1]))
            } else {
                (o, o)
            };
            let x: D = image_place_of(pix % w, ox, w);
            let y: D = image_place_of(pix / w, oy, h);
            let dx: D = m[0].times(x).plus(m[1].times(y)).plus(m[2]);
            let dy: D = m[3].times(x).plus(m[4].times(y)).plus(m[5]);
            let dz: D = m[6].times(x).plus(m[7].times(y)).plus(m[8]);
            let dn: D = dx.times(dx).plus(dy.times(dy)).plus(dz.times(dz)).root();
            let (dx, dy, dz): (D, D, D) = if o.less(dn) {
                (dx.over(dn), dy.over(dn), dz.over(dn))
            } else {
                (dx, dy, dz)
            };
            let far: D = depth_of(raw, depth, self.pred_offset_depth, pix);
            let wx: D = rc[0].times(dx).plus(rc[1].times(dy)).plus(rc[2].times(dz));
            let wy: D = rc[3].times(dx).plus(rc[4].times(dy)).plus(rc[5].times(dz));
            let wz: D = rc[6].times(dx).plus(rc[7].times(dy)).plus(rc[8].times(dz));
            proof {
                assert((dx, dy, dz) == ray_at::<S, D>(
                    raw@,
                    s.unproject,
                    self.pred_offset_xy,
                    h as int,
                    w as int,
                    pix as int,
                ));
            }
            r.push(sh.translation[0].plus(wx.times(far)).narrowed());
            r.push(sh.translation[1].plus(wy.times(far)).narrowed());
            r.push(sh.translation[2].plus(wz.times(far)).narrowed());
            proof {
                assert(r[pix * 3] == want(pix * 3));
                assert(r[pix * 3 + 1] == want(pix * 3 + 1));
                assert(r[pix * 3 + 2] == want(pix * 3 + 2));
            }
            pix = pix + 1;
        }
        proof {
            assert forall|s2: Shared<D>| #[trigger] sh.is(s2) implies r@ == Seq::new(
                (h * w * 3) as nat,
                |p: int|
                    mean_at::<S, D>(
                        raw@,
                        depth@,
                        s2,
                        self.pred_offset_depth,
                        self.pred_offset_xy,
                        h as int,
                        w as int,
                        p / 3,
                        p % 3,
                    ),
            ) by {
                assert(s2 == s);
                assert(r@ =~= Seq::new((h * w * 3) as nat, want));
            }
        }
        r
    }

    fn scales<S: Scalar>(&self, raw: &[S], depth: &[S], multiplier: D) -> (r: Vec<S>) where
        D: Widens<S>,

        requires
            raw.len() == depth.len() * 37,
        ensures
            r@ == Seq::new(
                (depth.len() * 3) as nat,
                |p: int|
                    scale_at::<S, D>(
                        raw@,
                        depth@,
                        multiplier,
                        self.pred_offset_depth,
                        self.scale_min,
                        self.scale_max,
                        p / 3,
                        p % 3,
                    ),
            ),
    {
        let ghost want = |p: int|
            scale_at::<S, D>(
                raw@,
                depth@,
                multiplier,
                self.pred_offset_depth,
                self.scale_min,
                self.scale_max,
                p / 3,
                p % 3,
            );
        let unit: D = D::ratio(1, 1);
        let mut r: Vec<S> = Vec::new();
        let mut p: usize = 0;
        while p < depth.len() * 3
            invariant
                p <= depth.len() * 3,
                raw.len() == depth.len() * 37,
                unit == one::<D>(),
                want == (|p: int|
                    scale_at::<S, D>(
                        raw@,
                        depth@,
                        multiplier,
                        self.pred_offset_depth,
                        self.scale_min,
                        self.scale_max,
                        p / 3,
                        p % 3,
                    )),
                r.len() == p,
                forall|j: int| 0 <= j < p ==> #[trigger] r[j] == want(j),
            decreases depth.len() * 3 - p,
        {
            let pix: usize = p / 3;
            let c: usize = p % 3;
            let sg: D = unit.over(
                unit.plus(D::widened(raw[pix * 37 + 2 + c]).negated().exponential()),
            );
            let sc: D = self.scale_min.plus(self.scale_max.minus(self.scale_min).times(sg));
            let far: D = depth_of(raw, depth, self.pred_offset_depth, pix);
            r.push(sc.times(far).times(multiplier).narrowed());
            assert(r[p as int] == want(p as int));
            p = p + 1;
        }
        assert(r@ =~= Seq::new((depth.len() * 3) as nat, want));
        r
    }

    fn harmonics<S: Scalar>(&self, raw: &[S], sh: &SharedValues<D>, n: usize) -> (r: Vec<
        S,
    >) where D: Widens<S>
        requires
            self.wf(),
            raw.len() == n * 37,
            sh.degree1.len() == 9,
            sh.degree2.len() == 25,
        ensures
            forall|s: Shared<D>| #[trigger] sh.is(s) ==> r@ == Seq::new(
                (n * 3 * self.d_sh) as nat,
                |p: int|
                    harmonic_at::<S, D>(
                        raw@,
                        s,
                        self.d_sh as int,
                        p / self.d_sh as int,
                        p % self.d_sh as int,
                    ),
            ),
    {
        let ghost s = Shared {
            rotation: sh.rotation@,
            translation: sh.translation@,
            unproject: sh.unproject@,
            multiplier: sh.multiplier,
            degree1: sh.degree1@,
            degree2: sh.degree2@,
            mask: sh.mask@,
        };
        let ds: usize = self.d_sh;
        let ghost want = |p: int|
            harmonic_at::<S, D>(raw@, s, ds as int, p / ds as int, p % ds as int);
        let mut r: Vec<S> = Vec::new();
        let mut row: usize = 0;
        while row < n * 3
            invariant
                row <= n * 3,
                ds <= 9,
                raw.len() == n * 37,
                sh.degree1.len() == 9,
                sh.degree2.len() == 25,
                s.mask == sh.mask@,
                s.degree1 == sh.degree1@,
                s.degree2 == sh.degree2@,
                want == (|p: int|
                    harmonic_at::<S, D>(raw@, s, ds as int, p / ds as int, p % ds as int)),
                r.len() == row * ds,
                forall|p: int| 0 <= p < row * ds ==> #[trigger] r[p] == want(p),
            decreases n * 3 - row,
        {
            let pix: usize = row / 3;
            let colour: usize = row % 3;
            assert(0 <= colour * ds <= 18 && colour * ds + ds <= 27) by (nonlinear_arith)
                requires
                    ds <= 9,
                    0 <= colour <= 2,
            ;
            let base: usize = pix * 37 + 9 + colour * ds;
            let mut c: Vec<D> = Vec::new();
            let mut k: usize = 0;
            while k < 9
                invariant
                    k <= 9,
                    ds <= 9,
                    row < n * 3,
                    raw.len() == n * 37,
                    s.mask == sh.mask@,
                    base == row as int / 3 * 37 + 9 + row as int % 3 * ds as int,
                    base + ds <= row as int / 3 * 37 + 36,
                    c.len() == k,
                    forall|j: int|
                        0 <= j < k ==> #[trigger] c[j] == coefficient::<S, D>(
                            raw@,
                            s.mask,
                            ds as int,
                            row as int,
                            j,
                        ),
                decreases 9 - k,
            {
                if k < ds {
                    c.push(D::widened(raw[base + k]).times(sh.mask[k]));
                } else {
                    c.push(D::ratio(0, 1));
                }
                k = k + 1;
            }
            let mut k: usize = 0;
            while k < ds
                invariant
                    k <= ds,
                    ds <= 9,
                    c.len() == 9,
                    sh.degree1.len() == 9,
                    sh.degree2.len() == 25,
                    s.degree1 == sh.degree1@,
                    s.degree2 == sh.degree2@,
                    forall|j: int|
                        0 <= j < 9 ==> #[trigger] c[j] == coefficient::<S, D>(
                            raw@,
                            s.mask,
                            ds as int,
                            row as int,
                            j,
                        ),
                    want == (|p: int|
                        harmonic_at::<S, D>(raw@, s, ds as int, p / ds as int, p % ds as int)),
                    r.len() == row * ds + k,
                    forall|p: int| 0 <= p < row * ds + k ==> #[trigger] r[p] == want(p),
                decreases ds - k,
            {
                let v: D = rotated_coefficient(&c, &sh.degree1, &sh.degree2, k);
                proof {
                    lemma_split(row as int, ds as int, k as int);
                    let cc = |j: int| coefficient::<S, D>(raw@, s.mask, ds as int, row as int, j);
                    if 0 < k < 4 {
                        crate::index::lemma_accumulate_agree(
                            zero(),
                            |j: int| s.degree1[(k - 1) * 3 + j].times_spec(c@[1 + j]),
                            |j: int| s.degree1[(k - 1) * 3 + j].times_spec(cc(1 + j)),
                            3,
                        );
                    } else if k >= 4 {
                        crate::index::lemma_accumulate_agree(
                            zero(),
                            |j: int| s.degree2[(k - 4) * 5 + j].times_spec(c@[4 + j]),
                            |j: int| s.degree2[(k - 4) * 5 + j].times_spec(cc(4 + j)),
                            5,
                        );
                    }
                }
                r.push(v.narrowed());
                assert(r[row * ds + k] == want(row * ds + k));
                k = k + 1;
            }
            assert((row + 1) * ds == row * ds + ds) by (nonlinear_arith);
            row = row + 1;
        }
        proof {
            assert forall|s2: Shared<D>| #[trigger] sh.is(s2) implies r@ == Seq::new(
                (n * 3 * self.d_sh) as nat,
                |p: int|
                    harmonic_at::<S, D>(
                        raw@,
                        s2,
                        self.d_sh as int,
                        p / self.d_sh as int,
                        p % self.d_sh as int,
                    ),
            ) by {
                assert(s2 == s);
                assert(r@ =~= Seq::new((n * 3 * self.d_sh) as nat, want));
            }
        }
        r
    }
}

fn rotated_coefficient<D: Scalar>(c: &Vec<D>, d1: &Vec<D>, d2: &Vec<D>, k: usize) -> (r: D)
    requires
        k < 9,
        c.len() == 9,
        d1.len() == 9,
        d2.len() == 25,
    ensures
        k == 0 ==> r == c[0],
        0 < k < 4 ==> r == accumulate(
            zero(),
            |j: int| d1@[(k - 1) * 3 + j].times_spec(c@[1 + j]),
            3,
        ),
        4 <= k ==> r == accumulate(
            zero(),
            |j: int| d2@[(k - 4) * 5 + j].times_spec(c@[4 + j]),
            5,
        ),
{
    if k == 0 {
        return c[0];
    }
    let mut s: D = D::ratio(0, 1);
    let mut j: usize = 0;
    if k < 4 {
        let ghost t = |j: int| d1@[(k - 1) * 3 + j].times_spec(c@[1 + j]);
        while j < 3
            invariant
                0 < k < 4,
                j <= 3,
                c.len() == 9,
                d1.len() == 9,
                t == (|j: int| d1@[(k - 1) * 3 + j].times_spec(c@[1 + j])),
                s == accumulate(zero(), t, j as nat),
            decreases 3 - j,
        {
            assert(t(j as int) == d1@[(k - 1) * 3 + j].times_spec(c@[1 + j]));
            s = s.plus(d1[(k - 1) * 3 + j].times(c[1 + j]));
            j = j + 1;
        }
    } else {
        let ghost t = |j: int| d2@[(k - 4) * 5 + j].times_spec(c@[4 + j]);
        while j < 5
            invariant
                4 <= k < 9,
                j <= 5,
                c.len() == 9,
                d2.len() == 25,
                t == (|j: int| d2@[(k - 4) * 5 + j].times_spec(c@[4 + j])),
                s == accumulate(zero(), t, j as nat),
            decreases 5 - j,
        {
            assert(t(j as int) == d2@[(k - 4) * 5 + j].times_spec(c@[4 + j]));
            s = s.plus(d2[(k - 4) * 5 + j].times(c[4 + j]));
            j = j + 1;
        }
    }
    s
}

fn rotations<S: Scalar, D: Widens<S> + Analytic>(
    raw: &[S],
    sh: &SharedValues<D>,
    n: usize,
) -> (r: Vec<S>)
    requires
        raw.len() == n * 37,
    ensures
        r@ == Seq::new(
            (n * 4) as nat,
            |p: int|
                world_quat(
                    unit_quat::<S, D>(raw@, p / 4),
                    sh.rotation@,
                )[p % 4].narrowed_spec(),
        ),
{
    let ghost want = |p: int|
        world_quat(unit_quat::<S, D>(raw@, p / 4), sh.rotation@)[p % 4].narrowed_spec();
    let mut r: Vec<S> = Vec::new();
    let mut pix: usize = 0;
    while pix < n
        invariant
            pix <= n,
            raw.len() == n * 37,
            want == (|p: int|
                world_quat(
                    unit_quat::<S, D>(raw@, p / 4),
                    sh.rotation@,
                )[p % 4].narrowed_spec()),
            r.len() == pix * 4,
            forall|p: int| 0 <= p < pix * 4 ==> #[trigger] r[p] == want(p),
        decreases n - pix,
    {
        let a: D = D::widened(raw[pix * 37 + 5]);
        let b: D = D::widened(raw[pix * 37 + 6]);
        let c: D = D::widened(raw[pix * 37 + 7]);
        let d: D = D::widened(raw[pix * 37 + 8]);
        let size: D = a.times(a).plus(b.times(b)).plus(c.times(c)).plus(
            d.times(d),
        ).root().plus(D::from_double_bits(0x3e45_798e_e230_8c3a));
        let q: [D; 4] = [a.over(size), b.over(size), c.over(size), d.over(size)];
        assert(q@ =~= unit_quat::<S, D>(raw@, pix as int));
        let t: [D; 4] = cam_quat_to_world_wxyz(&q, &sh.rotation);
        r.push(t[0].narrowed());
        r.push(t[1].narrowed());
        r.push(t[2].narrowed());
        r.push(t[3].narrowed());
        proof {
            assert(r[pix * 4] == want(pix * 4));
            assert(r[pix * 4 + 1] == want(pix * 4 + 1));
            assert(r[pix * 4 + 2] == want(pix * 4 + 2));
            assert(r[pix * 4 + 3] == want(pix * 4 + 3));
        }
        pix = pix + 1;
    }
    assert(r@ =~= Seq::new((n * 4) as nat, want));
    r
}

fn opacities<S: Scalar, D: Widens<S>>(conf: &[S]) -> (r: Vec<S>)
    ensures
        r@ == Seq::new(conf@.len(), |p: int| opacity_of::<S, D>(conf@[p])),
{
    let unit: D = D::ratio(1, 1);
    let half: D = D::ratio(1, 2);
    let mut r: Vec<S> = Vec::new();
    let mut p: usize = 0;
    while p < conf.len()
        invariant
            p <= conf.len(),
            unit == one::<D>(),
            half == D::ratio_spec(1, 2),
            r.len() == p,
            forall|j: int| 0 <= j < p ==> #[trigger] r[j] == opacity_of::<S, D>(conf@[j]),
        decreases conf.len() - p,
    {
        let c: D = D::widened(conf[p]);
        r.push(half.times(unit.minus(unit.minus(c)).plus(c)).narrowed());
        p = p + 1;
    }
    assert(r@ =~= Seq::new(conf@.len(), |p: int| opacity_of::<S, D>(conf@[p])));
    r
}

/// In fixed point a Gaussian is as opaque as its confidence says.
pub proof fn law_opacity_is_confidence(conf: Fixed)
    requires
        -0x4000_0000_0000_0000 <= conf.0 < 0x4000_0000_0000_0000,
    ensures
        opacity_of::<Fixed, Fixed>(conf) == conf,
{
    assert(65536u64 / 1u64 == 65536);
    let u = one::<Fixed>();
    assert(u == Fixed(65536));
    lemma_plus(u, conf);
    let rest = u.minus_spec(conf);
    assert(rest.0 == 65536 - conf.0);
    lemma_plus(u, rest);
    assert(u.minus_spec(rest) == conf);
    lemma_plus(conf, conf);
    lemma_half(conf.plus_spec(conf));
}

/// The channels that an adapter leaves unread: the offsets that it does not take.
pub open spec fn unread<D>(a: GsAdapter<D>, channel: int) -> bool {
    ||| channel == 36 && !a.pred_offset_depth
    ||| (channel == 0 || channel == 1) && !a.pred_offset_xy
}

/// Offsets that are switched off do not matter, whatever the network gives for
/// them.
pub proof fn law_offsets_switched_off<S: Scalar, D: Circular + Widens<S>>(
    a: GsAdapter<D>,
    raw: Seq<S>,
    other: Seq<S>,
    depth: Seq<S>,
    conf: Seq<S>,
    ext: Seq<S>,
    intr: Seq<S>,
    h: int,
    w: int,
)
    requires
        a.wf(),
        0 <= h,
        0 <= w,
        raw.len() == h * w * 37,
        other.len() == raw.len(),
        forall|i: int|
            0 <= i < raw.len() && !unread(a, i % 37) ==> #[trigger] raw[i] == other[i],
    ensures
        built_of::<S, D>(a, raw, depth, conf, ext, intr, h, w) == built_of::<S, D>(
            a,
            other,
            depth,
            conf,
            ext,
            intr,
            h,
            w,
        ),
{
    let n = h * w;
    let x = built_of::<S, D>(a, raw, depth, conf, ext, intr, h, w);
    let y = built_of::<S, D>(a, other, depth, conf, ext, intr, h, w);
    let d = a.d_sh as int;
    assert forall|pix: int, c: int|
        0 <= pix < n && 0 <= c < 37 && !unread(a, c) implies #[trigger] raw[pix * 37 + c]
        == other[pix * 37 + c] by {
        lemma_split(pix, 37, c);
        lemma_within(pix, n, c, 37);
    }
    assert forall|p: int| 0 <= p < n * 3 implies #[trigger] x.means[p] == y.means[p]
        && x.scales[p] == y.scales[p] by {
        let (pix, c) = (p / 3, p % 3);
        lemma_row_within(p, n, 3);
        assert(pix * 37 + 0 == pix * 37);
        assert(a.pred_offset_xy ==> raw[pix * 37 + 0] == other[pix * 37 + 0] && raw[pix * 37 + 1]
            == other[pix * 37 + 1]);
        assert(a.pred_offset_depth ==> raw[pix * 37 + 36] == other[pix * 37 + 36]);
        assert(raw[pix * 37 + (2 + c)] == other[pix * 37 + (2 + c)]);
        assert(pix * 37 + (2 + c) == pix * 37 + 2 + c);
    }
    assert(x.means =~= y.means);
    assert(x.scales =~= y.scales);
    assert forall|p: int| 0 <= p < n * 4 implies #[trigger] x.rotations[p] == y.rotations[p] by {
        let pix = p / 4;
        lemma_row_within(p, n, 4);
        let (q, r) = (
            Seq::new(4, |i: int| D::widened_spec(raw[pix * 37 + 5 + i])),
            Seq::new(4, |i: int| D::widened_spec(other[pix * 37 + 5 + i])),
        );
        assert forall|i: int| 0 <= i < 4 implies q[i] == r[i] by {
            assert(raw[pix * 37 + (5 + i)] == other[pix * 37 + (5 + i)]);
            assert(pix * 37 + (5 + i) == pix * 37 + 5 + i);
        }
        assert(q =~= r);
        assert(unit_quat::<S, D>(raw, pix) =~= unit_quat::<S, D>(other, pix));
    }
    assert(x.rotations =~= y.rotations);
    let sh = shared_of::<S, D>(ext, intr, h, w, a.sh_degree as int);
    assert forall|row: int, k: int| 0 <= row < n * 3 implies #[trigger] coefficient::<S, D>(
        raw,
        sh.mask,
        d,
        row,
        k,
    ) == coefficient::<S, D>(other, sh.mask, d, row, k) || k < 0 by {
        if 0 <= k < d {
            let (pix, t) = (row / 3, row % 3);
            lemma_row_within(row, n, 3);
            lemma_within(t, 3, k, d);
            let c = 9 + (t * d + k);
            assert(raw[pix * 37 + c] == other[pix * 37 + c]);
            assert(pix * 37 + c == pix * 37 + 9 + t * d + k);
        }
    }
    assert forall|p: int| 0 <= p < n * 3 * d implies #[trigger] x.harmonics[p] == y.harmonics[p] by {
        lemma_row_within(p, n * 3, d);
        let (row, k) = (p / d, p % d);
        let f = |j: int| coefficient::<S, D>(raw, sh.mask, d, row, j);
        let g = |j: int| coefficient::<S, D>(other, sh.mask, d, row, j);
        assert forall|j: int| 0 <= j implies #[trigger] f(j) == g(j) by {
            assert(coefficient::<S, D>(raw, sh.mask, d, row, j) == coefficient::<S, D>(
                other,
                sh.mask,
                d,
                row,
                j,
            ));
        }
        lemma_accumulate_agree(
            zero(),
            |j: int| sh.degree1[(k - 1) * 3 + j].times_spec(f(1 + j)),
            |j: int| sh.degree1[(k - 1) * 3 + j].times_spec(g(1 + j)),
            3,
        );
        lemma_accumulate_agree(
            zero(),
            |j: int| sh.degree2[(k - 4) * 5 + j].times_spec(f(4 + j)),
            |j: int| sh.degree2[(k - 4) * 5 + j].times_spec(g(4 + j)),
            5,
        );
        assert(f(0) == g(0));
    }
    assert(x.harmonics =~= y.harmonics);
    assert(x.opacities =~= y.opacities);
}

/// There is one Gaussian for each pixel, with a place, three scales, a quaternion,
/// an opacity and the coefficients of three colours.
pub proof fn law_one_for_each_pixel<S: Scalar, D: Circular + Widens<S>>(
    a: GsAdapter<D>,
    raw: Seq<S>,
    depth: Seq<S>,
    conf: Seq<S>,
    ext: Seq<S>,
    intr: Seq<S>,
    h: nat,
    w: nat,
)
    ensures
        ({
            let g = built_of::<S, D>(a, raw, depth, conf, ext, intr, h as int, w as int);
            &&& g.n == h * w
            &&& g.means.len() == 3 * g.n
            &&& g.scales.len() == 3 * g.n
            &&& g.rotations.len() == 4 * g.n
            &&& g.opacities.len() == g.n
            &&& g.harmonics.len() == g.n * 3 * a.d_sh
        }),
{
    assert(0 <= h * w) by (nonlinear_arith);
    assert(0 <= h * w * 3 * a.d_sh) by (nonlinear_arith)
        requires
            0 <= h * w,
    ;
}

} // verus!
