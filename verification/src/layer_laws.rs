//! What the layers of the networks compute, where arithmetic is exact.

use crate::activation_laws::exponentials;
use crate::cam_pose::{pose_of, relu_all, CamPoseData};
use crate::dpt_laws::{lemma_same, told_apart};
use crate::fast_attn::{attention_forward, rope_row, score_scale};
use crate::fast_block::{
    block_forward, ffn_forward, gated, gelu_all, residual_of, scale_of, silu_of, FastFfn,
    FastVitBlock,
};
use crate::flash_attn::Core;
use crate::index::{accumulate, lemma_accumulate_agree, lemma_split, lemma_within};
use crate::linalg_laws::lemma_four_factors;
use crate::norm::{
    deviation_term, element_term, layernorm_row, layernorm_row_shifted, layernorm_rows_of,
    normalized, row_mean, row_of, row_shifted_variance, row_sum, row_variance, square_term,
};
use crate::reals::{
    faithful, faithful_roots, lemma_accumulate, lemma_prod, lemma_prod_cancel, lemma_prod_plus,
    lemma_prod_regroup, lemma_prod_sign, lemma_prod_square, lemma_sum_agree, lemma_whole, prod, sum,
};
use crate::scalar::{Analytic, Scalar};
use crate::tinyblas::{gemm_term, linear_of, packed};
use crate::weights::LinearData;
use vstd::prelude::*;

verus! {

/// Output `o` of a layer with weights `w`, biases `b` and `k` inputs `x`.
pub open spec fn answer(
    w: spec_fn(int, int) -> real,
    b: spec_fn(int) -> real,
    x: spec_fn(int) -> real,
    k: nat,
    o: int,
) -> real {
    b(o) + sum(|i: int| prod(w(o, i), x(i)), k)
}

/// Zero where a number is negative.
pub open spec fn cut_off(x: real) -> real {
    if x < 0 as real {
        0 as real
    } else {
        x
    }
}

/// A layer over weights that stand by input and then by output.
pub proof fn lemma_linear<T: Scalar>(
    v: spec_fn(T) -> real,
    x: Seq<T>,
    w: Seq<T>,
    b: Seq<T>,
    n: int,
    k: int,
    m: int,
    r: int,
    o: int,
)
    requires
        faithful(v),
        0 <= k,
        0 <= r < n,
        0 <= o < m,
    ensures
        0 <= r * m + o < n * m,
        v(linear_of(x, w, b, n, k, m)[r * m + o]) == answer(
            |p: int, i: int| v(w[i * m + p]),
            |p: int| v(b[p]),
            |i: int| v(x[r * k + i]),
            k as nat,
            o,
        ),
{
    lemma_within(r, n, o, m);
    lemma_split(r, m, o);
    let f = gemm_term(x, w, m, k, r, o);
    lemma_accumulate(v, b[o], f, k as nat);
    let g = |i: int| v(f(i));
    let h = |i: int|
        prod((|p: int, i: int| v(w[i * m + p]))(o, i), (|i: int| v(x[r * k + i]))(i));
    assert forall|i: int| 0 <= i < k implies #[trigger] g(i) == h(i) by {
        lemma_prod(v(w[i * m + o]), v(x[r * k + i]));
    }
    lemma_sum_agree(g, h, k as nat);
}

/// A layer that was packed from weights by output and then by input gives, for every
/// row and every output, the bias and the sum of weights times inputs.
pub proof fn law_linear<T: Scalar>(
    v: spec_fn(T) -> real,
    x: Seq<T>,
    w: Seq<T>,
    b: Seq<T>,
    n: int,
    k: int,
    m: int,
    r: int,
    o: int,
)
    requires
        faithful(v),
        0 <= k,
        0 <= r < n,
        0 <= o < m,
    ensures
        linear_of(x, packed(w, k, m), b, n, k, m).len() == n * m,
        v(linear_of(x, packed(w, k, m), b, n, k, m)[r * m + o]) == answer(
            |p: int, i: int| v(w[p * k + i]),
            |p: int| v(b[p]),
            |i: int| v(x[r * k + i]),
            k as nat,
            o,
        ),
{
    let pw = packed(w, k, m);
    lemma_linear(v, x, pw, b, n, k, m, r, o);
    let g = |i: int|
        prod((|p: int, i: int| v(pw[i * m + p]))(o, i), (|i: int| v(x[r * k + i]))(i));
    let h = |i: int|
        prod((|p: int, i: int| v(w[p * k + i]))(o, i), (|i: int| v(x[r * k + i]))(i));
    assert forall|i: int| 0 <= i < k implies #[trigger] g(i) == h(i) by {
        lemma_within(i, k, o, m);
        lemma_split(i, m, o);
    }
    lemma_sum_agree(g, h, k as nat);
}

/// The mean of a row, read as a real.
proof fn lemma_mean<T: Analytic>(v: spec_fn(T) -> real, row: Seq<T>, mean: real)
    requires
        faithful(v),
        0 < row.len() <= usize::MAX,
        prod(mean, row.len() as real) == sum(|i: int| v(row[i]), row.len()),
    ensures
        v(row_mean(row)) == mean,
{
    lemma_whole::<T>(v, 0);
    let f = element_term(row);
    lemma_accumulate(v, T::ratio_spec(0, 1), f, row.len());
    lemma_sum_agree(|i: int| v(f(i)), |i: int| v(row[i]), row.len());
    let n = row.len() as real;
    let m = row_mean(row);
    assert(prod(v(m), n) == v(row_sum(row)));
    lemma_prod(n, v(m));
    lemma_prod(n, mean);
    lemma_prod_cancel(n, v(m), mean);
}

/// The squares of a row about a number.
proof fn lemma_squares_about(f: spec_fn(int) -> real, c: real, n: nat)
    ensures
        sum(|i: int| prod(f(i) - c, f(i) - c), n) == sum(|i: int| prod(f(i), f(i)), n) - prod(
            c,
            sum(f, n),
        ) - prod(c, sum(f, n)) + prod(n as real, prod(c, c)),
    decreases n,
{
    let g = |i: int| prod(f(i) - c, f(i) - c);
    let h = |i: int| prod(f(i), f(i));
    if n == 0 {
        lemma_prod(c, 0 as real);
        lemma_prod(prod(c, c), 0 as real);
        lemma_prod(0 as real, prod(c, c));
    } else {
        let m = (n - 1) as nat;
        lemma_squares_about(f, c, m);
        let x = f(n - 1);
        lemma_prod_plus(c, sum(f, m), x);
        lemma_prod_plus(x - c, x, c);
        lemma_prod_plus(x, x, c);
        lemma_prod_plus(c, x, c);
        lemma_prod(x, c);
        assert(g(n - 1) == prod(x, x) - prod(c, x) - prod(c, x) + prod(c, c));
        lemma_prod_plus(prod(c, c), m as real, 1 as real);
        lemma_prod(prod(c, c), 1 as real);
        lemma_prod(1 as real, prod(c, c));
        assert(n as real == m as real + 1 as real);
        assert(sum(g, n) == sum(g, m) + g(n - 1));
        assert(sum(h, n) == sum(h, m) + h(n - 1));
    }
}

/// Normalising a row takes off its mean and divides by its deviation: with the mean
/// and the variance of the row's numbers and a root of the variance and the epsilon,
/// each result less its bias is that root's share of the weighted distance from the
/// mean. Both ways of computing the variance do it.
pub proof fn law_layernorm<T: Analytic>(
    v: spec_fn(T) -> real,
    row: Seq<T>,
    w: Seq<T>,
    b: Seq<T>,
    eps: T,
    mean: real,
    variance: real,
    root: real,
    i: int,
)
    requires
        faithful_roots(v),
        0 < row.len() <= usize::MAX,
        0 <= i < row.len(),
        prod(mean, row.len() as real) == sum(|j: int| v(row[j]), row.len()),
        prod(variance, row.len() as real) == sum(
            |j: int| prod(v(row[j]) - mean, v(row[j]) - mean),
            row.len(),
        ),
        root > 0 as real,
        prod(root, root) == variance + v(eps),
    ensures
        prod(v(layernorm_row(row, w, b, eps)[i]) - v(b[i]), root) == prod(
            v(row[i]) - mean,
            v(w[i]),
        ),
        prod(v(layernorm_row_shifted(row, w, b, eps)[i]) - v(b[i]), root) == prod(
            v(row[i]) - mean,
            v(w[i]),
        ),
{
    let n = row.len() as real;
    let z = T::ratio_spec(0, 1);
    lemma_whole::<T>(v, 0);
    lemma_whole::<T>(v, 1);
    lemma_mean(v, row, mean);
    let m = row_mean(row);
    let f = deviation_term(row, m);
    lemma_accumulate(v, z, f, row.len());
    lemma_sum_agree(
        |j: int| v(f(j)),
        |j: int| prod(v(row[j]) - mean, v(row[j]) - mean),
        row.len(),
    );
    let s = row_variance(row);
    lemma_prod(n, v(s));
    lemma_prod(n, variance);
    lemma_prod_cancel(n, v(s), variance);
    // The single pass.
    let g = square_term(row);
    lemma_accumulate(v, z, g, row.len());
    let e = |j: int| v(row[j]);
    lemma_squares_about(e, mean, row.len());
    lemma_sum_agree(|j: int| v(g(j)), |j: int| prod(e(j), e(j)), row.len());
    lemma_sum_agree(
        |j: int| prod(e(j) - mean, e(j) - mean),
        |j: int| prod(v(row[j]) - mean, v(row[j]) - mean),
        row.len(),
    );
    let q = accumulate(z, g, row.len()).over_spec(T::from_count_spec(row.len() as usize));
    let t = row_shifted_variance(row);
    assert(v(t) == v(q) - prod(mean, mean));
    assert(prod(v(q), n) == sum(|j: int| prod(e(j), e(j)), row.len()));
    lemma_prod_plus(n, v(q), prod(mean, mean));
    lemma_prod(mean, n);
    lemma_prod_regroup(mean, mean, n);
    lemma_prod(n, prod(mean, mean));
    lemma_prod(n, v(t));
    assert(prod(v(t), n) == prod(variance, n));
    lemma_prod_cancel(n, v(t), variance);
    lemma_normalized(v, row[i], m, s, eps, w[i], b[i], root);
    lemma_normalized(v, row[i], m, t, eps, w[i], b[i], root);
}

/// There is one positive root.
pub proof fn lemma_one_root(a: real, b: real)
    requires
        a > 0 as real,
        b >= 0 as real,
        prod(a, a) == prod(b, b),
    ensures
        a == b,
{
    lemma_prod_plus(a + b, a, b);
    lemma_prod_plus(a, a, b);
    lemma_prod_plus(b, a, b);
    lemma_prod(a, b);
    lemma_prod(a + b, 0 as real);
    assert(prod(a + b, a - b) == 0 as real);
    lemma_prod_cancel(a + b, a - b, 0 as real);
}

proof fn lemma_normalized<T: Analytic>(
    v: spec_fn(T) -> real,
    x: T,
    mean: T,
    variance: T,
    eps: T,
    w: T,
    b: T,
    root: real,
)
    requires
        faithful_roots(v),
        root > 0 as real,
        prod(root, root) == v(variance) + v(eps),
    ensures
        prod(v(normalized(x, mean, variance, eps, w, b)) - v(b), root) == prod(
            v(x) - v(mean),
            v(w),
        ),
{
    lemma_whole::<T>(v, 1);
    lemma_prod_square(root);
    let s = variance.plus_spec(eps).root_spec();
    lemma_one_root(root, v(s));
    let inv = T::ratio_spec(1, 1).over_spec(s);
    assert(prod(v(inv), root) == 1 as real);
    let d = v(x) - v(mean);
    lemma_prod_regroup(d, v(inv), v(w));
    lemma_prod_regroup(root, prod(d, v(inv)), v(w));
    lemma_prod_regroup(root, d, v(inv));
    lemma_prod(root, v(inv));
    lemma_prod(d, 1 as real);
    lemma_prod(root, prod(d, v(inv)));
    lemma_prod(root, prod(prod(d, v(inv)), v(w)));
}

/// Gating: the first half of a row decides how much of the second half passes. With
/// gate `g` and value `x`, the result times `1 + exp(-g)` is `g * x`.
pub proof fn law_gate<T: Analytic>(
    v: spec_fn(T) -> real,
    ex: spec_fn(real) -> real,
    x12: Seq<T>,
    n: int,
    hidden: int,
    r: int,
    j: int,
)
    requires
        exponentials(v, ex),
        0 <= r < n,
        0 <= j < hidden,
    ensures
        gated(x12, n, hidden).len() == n * hidden,
        prod(
            v(gated(x12, n, hidden)[r * hidden + j]),
            1 as real + ex(-v(x12[r * (2 * hidden) + j])),
        ) == prod(v(x12[r * (2 * hidden) + j]), v(x12[r * (2 * hidden) + hidden + j])),
{
    lemma_whole::<T>(v, 1);
    lemma_within(r, n, j, hidden);
    lemma_split(r, hidden, j);
    let g = x12[r * (2 * hidden) + j];
    let x = x12[r * (2 * hidden) + hidden + j];
    assert(r * (2 * hidden) + j + hidden == r * (2 * hidden) + hidden + j);
    let e = 1 as real + ex(-v(g));
    assert(prod(v(silu_of(g)), e) == v(g));
    lemma_prod_regroup(e, v(silu_of(g)), v(x));
    lemma_prod(e, v(silu_of(g)));
    lemma_prod(e, prod(v(silu_of(g)), v(x)));
}

/// A layer as a function of its inputs.
pub open spec fn layer<T>(v: spec_fn(T) -> real, l: LinearData<T>, x: spec_fn(int) -> real) -> spec_fn(
    int,
) -> real {
    |o: int|
        answer(
            |p: int, i: int| v(l.w[i * l.outs + p]),
            |p: int| v(l.b[p]),
            x,
            l.ins as nat,
            o,
        )
}

/// A layer whose outputs are cut off at zero.
pub open spec fn cut_layer<T>(
    v: spec_fn(T) -> real,
    l: LinearData<T>,
    x: spec_fn(int) -> real,
) -> spec_fn(int) -> real {
    |o: int| cut_off(layer(v, l, x)(o))
}

/// The inputs of a layer that agree have the same outputs.
proof fn lemma_layer<T: Scalar>(
    v: spec_fn(T) -> real,
    l: LinearData<T>,
    x: Seq<T>,
    f: spec_fn(int) -> real,
    o: int,
)
    requires
        faithful(v),
        0 <= l.ins,
        0 <= o < l.outs,
        forall|i: int| 0 <= i < l.ins ==> v(#[trigger] x[i]) == f(i),
    ensures
        linear_of(x, l.w, l.b, 1, l.ins, l.outs).len() == l.outs,
        v(linear_of(x, l.w, l.b, 1, l.ins, l.outs)[o]) == layer(v, l, f)(o),
{
    lemma_linear(v, x, l.w, l.b, 1, l.ins, l.outs, 0, o);
    assert(0 * l.outs + o == o) by (nonlinear_arith);
    assert(1 * l.outs == l.outs) by (nonlinear_arith);
    let g = |i: int|
        prod(
            (|p: int, i: int| v(l.w[i * l.outs + p]))(o, i),
            (|i: int| v(x[0 * l.ins + i]))(i),
        );
    let h = |i: int| prod((|p: int, i: int| v(l.w[i * l.outs + p]))(o, i), f(i));
    assert forall|i: int| 0 <= i < l.ins implies #[trigger] g(i) == h(i) by {
        assert(0 * l.ins + i == i) by (nonlinear_arith);
        assert(v(x[i]) == f(i));
    }
    lemma_sum_agree(g, h, l.ins as nat);
}

/// A pose is read off a camera token by two layers that are cut off at zero and three
/// that stand beside each other: three numbers for the place, four for the turn, and
/// two for the angles of view, which are cut off at zero too.
pub proof fn law_pose_network<T: Scalar>(
    v: spec_fn(T) -> real,
    p: CamPoseData<T>,
    token: Seq<T>,
    j: int,
)
    requires
        faithful(v),
        0 <= p.bb0.ins == token.len(),
        p.bb0.outs == p.hidden && p.bb2.ins == p.hidden && p.bb2.outs == p.hidden,
        p.fc_t.ins == p.hidden && p.fc_t.outs == 3,
        p.fc_q.ins == p.hidden && p.fc_q.outs == 4,
        p.fc_fov.ins == p.hidden && p.fc_fov.outs == 2,
        0 <= p.hidden,
        0 <= j < 9,
    ensures
        pose_of(p, token).len() == 9,
        ({
            let deep = cut_layer(v, p.bb2, cut_layer(v, p.bb0, |i: int| v(token[i])));
            v(pose_of(p, token)[j]) == (if j < 3 {
                layer(v, p.fc_t, deep)(j)
            } else if j < 7 {
                layer(v, p.fc_q, deep)(j - 3)
            } else {
                cut_off(layer(v, p.fc_fov, deep)(j - 7))
            })
        }),
{
    lemma_whole::<T>(v, 0);
    let f0 = |i: int| v(token[i]);
    let f1 = cut_layer(v, p.bb0, f0);
    let f2 = cut_layer(v, p.bb2, f1);
    let a = linear_of(token, p.bb0.w, p.bb0.b, 1, p.bb0.ins, p.bb0.outs);
    let h = relu_all(a);
    assert(1 * p.hidden == p.hidden) by (nonlinear_arith);
    assert forall|i: int| 0 <= i < p.hidden implies v(#[trigger] h[i]) == f1(i) by {
        lemma_layer(v, p.bb0, token, f0, i);
    }
    let c = linear_of(h, p.bb2.w, p.bb2.b, 1, p.bb2.ins, p.bb2.outs);
    let h2 = relu_all(c);
    assert forall|i: int| 0 <= i < p.hidden implies v(#[trigger] h2[i]) == f2(i) by {
        lemma_layer(v, p.bb2, h, f1, i);
    }
    lemma_layer(v, p.fc_t, h2, f2, 0);
    lemma_layer(v, p.fc_q, h2, f2, 0);
    lemma_layer(v, p.fc_fov, h2, f2, 0);
    if j < 3 {
        lemma_layer(v, p.fc_t, h2, f2, j);
    } else if j < 7 {
        lemma_layer(v, p.fc_q, h2, f2, j - 3);
    } else {
        lemma_layer(v, p.fc_fov, h2, f2, j - 7);
    }
}

/// A block adds to its input: where all scales of both branches are zero, it gives its
/// input back.
pub proof fn law_silent_block<T: Analytic>(
    v: spec_fn(T) -> real,
    b: FastVitBlock<T>,
    x: Seq<T>,
    n: int,
    rope: Option<(Seq<T>, Seq<T>)>,
    core: Core,
    p: int,
)
    requires
        faithful(v),
        b.wf(),
        1 <= b.embed,
        b.ls1 is Some,
        b.ls2 is Some,
        forall|i: int| 0 <= i < b.embed ==> v(#[trigger] b.ls1->0@[i]) == 0 as real,
        forall|i: int| 0 <= i < b.embed ==> v(#[trigger] b.ls2->0@[i]) == 0 as real,
        0 <= p < x.len(),
    ensures
        block_forward(b, x, n, rope, core).len() == x.len(),
        v(block_forward(b, x, n, rope, core)[p]) == v(x[p]),
{
    let embed = b.embed as int;
    let c = p % embed;
    assert(0 <= c < embed);
    let a = attention_forward(
        b.attn,
        layernorm_rows_of(x, n, embed, b.norm1_w@, b.norm1_b@, b.ln_eps, true),
        n,
        rope,
        core,
    );
    let mid = residual_of(x, scale_of(b.ls1), a, embed);
    assert(v(b.ls1->0@[c]) == 0 as real);
    assert(v(b.ls2->0@[c]) == 0 as real);
    lemma_prod(v(a[p]), 0 as real);
    lemma_prod(0 as real, v(a[p]));
    assert(v(mid[p]) == v(x[p]));
    let m = ffn_forward(
        b.ffn,
        layernorm_rows_of(mid, n, embed, b.norm2_w@, b.norm2_b@, b.ln_eps, true),
        n,
        embed,
    );
    lemma_prod(v(m[p]), 0 as real);
    lemma_prod(0 as real, v(m[p]));
}

/// Where the scales of a block's second branch are all zero, only its attention counts:
/// blocks that differ in the second branch give the same.
pub proof fn law_attention_alone<T: Analytic>(
    v: spec_fn(T) -> real,
    b: FastVitBlock<T>,
    c: FastVitBlock<T>,
    x: Seq<T>,
    n: int,
    rope: Option<(Seq<T>, Seq<T>)>,
    core: Core,
    p: int,
)
    requires
        faithful(v),
        b.wf(),
        c.wf(),
        1 <= b.embed,
        c.embed == b.embed,
        c.attn == b.attn,
        c.norm1_w@ == b.norm1_w@,
        c.norm1_b@ == b.norm1_b@,
        c.ln_eps == b.ln_eps,
        scale_of(c.ls1) == scale_of(b.ls1),
        b.ls2 is Some,
        c.ls2 is Some,
        forall|i: int| 0 <= i < b.embed ==> v(#[trigger] b.ls2->0@[i]) == 0 as real,
        forall|i: int| 0 <= i < b.embed ==> v(#[trigger] c.ls2->0@[i]) == 0 as real,
        0 <= p < x.len(),
    ensures
        v(block_forward(c, x, n, rope, core)[p]) == v(block_forward(b, x, n, rope, core)[p]),
{
    let embed = b.embed as int;
    let e = p % embed;
    assert(0 <= e < embed);
    let a = attention_forward(
        b.attn,
        layernorm_rows_of(x, n, embed, b.norm1_w@, b.norm1_b@, b.ln_eps, true),
        n,
        rope,
        core,
    );
    let mid = residual_of(x, scale_of(b.ls1), a, embed);
    assert(v(b.ls2->0@[e]) == 0 as real);
    assert(v(c.ls2->0@[e]) == 0 as real);
    let m = ffn_forward(
        b.ffn,
        layernorm_rows_of(mid, n, embed, b.norm2_w@, b.norm2_b@, b.ln_eps, true),
        n,
        embed,
    );
    let k = ffn_forward(
        c.ffn,
        layernorm_rows_of(mid, n, embed, c.norm2_w@, c.norm2_b@, c.ln_eps, true),
        n,
        embed,
    );
    lemma_prod(v(m[p]), 0 as real);
    lemma_prod(0 as real, v(m[p]));
    lemma_prod(v(k[p]), 0 as real);
    lemma_prod(0 as real, v(k[p]));
}

/// Where the scales of a block's first branch are all zero, only its feed-forward part
/// counts: blocks that differ in the first branch give the same, with whatever rotary
/// tables and whichever way attention is computed, and every token is worked on by
/// itself: inputs that agree on a token give that token alike.
pub proof fn law_feed_forward_alone<T: Analytic>(
    v: spec_fn(T) -> real,
    b: FastVitBlock<T>,
    c: FastVitBlock<T>,
    x: Seq<T>,
    y: Seq<T>,
    n: int,
    rope: Option<(Seq<T>, Seq<T>)>,
    rope2: Option<(Seq<T>, Seq<T>)>,
    core: Core,
    core2: Core,
    r: int,
    e: int,
)
    requires
        faithful(v),
        told_apart(v),
        b.wf(),
        c.wf(),
        c.embed == b.embed,
        c.ffn == b.ffn,
        c.norm2_w@ == b.norm2_w@,
        c.norm2_b@ == b.norm2_b@,
        c.ln_eps == b.ln_eps,
        scale_of(c.ls2) == scale_of(b.ls2),
        b.ls1 is Some,
        c.ls1 is Some,
        forall|i: int| 0 <= i < b.embed ==> v(#[trigger] b.ls1->0@[i]) == 0 as real,
        forall|i: int| 0 <= i < b.embed ==> v(#[trigger] c.ls1->0@[i]) == 0 as real,
        x.len() == n * b.embed,
        y.len() == n * b.embed,
        0 <= r < n,
        0 <= e < b.embed,
        row_of(y, b.embed as int, r) == row_of(x, b.embed as int, r),
    ensures
        block_forward(c, y, n, rope2, core2)[r * b.embed + e] == block_forward(
            b,
            x,
            n,
            rope,
            core,
        )[r * b.embed + e],
{
    let embed = b.embed as int;
    lemma_within(r, n, e, embed);
    lemma_split(r, embed, e);
    let a = attention_forward(
        b.attn,
        layernorm_rows_of(x, n, embed, b.norm1_w@, b.norm1_b@, b.ln_eps, true),
        n,
        rope,
        core,
    );
    let d = attention_forward(
        c.attn,
        layernorm_rows_of(y, n, embed, c.norm1_w@, c.norm1_b@, c.ln_eps, true),
        n,
        rope2,
        core2,
    );
    let xm = residual_of(x, scale_of(b.ls1), a, embed);
    let ym = residual_of(y, scale_of(c.ls1), d, embed);
    lemma_silent_branch(v, b.ls1->0@, x, a, embed);
    lemma_silent_branch(v, c.ls1->0@, y, d, embed);
    assert(xm =~= x);
    assert(ym =~= y);
    let p = r * embed + e;
    assert(x[p] == row_of(x, embed, r)[e]);
    assert(y[p] == row_of(y, embed, r)[e]);
    let xl = layernorm_rows_of(x, n, embed, b.norm2_w@, b.norm2_b@, b.ln_eps, true);
    let yl = layernorm_rows_of(y, n, embed, b.norm2_w@, b.norm2_b@, b.ln_eps, true);
    assert forall|j: int| 0 <= j < embed implies row_of(xl, embed, r)[j] == row_of(yl, embed, r)[j]
        by {
        lemma_within(r, n, j, embed);
        lemma_split(r, embed, j);
    }
    lemma_row_length(n, embed, r);
    assert(row_of(xl, embed, r) =~= row_of(yl, embed, r));
    lemma_rowwise(b.ffn, xl, yl, n, embed, r, e);
}

/// A branch without weight leaves its input.
proof fn lemma_silent_branch<T: Analytic>(
    v: spec_fn(T) -> real,
    ls: Seq<T>,
    x: Seq<T>,
    a: Seq<T>,
    embed: int,
)
    requires
        faithful(v),
        told_apart(v),
        0 < embed == ls.len(),
        forall|i: int| 0 <= i < embed ==> v(#[trigger] ls[i]) == 0 as real,
    ensures
        residual_of(x, Some(ls), a, embed) =~= x,
{
    let y = residual_of(x, Some(ls), a, embed);
    assert forall|p: int| 0 <= p < x.len() implies y[p] == x[p] by {
        let c = p % embed;
        assert(v(ls[c]) == 0 as real);
        lemma_prod(v(a[p]), 0 as real);
        lemma_prod(0 as real, v(a[p]));
        lemma_same(v, y[p], x[p]);
    }
}

/// A row lies within its matrix.
proof fn lemma_row_length(n: int, k: int, r: int)
    requires
        0 <= r < n,
        0 <= k,
    ensures
        0 <= r * k,
        r * k + k <= n * k,
{
    assert(0 <= r * k && r * k + k <= n * k) by (nonlinear_arith)
        requires
            0 <= r < n,
            0 <= k,
    ;
}

/// An area is not negative.
proof fn lemma_area(n: int, k: int)
    requires
        0 <= n,
        0 <= k,
    ensures
        0 <= n * k,
{
    assert(0 <= n * k) by (nonlinear_arith)
        requires
            0 <= n,
            0 <= k,
    ;
}

/// Rows that agree give outputs that agree.
proof fn lemma_linear_row<T: Scalar>(
    x: Seq<T>,
    y: Seq<T>,
    w: Seq<T>,
    b: Seq<T>,
    n: int,
    k: int,
    m: int,
    r: int,
    o: int,
)
    requires
        0 <= r < n,
        0 <= o < m,
        0 <= k,
        x.len() == n * k,
        y.len() == n * k,
        row_of(x, k, r) == row_of(y, k, r),
    ensures
        linear_of(x, w, b, n, k, m)[r * m + o] == linear_of(y, w, b, n, k, m)[r * m + o],
{
    lemma_within(r, n, o, m);
    lemma_split(r, m, o);
    let f = gemm_term(x, w, m, k, r, o);
    let g = gemm_term(y, w, m, k, r, o);
    assert forall|i: int| 0 <= i < k implies #[trigger] f(i) == g(i) by {
        lemma_within(r, n, i, k);
        assert(x[r * k + i] == row_of(x, k, r)[i]);
        assert(y[r * k + i] == row_of(y, k, r)[i]);
    }
    lemma_accumulate_agree(b[o], f, g, k as nat);
}

proof fn lemma_rowwise<T: Analytic>(
    f: FastFfn<T>,
    x: Seq<T>,
    y: Seq<T>,
    n: int,
    embed: int,
    r: int,
    e: int,
)
    requires
        0 <= r < n,
        0 <= e < embed,
        x.len() == n * embed,
        y.len() == n * embed,
        row_of(x, embed, r) == row_of(y, embed, r),
    ensures
        ffn_forward(f, x, n, embed)[r * embed + e] == ffn_forward(f, y, n, embed)[r * embed + e],
{
    match f {
        FastFfn::Mlp { fc1_w, fc1_b, fc2_w, fc2_b, hidden } => {
            let h = hidden as int;
            let a = gelu_all(linear_of(x, fc1_w@, fc1_b@, n, embed, h));
            let b = gelu_all(linear_of(y, fc1_w@, fc1_b@, n, embed, h));
            lemma_area(n, h);
            assert forall|j: int| 0 <= j < h implies row_of(a, h, r)[j] == row_of(b, h, r)[j] by {
                lemma_within(r, n, j, h);
                lemma_linear_row(x, y, fc1_w@, fc1_b@, n, embed, h, r, j);
            }
            lemma_row_length(n, h, r);
            assert(row_of(a, h, r) =~= row_of(b, h, r));
            lemma_linear_row(a, b, fc2_w@, fc2_b@, n, h, embed, r, e);
        },
        FastFfn::Swiglu { w12_w, w12_b, w3_w, w3_b, hidden } => {
            let h = hidden as int;
            let a = linear_of(x, w12_w@, w12_b@, n, embed, 2 * h);
            let b = linear_of(y, w12_w@, w12_b@, n, embed, 2 * h);
            let (ga, gb) = (gated(a, n, h), gated(b, n, h));
            lemma_area(n, h);
            assert forall|j: int| 0 <= j < h implies row_of(ga, h, r)[j] == row_of(gb, h, r)[j] by {
                lemma_within(r, n, j, h);
                lemma_split(r, h, j);
                lemma_linear_row(x, y, w12_w@, w12_b@, n, embed, 2 * h, r, j);
                lemma_linear_row(x, y, w12_w@, w12_b@, n, embed, 2 * h, r, h + j);
                assert(r * (2 * h) + j + h == r * (2 * h) + (h + j));
            }
            lemma_row_length(n, h, r);
            assert(row_of(ga, h, r) =~= row_of(gb, h, r));
            lemma_linear_row(ga, gb, w3_w@, w3_b@, n, h, embed, r, e);
        },
    }
}

/// Rotary embedding turns pairs: within each half of a head, number `i` of the first
/// quarter and number `i` of the second are the two coordinates of a point that is turned
/// by the angle of that pair; the first half by its own angles and the second half by
/// its own. The point keeps its distance from the origin.
pub proof fn law_rope_turns_pairs<T: Scalar>(
    v: spec_fn(T) -> real,
    src: Seq<T>,
    cos: Seq<T>,
    sin: Seq<T>,
    quarter: int,
    half: int,
    i: int,
    c: real,
    s: real,
)
    requires
        faithful(v),
        src.len() == 4 * quarter,
        0 <= half < 2,
        0 <= i < quarter,
        v(cos[2 * quarter * half + i]) == c,
        v(cos[2 * quarter * half + quarter + i]) == c,
        v(sin[2 * quarter * half + i]) == s,
        v(sin[2 * quarter * half + quarter + i]) == s,
    ensures
        rope_row(src, cos, sin).len() == src.len(),
        ({
            let at = 2 * quarter * half + i;
            let (x, y) = (v(src[at]), v(src[at + quarter]));
            let (a, b) = (
                v(rope_row(src, cos, sin)[at]),
                v(rope_row(src, cos, sin)[at + quarter]),
            );
            &&& a == prod(c, x) - prod(s, y)
            &&& b == prod(s, x) + prod(c, y)
            &&& prod(c, c) + prod(s, s) == 1 as real ==> prod(a, a) + prod(b, b) == prod(x, x)
                + prod(y, y)
        }),
{
    let at = 2 * quarter * half + i;
    let r = rope_row(src, cos, sin);
    if half == 0 {
        assert(2 * quarter * half == 0) by (nonlinear_arith)
            requires
                half == 0,
        ;
    } else {
        assert(2 * quarter * half == 2 * quarter) by (nonlinear_arith)
            requires
                half == 1,
        ;
    }
    lemma_split(half, 2 * quarter, i);
    lemma_split(half, 2 * quarter, quarter + i);
    assert(half * (2 * quarter) == 2 * quarter * half) by (nonlinear_arith);
    assert(src.len() as int / 2 == 2 * quarter && (2 * quarter) / 2 == quarter);
    assert(at % (2 * quarter) == i && (at + quarter) % (2 * quarter) == quarter + i);
    let (x, y) = (v(src[at]), v(src[at + quarter]));
    lemma_prod(c, x);
    lemma_prod(s, y);
    lemma_prod(c, y);
    lemma_prod(s, x);
    let (cx, sy, sx, cy) = (prod(c, x), prod(s, y), prod(s, x), prod(c, y));
    assert(v(r[at]) == cx - sy);
    assert(v(r[at + quarter]) == sx + cy);
    lemma_prod_plus(cx - sy, cx, sy);
    lemma_prod_plus(cx, cx, sy);
    lemma_prod_plus(sy, cx, sy);
    lemma_prod(cx, sy);
    lemma_prod_plus(sx + cy, sx, cy);
    lemma_prod_plus(sx, sx, cy);
    lemma_prod_plus(cy, sx, cy);
    lemma_prod(sx, cy);
    lemma_four_factors(c, x, c, x);
    lemma_four_factors(s, y, s, y);
    lemma_four_factors(s, x, s, x);
    lemma_four_factors(c, y, c, y);
    lemma_four_factors(c, x, s, y);
    lemma_four_factors(s, x, c, y);
    lemma_prod(c, s);
    let (cc, ss, xx, yy) = (prod(c, c), prod(s, s), prod(x, x), prod(y, y));
    lemma_prod_plus(xx, cc, ss);
    lemma_prod_plus(yy, cc, ss);
    lemma_prod(xx, 1 as real);
    lemma_prod(1 as real, xx);
    lemma_prod(yy, 1 as real);
    lemma_prod(1 as real, yy);
}

/// Scores are made smaller by the root of the head's width: the factor is positive, and
/// its square times the width is one.
pub proof fn law_score_scale<T: Analytic>(v: spec_fn(T) -> real, hd: int)
    requires
        faithful_roots(v),
        1 <= hd <= usize::MAX,
    ensures
        v(score_scale::<T>(hd)) > 0 as real,
        prod(prod(v(score_scale::<T>(hd)), v(score_scale::<T>(hd))), hd as real) == 1 as real,
{
    lemma_whole::<T>(v, 1);
    let n = T::from_count_spec(hd as usize);
    let r = v(n.root_spec());
    lemma_prod(r, 0 as real);
    assert(r > 0 as real);
    let s = v(score_scale::<T>(hd));
    assert(prod(s, r) == 1 as real);
    lemma_prod(s, r);
    lemma_prod_sign(r, s);
    lemma_four_factors(s, r, s, r);
    lemma_prod(1 as real, 1 as real);
}

} // verus!
