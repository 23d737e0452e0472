//! What an attention layer computes, where arithmetic is exact.

use crate::fast_attn::{
    attention_forward, concat_of, head_slice, norm_of, panel_of, prepared, score_scale,
    FastAttention,
};
use crate::flash_attn::{attention_of, core_row, dot_term, score, Core};
use crate::flash_laws::{faithful_exp, law_attention_is_mean, weight_at, weighted_at};
use crate::index::{lemma_split, lemma_within};
use crate::layer_laws::{answer, law_score_scale, lemma_linear, lemma_one_root};
use crate::norm::row_of;
use crate::reals::{
    faithful, faithful_roots, lemma_accumulate, lemma_prod, lemma_prod_cancel, lemma_sum_agree,
    lemma_whole, prod, sum,
};
use crate::scalar::Analytic;
use crate::tinyblas::linear_of;
use vstd::prelude::*;

verus! {

/// Number `r` of the queries, keys and values of token `j`.
pub open spec fn projected<T>(
    v: spec_fn(T) -> real,
    a: FastAttention<T>,
    x: Seq<T>,
    j: int,
    r: int,
) -> real {
    answer(
        |p: int, i: int| v(a.qkv_w@[i * (3 * a.embed) + p]),
        |p: int| v(a.qkv_b@[p]),
        |i: int| v(x[j * a.embed + i]),
        a.embed as nat,
        r,
    )
}

/// The score of key `j` for the query of token `i` in head `h`: the product of the two,
/// times `sc`.
pub open spec fn matched<T>(
    v: spec_fn(T) -> real,
    a: FastAttention<T>,
    x: Seq<T>,
    sc: real,
    h: int,
    i: int,
    j: int,
) -> real {
    prod(
        sum(
            |t: int|
                prod(
                    projected(v, a, x, i, h * a.head_dim + t),
                    projected(v, a, x, j, a.embed + h * a.head_dim + t),
                ),
            a.head_dim as nat,
        ),
        sc,
    )
}

/// How much the query of token `i` heeds each token in head `h`.
pub open spec fn heed<T>(
    v: spec_fn(T) -> real,
    ex: spec_fn(real) -> real,
    a: FastAttention<T>,
    x: Seq<T>,
    sc: real,
    h: int,
    i: int,
) -> spec_fn(int) -> real {
    |j: int| ex(matched(v, a, x, sc, h, i, j))
}

/// The values of all tokens for number `d` of head `h`, as much as each is heeded.
pub open spec fn heeded<T>(
    v: spec_fn(T) -> real,
    ex: spec_fn(real) -> real,
    a: FastAttention<T>,
    x: Seq<T>,
    sc: real,
    h: int,
    i: int,
    d: int,
) -> spec_fn(int) -> real {
    |j: int|
        prod(
            heed(v, ex, a, x, sc, h, i)(j),
            projected(v, a, x, j, 2 * a.embed + h * a.head_dim + d),
        )
}

/// `ctx` holds, head by head, the mean of the values of all tokens by how much token `i`
/// heeds each.
pub open spec fn is_context<T>(
    v: spec_fn(T) -> real,
    ex: spec_fn(real) -> real,
    a: FastAttention<T>,
    x: Seq<T>,
    n: nat,
    sc: real,
    i: int,
    ctx: spec_fn(int) -> real,
) -> bool {
    forall|h: int, d: int|
        0 <= h < a.heads && 0 <= d < a.head_dim ==> prod(
            #[trigger] ctx(h * a.head_dim + d),
            sum(heed(v, ex, a, x, sc, h, i), n),
        ) == sum(heeded(v, ex, a, x, sc, h, i, d), n)
}

/// A number of a panel of heads without norm and rotation.
proof fn lemma_panel<T: Analytic>(
    v: spec_fn(T) -> real,
    a: FastAttention<T>,
    x: Seq<T>,
    n: int,
    which: int,
    h: int,
    j: int,
    t: int,
)
    requires
        faithful(v),
        a.embed == a.heads * a.head_dim,
        0 <= which < 3,
        0 <= h < a.heads,
        0 <= j < n,
        0 <= t < a.head_dim,
    ensures
        ({
            let qkv = linear_of(x, a.qkv_w@, a.qkv_b@, n, a.embed as int, 3 * a.embed);
            let p = panel_of(qkv, a.heads as int, n, a.head_dim as int, which, None, None);
            let at = (h * n + j) * a.head_dim + t;
            &&& p.len() == a.heads * n * a.head_dim
            &&& 0 <= at < p.len()
            &&& v(p[at]) == projected(v, a, x, j, which * a.embed + h * a.head_dim + t)
        }),
{
    let (heads, hd, embed) = (a.heads as int, a.head_dim as int, a.embed as int);
    let qkv = linear_of(x, a.qkv_w@, a.qkv_b@, n, embed, 3 * embed);
    let p = panel_of(qkv, heads, n, hd, which, None, None);
    lemma_within(h, heads, j, n);
    lemma_split(h, n, j);
    let row = h * n + j;
    lemma_within(row, heads * n, t, hd);
    lemma_split(row, hd, t);
    lemma_within(h, heads, t, hd);
    let c = h * hd + t;
    lemma_within(which, 3, c, embed);
    let r = which * embed + c;
    lemma_linear(v, x, a.qkv_w@, a.qkv_b@, n, embed, 3 * embed, j, r);
    let s = head_slice(qkv, heads * hd, hd, which, h, j);
    let at = j * (3 * embed) + which * embed + h * hd;
    assert(at + hd <= n * (3 * embed)) by {
        lemma_within(h, heads, 0, hd);
        assert(h * hd + hd <= embed);
        assert(which * embed + embed <= 3 * embed) by (nonlinear_arith)
            requires
                which <= 2,
                0 <= embed,
        ;
        assert(j * (3 * embed) + 3 * embed <= n * (3 * embed)) by (nonlinear_arith)
            requires
                j < n,
                0 <= embed,
        ;
    }
    assert(0 <= at) by (nonlinear_arith)
        requires
            0 <= j,
            0 <= which,
            0 <= h,
            0 <= hd,
            0 <= embed,
            at == j * (3 * embed) + which * embed + h * hd,
    ;
    assert(s.len() == hd);
    assert(s[t] == qkv[at + t]);
    assert(at + t == j * (3 * embed) + r);
    assert(p[row * hd + t] == prepared(s, None, None, j)[t]);
}

/// The number that token `i` gets in head `h`.
proof fn lemma_context<T: Analytic>(
    v: spec_fn(T) -> real,
    ex: spec_fn(real) -> real,
    a: FastAttention<T>,
    x: Seq<T>,
    n: int,
    core: Core,
    sc: real,
    h: int,
    i: int,
    d: int,
)
    requires
        faithful_exp(v, ex),
        a.embed == a.heads * a.head_dim,
        core != Core::Tiled,
        v(score_scale::<T>(a.head_dim as int)) == sc,
        0 <= h < a.heads,
        0 <= i < n,
        0 <= d < a.head_dim,
    ensures
        ({
            let (heads, hd, embed) = (a.heads as int, a.head_dim as int, a.embed as int);
            let qkv = linear_of(x, a.qkv_w@, a.qkv_b@, n, embed, 3 * embed);
            let q = panel_of(qkv, heads, n, hd, 0, None, None);
            let k = panel_of(qkv, heads, n, hd, 1, None, None);
            let w = panel_of(qkv, heads, n, hd, 2, None, None);
            let out = attention_of(q, k, w, heads, n, hd, score_scale(hd), core);
            let c = v(concat_of(out, heads, n, hd)[i * embed + (h * hd + d)]);
            prod(c, sum(heed(v, ex, a, x, sc, h, i), n as nat)) == sum(
                heeded(v, ex, a, x, sc, h, i, d),
                n as nat,
            )
        }),
{
    lemma_whole::<T>(v, 0);
    let (heads, hd, embed) = (a.heads as int, a.head_dim as int, a.embed as int);
    let qkv = linear_of(x, a.qkv_w@, a.qkv_b@, n, embed, 3 * embed);
    let q = panel_of(qkv, heads, n, hd, 0, None, None);
    let k = panel_of(qkv, heads, n, hd, 1, None, None);
    let w = panel_of(qkv, heads, n, hd, 2, None, None);
    let scale = score_scale::<T>(hd);
    let out = attention_of(q, k, w, heads, n, hd, scale, core);
    lemma_within(h, heads, i, n);
    lemma_split(h, n, i);
    let row = h * n + i;
    lemma_within(row, heads * n, d, hd);
    lemma_split(row, hd, d);
    lemma_within(h, heads, d, hd);
    lemma_split(h, hd, d);
    let c = h * hd + d;
    lemma_within(i, n, c, embed);
    lemma_split(i, embed, c);
    assert(concat_of(out, heads, n, hd)[i * embed + c] == out[row * hd + d]);
    let qr = row_of(q, hd, row);
    let kh = row_of(k, n * hd, h);
    let vh = row_of(w, n * hd, h);
    assert(out[row * hd + d] == core_row(core, qr, kh, vh, n, hd, scale)[d]);
    law_attention_is_mean(v, ex, core, qr, kh, vh, n, hd, scale, d);
    lemma_panel(v, a, x, n, 0, h, i, d);
    assert(row * hd + hd <= q.len()) by (nonlinear_arith)
        requires
            row < heads * n,
            0 <= hd,
            q.len() == heads * n * hd,
    ;
    assert(0 <= h * (n * hd) && h * (n * hd) + n * hd <= heads * n * hd) by (nonlinear_arith)
        requires
            0 <= h < heads,
            0 <= n,
            0 <= hd,
    ;
    let wf = weight_at(v, ex, qr, kh, hd, scale);
    let hf = heed(v, ex, a, x, sc, h, i);
    assert forall|j: int| 0 <= j < n implies #[trigger] wf(j) == hf(j) by {
        let g = dot_term(qr, kh, hd, j);
        lemma_accumulate(v, T::ratio_spec(0, 1), g, hd as nat);
        let f = |t: int| v(g(t));
        let e = |t: int|
            prod(
                projected(v, a, x, i, h * a.head_dim + t),
                projected(v, a, x, j, a.embed + h * a.head_dim + t),
            );
        assert forall|t: int| 0 <= t < hd implies #[trigger] f(t) == e(t) by {
            lemma_panel(v, a, x, n, 0, h, i, t);
            lemma_panel(v, a, x, n, 1, h, j, t);
            lemma_within(j, n, t, hd);
            assert(h * (n * hd) + (j * hd + t) == (h * n + j) * hd + t) by (nonlinear_arith);
            assert(qr[t] == q[row * hd + t]);
            assert(kh[j * hd + t] == k[(h * n + j) * hd + t]);
        }
        lemma_sum_agree(f, e, hd as nat);
        lemma_sum_agree(|t: int| v(g(t)), f, hd as nat);
        lemma_sum_agree(
            |t: int|
                prod(
                    projected(v, a, x, i, h * a.head_dim + t),
                    projected(v, a, x, j, a.embed + h * a.head_dim + t),
                ),
            e,
            a.head_dim as nat,
        );
        assert(v(score(qr, kh, hd, scale, j)) == matched(v, a, x, sc, h, i, j));
    }
    lemma_sum_agree(wf, hf, n as nat);
    let wv = weighted_at(v, ex, qr, kh, vh, hd, scale, d);
    let hv = heeded(v, ex, a, x, sc, h, i, d);
    assert forall|j: int| 0 <= j < n implies #[trigger] wv(j) == hv(j) by {
        assert(wf(j) == hf(j));
        lemma_panel(v, a, x, n, 2, h, j, d);
        lemma_within(j, n, d, hd);
        assert(h * (n * hd) + (j * hd + d) == (h * n + j) * hd + d) by (nonlinear_arith);
        assert(vh[j * hd + d] == w[(h * n + j) * hd + d]);
    }
    lemma_sum_agree(wv, hv, n as nat);
}

/// An attention layer without norms and rotation. Each token's query, key and value are
/// read off the token by one layer, queries first, then keys, then values, and in each
/// head by head. In every head a token gets the mean of all values, each with the
/// exponential of its key's product with the token's query over the root of the head's
/// width as its weight. The heads, side by side, go through one more layer.
pub proof fn law_attention_layer<T: Analytic>(
    v: spec_fn(T) -> real,
    ex: spec_fn(real) -> real,
    a: FastAttention<T>,
    x: Seq<T>,
    n: int,
    core: Core,
    sc: real,
    i: int,
)
    requires
        faithful_exp(v, ex),
        faithful_roots(v),
        a.wf(),
        a.q_norm is None,
        a.k_norm is None,
        1 <= a.head_dim,
        core != Core::Tiled,
        0 <= i < n,
        sc > 0 as real,
        prod(prod(sc, sc), a.head_dim as int as real) == 1 as real,
    ensures
        exists|ctx: spec_fn(int) -> real|
            #[trigger] is_context(v, ex, a, x, n as nat, sc, i, ctx) && forall|o: int|
                0 <= o < a.embed ==> v(
                    #[trigger] attention_forward(a, x, n, None, core)[i * a.embed + o],
                ) == answer(
                    |p: int, c: int| v(a.proj_w@[c * a.embed + p]),
                    |p: int| v(a.proj_b@[p]),
                    ctx,
                    a.embed as nat,
                    o,
                ),
{
    let (heads, hd, embed) = (a.heads as int, a.head_dim as int, a.embed as int);
    law_score_scale::<T>(v, hd);
    let s = v(score_scale::<T>(hd));
    let k = hd as real;
    lemma_prod(k, prod(sc, sc));
    lemma_prod(k, prod(s, s));
    lemma_prod_cancel(k, prod(sc, sc), prod(s, s));
    lemma_one_root(sc, s);
    let qkv = linear_of(x, a.qkv_w@, a.qkv_b@, n, embed, 3 * embed);
    let q = panel_of(qkv, heads, n, hd, 0, None, None);
    let kk = panel_of(qkv, heads, n, hd, 1, None, None);
    let w = panel_of(qkv, heads, n, hd, 2, None, None);
    assert(norm_of(a.q_norm) == None::<(Seq<T>, Seq<T>)>);
    assert(norm_of(a.k_norm) == None::<(Seq<T>, Seq<T>)>);
    let out = attention_of(q, kk, w, heads, n, hd, score_scale(hd), core);
    let con = concat_of(out, heads, n, hd);
    let ctx = |c: int| v(con[i * embed + c]);
    assert forall|h: int, d: int| 0 <= h < a.heads && 0 <= d < a.head_dim implies prod(
        #[trigger] ctx(h * a.head_dim + d),
        sum(heed(v, ex, a, x, sc, h, i), n as nat),
    ) == sum(heeded(v, ex, a, x, sc, h, i, d), n as nat) by {
        lemma_context(v, ex, a, x, n, core, sc, h, i, d);
    }
    assert(is_context(v, ex, a, x, n as nat, sc, i, ctx));
    assert forall|o: int| 0 <= o < a.embed implies v(
        #[trigger] attention_forward(a, x, n, None, core)[i * a.embed + o],
    ) == answer(
        |p: int, c: int| v(a.proj_w@[c * a.embed + p]),
        |p: int| v(a.proj_b@[p]),
        ctx,
        a.embed as nat,
        o,
    ) by {
        lemma_linear(v, con, a.proj_w@, a.proj_b@, n, embed, embed, i, o);
        let g = |c: int|
            prod(
                (|p: int, c: int| v(a.proj_w@[c * embed + p]))(o, c),
                (|c: int| v(con[i * embed + c]))(c),
            );
        let e = |c: int| prod((|p: int, c: int| v(a.proj_w@[c * a.embed + p]))(o, c), ctx(c));
        assert forall|c: int| 0 <= c < embed implies #[trigger] g(c) == e(c) by {}
        lemma_sum_agree(g, e, embed as nat);
    }
}

} // verus!
