//! Multi-head self-attention on plain buffers.

use crate::config::same_text;
use crate::flash_attn::{attend, attention_of, Core};
use crate::index::{lemma_factor, lemma_join, lemma_row_within, lemma_split, lemma_within};
use crate::norm::{layernorm_1d, layernorm_row, row_of};
use crate::scalar::{one, Analytic, Scalar};
use crate::tinyblas::{linear, linear_of, pack_b_nt, packed};
use vstd::prelude::*;

verus! {

/// The epsilon of the query and key norms.
pub open spec fn qk_norm_eps<T: Scalar>() -> T {
    T::ratio_spec(1, 100_000)
}

/// Whether attention runs online, by the value of `DA_FAST_FLASH`: unless it is
/// switched off.
pub fn flash_attn_enabled(value: Option<&str>) -> (r: bool)
    ensures
        r == (match value {
            Some(s) => !(s@ == "0"@ || s@ == "off"@ || s@ == "false"@ || s@ == "False"@ || s@
                == "FALSE"@),
            None => true,
        }),
{
    match value {
        Some(s) => !(same_text(s, "0") || same_text(s, "off") || same_text(s, "false")
            || same_text(s, "False") || same_text(s, "FALSE")),
        None => true,
    }
}

/// The rotary embedding of one head: each half of the row is rotated by itself,
/// its first quarter against its second.
pub open spec fn rope_row<T: Scalar>(src: Seq<T>, cos: Seq<T>, sin: Seq<T>) -> Seq<T> {
    let half = src.len() as int / 2;
    let quart = half / 2;
    Seq::new(
        src.len(),
        |i: int|
            if i % half < quart {
                src[i].times_spec(cos[i]).minus_spec(src[quart + i].times_spec(sin[i]))
            } else {
                src[i].times_spec(cos[i]).plus_spec(src[i - quart].times_spec(sin[i]))
            },
    )
}

/// Applies the rotary embedding to one head.
pub fn apply_rope2d_1d<T: Scalar>(src: &[T], cos: &[T], sin: &[T]) -> (dst: Vec<T>)
    requires
        src.len() % 4 == 0,
        cos.len() == src.len(),
        sin.len() == src.len(),
    ensures
        dst@ == rope_row(src@, cos@, sin@),
{
    let d: usize = src.len();
    let half: usize = d / 2;
    let quart: usize = half / 2;
    let mut dst: Vec<T> = Vec::new();
    let mut i: usize = 0;
    while i < d
        invariant
            i <= d,
            d == src.len(),
            d % 4 == 0,
            half == d / 2,
            quart == half / 2,
            cos.len() == d,
            sin.len() == d,
            dst.len() == i,
            forall|k: int| 0 <= k < i ==> #[trigger] dst[k] == rope_row(src@, cos@, sin@)[k],
        decreases d - i,
    {
        let within: usize = if i < half {
            i
        } else {
            i - half
        };
        proof {
            if i < half {
                lemma_split(0, half as int, i as int);
            } else {
                lemma_split(1, half as int, within as int);
            }
        }
        let v: T = if within < quart {
            src[i].times(cos[i]).minus(src[quart + i].times(sin[i]))
        } else {
            src[i].times(cos[i]).plus(src[i - quart].times(sin[i]))
        };
        dst.push(v);
        i = i + 1;
    }
    assert(dst@ =~= rope_row(src@, cos@, sin@));
    dst
}

/// A norm's weights and biases.
pub open spec fn norm_of<T>(n: Option<(Vec<T>, Vec<T>)>) -> Option<(Seq<T>, Seq<T>)> {
    match n {
        Some(p) => Some((p.0@, p.1@)),
        None => None,
    }
}

/// Rotary tables, a row of cosines and one of sines for each token.
pub open spec fn tables_of<T>(rope: Option<(&[T], &[T])>) -> Option<(Seq<T>, Seq<T>)> {
    match rope {
        Some(p) => Some((p.0@, p.1@)),
        None => None,
    }
}

/// One head of one token, normalised and rotated where asked for.
pub open spec fn prepared<T: Analytic>(
    row: Seq<T>,
    norm: Option<(Seq<T>, Seq<T>)>,
    rope: Option<(Seq<T>, Seq<T>)>,
    token: int,
) -> Seq<T> {
    let hd = row.len() as int;
    let normed = match norm {
        Some(n) => layernorm_row(row, n.0, n.1, qk_norm_eps()),
        None => row,
    };
    match rope {
        Some(t) => rope_row(normed, row_of(t.0, hd, token), row_of(t.1, hd, token)),
        None => normed,
    }
}

/// Head `h` of token `i` in a row of queries, keys and values: `which` is 0 for
/// queries, 1 for keys, 2 for values.
pub open spec fn head_slice<T>(
    qkv: Seq<T>,
    embed: int,
    hd: int,
    which: int,
    h: int,
    i: int,
) -> Seq<T> {
    let at = i * (3 * embed) + which * embed + h * hd;
    qkv.subrange(at, at + hd)
}

/// The heads of all tokens, `[heads, n, hd]`.
pub open spec fn panel_of<T: Analytic>(
    qkv: Seq<T>,
    heads: int,
    n: int,
    hd: int,
    which: int,
    norm: Option<(Seq<T>, Seq<T>)>,
    rope: Option<(Seq<T>, Seq<T>)>,
) -> Seq<T> {
    Seq::new(
        ((heads * n) * hd) as nat,
        |p: int|
            {
                let r = p / hd;
                prepared(
                    head_slice(qkv, heads * hd, hd, which, r / n, r % n),
                    norm,
                    rope,
                    r % n,
                )[p % hd]
            },
    )
}

/// Heads side by side for each token, `[n, heads * hd]`.
pub open spec fn concat_of<T>(a: Seq<T>, heads: int, n: int, hd: int) -> Seq<T> {
    let embed = heads * hd;
    Seq::new(
        (n * embed) as nat,
        |p: int| a[(((p % embed) / hd) * n + p / embed) * hd + (p % embed) % hd],
    )
}

/// The factor of the scores, `1 / sqrt(hd)`.
pub open spec fn score_scale<T: Analytic>(hd: int) -> T {
    one::<T>().over_spec(T::from_count_spec(hd as usize).root_spec())
}

/// Attention weights, packed for [`crate::tinyblas`].
pub struct FastAttention<T> {
    /// `[embed, 3 * embed]`.
    pub qkv_w: Vec<T>,
    pub qkv_b: Vec<T>,
    /// `[embed, embed]`.
    pub proj_w: Vec<T>,
    pub proj_b: Vec<T>,
    pub q_norm: Option<(Vec<T>, Vec<T>)>,
    pub k_norm: Option<(Vec<T>, Vec<T>)>,
    pub heads: usize,
    pub head_dim: usize,
    pub embed: usize,
}

/// What attention gives for rows `x`.
pub open spec fn attention_forward<T: Analytic>(
    a: FastAttention<T>,
    x: Seq<T>,
    n: int,
    rope: Option<(Seq<T>, Seq<T>)>,
    core: Core,
) -> Seq<T> {
    let heads = a.heads as int;
    let hd = a.head_dim as int;
    let embed = a.embed as int;
    let qkv = linear_of(x, a.qkv_w@, a.qkv_b@, n, embed, 3 * embed);
    let q = panel_of(qkv, heads, n, hd, 0, norm_of(a.q_norm), rope);
    let k = panel_of(qkv, heads, n, hd, 1, norm_of(a.k_norm), rope);
    let v = panel_of(qkv, heads, n, hd, 2, None, None);
    let out = attention_of(q, k, v, heads, n, hd, score_scale(hd), core);
    linear_of(concat_of(out, heads, n, hd), a.proj_w@, a.proj_b@, n, embed, embed)
}

fn copy_pair<T: Copy>(p: Option<(&[T], &[T])>) -> (r: Option<(Vec<T>, Vec<T>)>)
    ensures
        norm_of(r) == tables_of(p),
{
    match p {
        Some(t) => Some((copy_slice(t.0), copy_slice(t.1))),
        None => None,
    }
}

pub(crate) fn copy_slice<T: Copy>(x: &[T]) -> (r: Vec<T>)
    ensures
        r@ == x@,
{
    let mut r: Vec<T> = Vec::new();
    let mut i: usize = 0;
    while i < x.len()
        invariant
            i <= x.len(),
            r.len() == i,
            forall|k: int| 0 <= k < i ==> #[trigger] r[k] == x[k],
        decreases x.len() - i,
    {
        r.push(x[i]);
        i = i + 1;
    }
    assert(r@ =~= x@);
    r
}

fn prepare<T: Analytic>(
    row: &[T],
    norm: &Option<(Vec<T>, Vec<T>)>,
    rope: Option<(&[T], &[T])>,
    n: usize,
    token: usize,
) -> (r: Vec<T>)
    requires
        token < n,
        norm matches Some(p) ==> p.0.len() == row.len() && p.1.len() == row.len(),
        rope matches Some(t) ==> row.len() % 4 == 0 && t.0.len() == n * row.len() && t.1.len()
            == n * row.len(),
    ensures
        r@ == prepared(row@, norm_of(*norm), tables_of(rope), token as int),
        r.len() == row.len(),
{
    let normed: Vec<T> = match norm {
        Some(p) => layernorm_1d(row, p.0.as_slice(), p.1.as_slice(), T::ratio(1, 100_000)),
        None => copy_slice(row),
    };
    match rope {
        Some(t) => {
            let hd: usize = row.len();
            proof {
                lemma_within(token as int, n as int, 0, hd as int + 1);
                assert(token * hd + hd <= n * hd && 0 <= token * hd) by (nonlinear_arith)
                    requires
                        0 <= token < n,
                        0 <= hd,
                ;
            }
            let cos: &[T] = &t.0[token * hd..token * hd + hd];
            let sin: &[T] = &t.1[token * hd..token * hd + hd];
            assert(cos@ =~= row_of(t.0@, hd as int, token as int));
            assert(sin@ =~= row_of(t.1@, hd as int, token as int));
            apply_rope2d_1d(normed.as_slice(), cos, sin)
        },
        None => normed,
    }
}

fn gather_panel<T: Analytic>(
    qkv: &[T],
    heads: usize,
    n: usize,
    hd: usize,
    which: usize,
    norm: &Option<(Vec<T>, Vec<T>)>,
    rope: Option<(&[T], &[T])>,
) -> (out: Vec<T>)
    requires
        which < 3,
        qkv.len() == n * (3 * (heads * hd)),
        heads * n <= usize::MAX,
        norm matches Some(p) ==> p.0.len() == hd && p.1.len() == hd,
        rope matches Some(t) ==> hd % 4 == 0 && t.0.len() == n * hd && t.1.len() == n * hd,
    ensures
        out@ == panel_of(
            qkv@,
            heads as int,
            n as int,
            hd as int,
            which as int,
            norm_of(*norm),
            tables_of(rope),
        ),
        out.len() == (heads * n) * hd,
{
    let rows: usize = heads * n;
    let ghost embed: int = heads * hd;
    let ghost want = panel_of(
        qkv@,
        heads as int,
        n as int,
        hd as int,
        which as int,
        norm_of(*norm),
        tables_of(rope),
    );
    let mut out: Vec<T> = Vec::new();
    let mut r: usize = 0;
    assert(0 * hd == 0);
    while r < rows
        invariant
            r <= rows,
            rows == heads * n,
            embed == heads * hd,
            which < 3,
            qkv.len() == n * (3 * embed),
            norm matches Some(p) ==> p.0.len() == hd && p.1.len() == hd,
            rope matches Some(t) ==> hd % 4 == 0 && t.0.len() == n * hd && t.1.len() == n * hd,
            want == panel_of(
                qkv@,
                heads as int,
                n as int,
                hd as int,
                which as int,
                norm_of(*norm),
                tables_of(rope),
            ),
            out.len() == r * hd,
            forall|p: int| 0 <= p < r * hd ==> #[trigger] out[p] == want[p],
        decreases rows - r,
    {
        proof {
            if n == 0 {
                assert(heads * n == 0) by (nonlinear_arith)
                    requires
                        n == 0,
                ;
            }
            lemma_row_within(r as int, heads as int, n as int);
            lemma_join(r as int, n as int);
            let h = (r / n) as int;
            let i = (r % n) as int;
            assert(h * hd + hd <= embed && 0 <= h * hd) by (nonlinear_arith)
                requires
                    0 <= h < heads,
                    0 <= hd,
                    embed == heads * hd,
            ;
            assert(i * (3 * embed) + 3 * embed <= n * (3 * embed) && 0 <= i * (3 * embed) && 0
                <= embed) by (nonlinear_arith)
                requires
                    0 <= i < n,
                    embed == heads * hd,
                    0 <= heads,
                    0 <= hd,
            ;
            assert(which * embed + embed <= 3 * embed && 0 <= which * embed) by (nonlinear_arith)
                requires
                    0 <= which < 3,
                    0 <= embed,
            ;
            assert((r + 1) * hd == r * hd + hd && (r + 1) * hd <= rows * hd && 0 <= r * hd)
                by (nonlinear_arith)
                requires
                    r + 1 <= rows,
                    0 <= hd,
                    0 <= r,
            ;
        }
        let h: usize = r / n;
        let i: usize = r % n;
        let width: usize = heads * hd;
        let at: usize = i * (3 * width) + which * width + h * hd;
        let row: &[T] = &qkv[at..at + hd];
        assert(row@ =~= head_slice(qkv@, embed, hd as int, which as int, h as int, i as int));
        let done: Vec<T> = prepare(row, norm, rope, n, i);
        let mut d: usize = 0;
        while d < hd
            invariant
                d <= hd,
                r < rows,
                rows == heads * n,
                embed == heads * hd,
                h == r / n,
                i == r % n,
                0 < n,
                (r + 1) * hd == r * hd + hd,
                (r + 1) * hd <= rows * hd,
                done.len() == hd,
                done@ == prepared(
                    head_slice(qkv@, embed, hd as int, which as int, h as int, i as int),
                    norm_of(*norm),
                    tables_of(rope),
                    i as int,
                ),
                want == panel_of(
                    qkv@,
                    heads as int,
                    n as int,
                    hd as int,
                    which as int,
                    norm_of(*norm),
                    tables_of(rope),
                ),
                out.len() == r * hd + d,
                forall|p: int| 0 <= p < r * hd + d ==> #[trigger] out[p] == want[p],
            decreases hd - d,
        {
            proof {
                lemma_split(r as int, hd as int, d as int);
            }
            out.push(done[d]);
            d = d + 1;
        }
        r = r + 1;
    }
    assert(out@ =~= want);
    out
}

fn concat_heads<T: Scalar>(a: &[T], heads: usize, n: usize, hd: usize) -> (r: Vec<T>)
    requires
        a.len() == (heads * n) * hd,
        heads * hd <= usize::MAX,
        n * (heads * hd) <= usize::MAX,
    ensures
        r@ == concat_of(a@, heads as int, n as int, hd as int),
        r.len() == n * (heads * hd),
{
    let embed: usize = heads * hd;
    let total: usize = n * embed;
    let ghost want = concat_of(a@, heads as int, n as int, hd as int);
    let mut r: Vec<T> = Vec::new();
    let mut p: usize = 0;
    while p < total
        invariant
            p <= total,
            total == n * embed,
            embed == heads * hd,
            a.len() == (heads * n) * hd,
            want == concat_of(a@, heads as int, n as int, hd as int),
            r.len() == p,
            forall|j: int| 0 <= j < p ==> #[trigger] r[j] == want[j],
        decreases total - p,
    {
        proof {
            if embed == 0 {
                assert(n * embed == 0) by (nonlinear_arith)
                    requires
                        embed == 0,
                ;
            }
            if hd == 0 {
                assert(heads * hd == 0) by (nonlinear_arith)
                    requires
                        hd == 0,
                ;
            }
            lemma_row_within(p as int, n as int, embed as int);
            lemma_join(p as int, embed as int);
            lemma_row_within((p % embed) as int, heads as int, hd as int);
            lemma_within(
                ((p % embed) / hd) as int,
                heads as int,
                (p / embed) as int,
                n as int,
            );
            lemma_within(
                ((p % embed) / hd) * n + p / embed,
                heads * n,
                ((p % embed) % hd) as int,
                hd as int,
            );
            lemma_factor(((p % embed) / hd) * n + p / embed, hd as int);
        }
        r.push(a[(((p % embed) / hd) * n + p / embed) * hd + (p % embed) % hd]);
        p = p + 1;
    }
    assert(r@ =~= want);
    r
}

impl<T: Analytic> FastAttention<T> {
    /// The weights have the sizes that the shape says.
    pub open spec fn wf(&self) -> bool {
        &&& self.embed == self.heads * self.head_dim
        &&& self.qkv_w.len() == self.embed * (3 * self.embed)
        &&& self.qkv_b.len() == 3 * self.embed
        &&& self.proj_w.len() == self.embed * self.embed
        &&& self.proj_b.len() == self.embed
        &&& self.q_norm matches Some(p) ==> p.0.len() == self.head_dim && p.1.len()
            == self.head_dim
        &&& self.k_norm matches Some(p) ==> p.0.len() == self.head_dim && p.1.len()
            == self.head_dim
    }

    /// `n` rows can be run, with these rotary tables.
    pub open spec fn accepts(&self, x: Seq<T>, n: int, rope: Option<(&[T], &[T])>) -> bool {
        &&& x.len() == n * self.embed
        &&& n * (3 * self.embed) <= usize::MAX
        &&& self.heads * n <= usize::MAX
        &&& n * self.head_dim <= usize::MAX
        &&& rope matches Some(t) ==> self.head_dim % 4 == 0 && t.0.len() == n * self.head_dim
            && t.1.len() == n * self.head_dim
    }

    /// Takes weights with outputs in rows and packs them.
    pub fn from_raw_weights(
        qkv_w: &[T],
        qkv_b: &[T],
        proj_w: &[T],
        proj_b: &[T],
        q_norm: Option<(&[T], &[T])>,
        k_norm: Option<(&[T], &[T])>,
        heads: usize,
        head_dim: usize,
        embed: usize,
    ) -> (r: Self)
        requires
            heads * head_dim == embed,
            qkv_w.len() == (3 * embed) * embed,
            qkv_b.len() == 3 * embed,
            proj_w.len() == embed * embed,
            proj_b.len() == embed,
            q_norm matches Some(p) ==> p.0.len() == head_dim && p.1.len() == head_dim,
            k_norm matches Some(p) ==> p.0.len() == head_dim && p.1.len() == head_dim,
        ensures
            r.wf(),
            r.heads == heads,
            r.head_dim == head_dim,
            r.embed == embed,
            r.qkv_w@ == packed(qkv_w@, embed as int, 3 * embed),
            r.qkv_b@ == qkv_b@,
            r.proj_w@ == packed(proj_w@, embed as int, embed as int),
            r.proj_b@ == proj_b@,
            norm_of(r.q_norm) == tables_of(q_norm),
            norm_of(r.k_norm) == tables_of(k_norm),
    {
        FastAttention {
            qkv_w: pack_b_nt(embed, 3 * embed, qkv_w),
            qkv_b: copy_slice(qkv_b),
            proj_w: pack_b_nt(embed, embed, proj_w),
            proj_b: copy_slice(proj_b),
            q_norm: copy_pair(q_norm),
            k_norm: copy_pair(k_norm),
            heads,
            head_dim,
            embed,
        }
    }

    /// Attention of `n` rows of `embed` numbers. `rope` holds rows of cosines
    /// and sines for each token; without it nothing is rotated. `flash` selects
    /// the online softmax.
    pub fn forward(&self, x: &[T], n: usize, rope: Option<(&[T], &[T])>, flash: bool) -> (out: Vec<
        T,
    >)
        requires
            self.wf(),
            self.accepts(x@, n as int, rope),
        ensures
            out@ == attention_forward(
                *self,
                x@,
                n as int,
                tables_of(rope),
                if flash {
                    Core::Tiled
                } else {
                    Core::Stored
                },
            ),
            out.len() == n * self.embed,
    {
        let embed: usize = self.embed;
        let heads: usize = self.heads;
        let hd: usize = self.head_dim;
        let scale: T = T::ratio(1, 1).over(T::from_count(hd).root());
        let core: Core = if flash {
            Core::Tiled
        } else {
            Core::Stored
        };
        proof {
            assert(n * embed <= n * (3 * embed)) by (nonlinear_arith)
                requires
                    0 <= n,
                    0 <= embed,
            ;
        }
        let qkv: Vec<T> = linear(
            x,
            self.qkv_w.as_slice(),
            self.qkv_b.as_slice(),
            n,
            embed,
            3 * embed,
        );
        let none: Option<(Vec<T>, Vec<T>)> = None;
        let q: Vec<T> = gather_panel(qkv.as_slice(), heads, n, hd, 0, &self.q_norm, rope);
        let k: Vec<T> = gather_panel(qkv.as_slice(), heads, n, hd, 1, &self.k_norm, rope);
        let v: Vec<T> = gather_panel(qkv.as_slice(), heads, n, hd, 2, &none, None);
        let a: Vec<T> = attend(
            q.as_slice(),
            k.as_slice(),
            v.as_slice(),
            heads,
            n,
            hd,
            scale,
            core,
        );
        let joined: Vec<T> = concat_heads(a.as_slice(), heads, n, hd);
        linear(
            joined.as_slice(),
            self.proj_w.as_slice(),
            self.proj_b.as_slice(),
            n,
            embed,
            embed,
        )
    }

    /// As [`Self::forward`], into a buffer that is replaced.
    pub fn forward_into(
        &self,
        x: &[T],
        out: &mut Vec<T>,
        n: usize,
        rope: Option<(&[T], &[T])>,
        flash: bool,
    )
        requires
            self.wf(),
            self.accepts(x@, n as int, rope),
        ensures
            final(out)@ == attention_forward(
                *self,
                x@,
                n as int,
                tables_of(rope),
                if flash {
                    Core::Tiled
                } else {
                    Core::Stored
                },
            ),
    {
        *out = self.forward(x, n, rope, flash);
    }

    /// `(embed, heads, head_dim)`.
    pub fn dims(&self) -> (r: (usize, usize, usize))
        ensures
            r == (self.embed, self.heads, self.head_dim),
    {
        (self.embed, self.heads, self.head_dim)
    }
}

} // verus!
