//! Attention of a model file, with all scores kept.

use crate::config::Config;
use crate::error::{Error, Fault};
use crate::fast_attn::{
    apply_rope2d_1d, attention_forward, norm_of, rope_row, tables_of, FastAttention,
};
use crate::flash_attn::Core;
use crate::gguf::{outcome, GgufFile, Header};
use crate::index::{lemma_row_within, lemma_split, lemma_within};
use crate::scalar::{one, zero, Analytic, Fixed, Scalar};
use crate::tinyblas::packed;
use crate::weights::{joined, lemma_sizes, load_pair, pair_loaded, Pair};
use vstd::prelude::*;

verus! {

/// The attention of one block.
pub struct Attention<T> {
    pub inner: FastAttention<T>,
}

/// What an [`Attention`] holds.
pub struct AttentionData<T> {
    pub qkv_w: Seq<T>,
    pub qkv_b: Seq<T>,
    pub proj_w: Seq<T>,
    pub proj_b: Seq<T>,
    pub q_norm: Option<(Seq<T>, Seq<T>)>,
    pub k_norm: Option<(Seq<T>, Seq<T>)>,
}

impl<T> View for Attention<T> {
    type V = AttentionData<T>;

    open spec fn view(&self) -> AttentionData<T> {
        AttentionData {
            qkv_w: self.inner.qkv_w@,
            qkv_b: self.inner.qkv_b@,
            proj_w: self.inner.proj_w@,
            proj_b: self.inner.proj_b@,
            q_norm: norm_of(self.inner.q_norm),
            k_norm: norm_of(self.inner.k_norm),
        }
    }
}

/// A norm over `d` numbers where a file has it.
pub open spec fn norm_loaded<T: Scalar>(
    bytes: Seq<u8>,
    header: Header,
    name: Seq<char>,
    d: usize,
) -> Option<(Seq<T>, Seq<T>)> {
    match pair_loaded::<T>(bytes, header, name, seq![d], d) {
        Err(_) => None,
        Ok(p) => Some((p.weight, p.bias)),
    }
}

/// The attention of the block whose names begin with `at`.
pub open spec fn attention_loaded<T: Scalar>(
    bytes: Seq<u8>,
    header: Header,
    at: Seq<char>,
    embed: usize,
    d: usize,
) -> Result<AttentionData<T>, Fault> {
    match pair_loaded::<T>(
        bytes,
        header,
        at + "attn_qkv"@,
        seq![(3 * embed) as usize, embed],
        (3 * embed) as usize,
    ) {
        Err(e) => Err(e),
        Ok(qkv) => match pair_loaded::<T>(
            bytes,
            header,
            at + "attn_proj"@,
            seq![embed, embed],
            embed,
        ) {
            Err(e) => Err(e),
            Ok(proj) => Ok(
                AttentionData {
                    qkv_w: packed(qkv.weight, embed as int, 3 * embed),
                    qkv_b: qkv.bias,
                    proj_w: packed(proj.weight, embed as int, embed as int),
                    proj_b: proj.bias,
                    q_norm: norm_loaded::<T>(bytes, header, at + "attn_qnorm"@, d),
                    k_norm: norm_loaded::<T>(bytes, header, at + "attn_knorm"@, d),
                },
            ),
        },
    }
}

fn load_norm<T: Scalar>(f: &GgufFile, name: &str, d: usize) -> (r: Option<(Vec<T>, Vec<T>)>)
    requires
        f.wf(),
    ensures
        norm_of(r) == norm_loaded::<T>(f.contents(), f@, name@, d),
        r matches Some(p) ==> p.0.len() == d && p.1.len() == d,
{
    let row: [usize; 1] = [d];
    proof {
        assert(row@ =~= seq![d]);
        lemma_sizes(row@);
    }
    match load_pair(f, name, row.as_slice(), d) {
        Err(_) => None,
        Ok(p) => Some((p.weight, p.bias)),
    }
}

fn slices<T>(n: &Option<(Vec<T>, Vec<T>)>) -> (r: Option<(&[T], &[T])>)
    ensures
        tables_of(r) == norm_of(*n),
        r is Some == n is Some,
{
    match n {
        Some(p) => Some((p.0.as_slice(), p.1.as_slice())),
        None => None,
    }
}

impl<T: Analytic> Attention<T> {
    /// Reads the attention of the block whose names begin with `at`. Norms of
    /// queries and keys are optional.
    pub fn load(cfg: &Config<T>, f: &GgufFile, at: &str) -> (r: Result<Self, Error>)
        requires
            f.wf(),
            cfg.num_heads * cfg.head_dim == cfg.embed_dim,
            3 * cfg.embed_dim <= usize::MAX,
        ensures
            outcome(r) == attention_loaded::<T>(
                f.contents(),
                f@,
                at@,
                cfg.embed_dim as usize,
                cfg.head_dim as usize,
            ),
            r matches Ok(a) ==> {
                &&& a.inner.wf()
                &&& a.inner.heads == cfg.num_heads
                &&& a.inner.head_dim == cfg.head_dim
                &&& a.inner.embed == cfg.embed_dim
            },
    {
        let embed: usize = cfg.embed_dim as usize;
        let d: usize = cfg.head_dim as usize;
        let wide: usize = 3 * embed;
        let wshape: [usize; 2] = [wide, embed];
        let pshape: [usize; 2] = [embed, embed];
        proof {
            assert(wshape@ =~= seq![wide, embed]);
            assert(pshape@ =~= seq![embed, embed]);
            lemma_sizes(wshape@);
            lemma_sizes(pshape@);
        }
        let qkv: Pair<T> = match load_pair(
            f,
            joined(at, "attn_qkv").as_str(),
            wshape.as_slice(),
            wide,
        ) {
            Err(e) => {
                return Err(e);
            },
            Ok(p) => p,
        };
        let proj: Pair<T> = match load_pair(
            f,
            joined(at, "attn_proj").as_str(),
            pshape.as_slice(),
            embed,
        ) {
            Err(e) => {
                return Err(e);
            },
            Ok(p) => p,
        };
        let q_norm: Option<(Vec<T>, Vec<T>)> = load_norm(
            f,
            joined(at, "attn_qnorm").as_str(),
            d,
        );
        let k_norm: Option<(Vec<T>, Vec<T>)> = load_norm(
            f,
            joined(at, "attn_knorm").as_str(),
            d,
        );
        Ok(
            Attention {
                inner: FastAttention::from_raw_weights(
                    qkv.weight.as_slice(),
                    qkv.bias.as_slice(),
                    proj.weight.as_slice(),
                    proj.bias.as_slice(),
                    slices(&q_norm),
                    slices(&k_norm),
                    cfg.num_heads as usize,
                    d,
                    embed,
                ),
            },
        )
    }

    /// Attention of `n` rows, with rotary tables of one row for each token where
    /// there are some.
    pub fn forward(&self, x: &[T], n: usize, rope: Option<(&[T], &[T])>) -> (out: Vec<T>)
        requires
            self.inner.wf(),
            self.inner.accepts(x@, n as int, rope),
        ensures
            out@ == attention_forward(self.inner, x@, n as int, tables_of(rope), Core::Stored),
            out.len() == n * self.inner.embed,
    {
        self.inner.forward(x, n, rope, false)
    }
}

/// Row `r` of rows of `d` numbers.
pub open spec fn row_at<T>(x: Seq<T>, d: int, r: int) -> Seq<T> {
    x.subrange(r * d, r * d + d)
}

/// The heads of `n` tokens rotated, each by its token's row of the tables.
pub open spec fn rotated<T: Scalar>(
    x: Seq<T>,
    cos: Seq<T>,
    sin: Seq<T>,
    n: int,
    heads: int,
    d: int,
) -> Seq<T> {
    Seq::new(
        ((n * heads) * d) as nat,
        |p: int|
            {
                let r = p / d;
                rope_row(
                    row_at(x, d, r),
                    row_at(cos, d, r / heads),
                    row_at(sin, d, r / heads),
                )[p % d]
            },
    )
}

/// Rotates the heads of `n` tokens, `[n, heads, d]`, each by its token's row of
/// the tables.
pub fn apply_rope2d<T: Scalar>(
    x: &[T],
    cos: &[T],
    sin: &[T],
    n: usize,
    heads: usize,
    d: usize,
) -> (out: Vec<T>)
    requires
        d % 4 == 0,
        x.len() == (n * heads) * d,
        cos.len() == n * d,
        sin.len() == n * d,
        n * heads <= usize::MAX,
    ensures
        out@ == rotated(x@, cos@, sin@, n as int, heads as int, d as int),
{
    let ghost want = rotated(x@, cos@, sin@, n as int, heads as int, d as int);
    let rows: usize = n * heads;
    let mut out: Vec<T> = Vec::new();
    let mut r: usize = 0;
    assert(0 * d == 0) by (nonlinear_arith);
    while r < rows
        invariant
            r <= rows,
            rows == n * heads,
            d % 4 == 0,
            x.len() == rows * d,
            cos.len() == n * d,
            sin.len() == n * d,
            want == rotated(x@, cos@, sin@, n as int, heads as int, d as int),
            out.len() == r * d,
            forall|p: int| 0 <= p < r * d ==> #[trigger] out[p] == want[p],
        decreases rows - r,
    {
        proof {
            assert(heads > 0) by {
                if heads == 0 {
                    assert(n * heads == 0) by (nonlinear_arith)
                        requires
                            heads == 0,
                    ;
                }
            }
            lemma_row_within(r as int, n as int, heads as int);
            let t = (r / heads) as int;
            assert(t * d + d <= n * d && 0 <= t * d && r * d + d <= rows * d && 0 <= r * d && (r
                + 1) * d == r * d + d) by (nonlinear_arith)
                requires
                    0 <= t < n,
                    0 <= r < rows,
                    0 <= d,
            ;
        }
        let t: usize = r / heads;
        let head: Vec<T> = apply_rope2d_1d(
            &x[r * d..r * d + d],
            &cos[t * d..t * d + d],
            &sin[t * d..t * d + d],
        );
        let ghost before = out@;
        let mut k: usize = 0;
        while k < d
            invariant
                k <= d,
                head.len() == d,
                out@ == before + head@.take(k as int),
            decreases d - k,
        {
            out.push(head[k]);
            assert(out@ =~= before + head@.take(k + 1));
            k = k + 1;
        }
        proof {
            assert(head@.take(k as int) =~= head@);
            assert forall|p: int| 0 <= p < (r + 1) * d implies #[trigger] out[p] == want[p] by {
                if p >= r * d {
                    lemma_split(r as int, d as int, p - r * d);
                    lemma_within(r as int, rows as int, p - r * d, d as int);
                } else {
                    assert(out[p] == before[p]);
                }
            }
        }
        r = r + 1;
    }
    assert(out@ =~= want);
    out
}

proof fn lemma_times_units(x: Fixed)
    ensures
        x.times_spec(one()) == x,
        x.times_spec(zero()) == zero::<Fixed>(),
        x.plus_spec(zero()) == x,
        x.minus_spec(zero()) == x,
{
    let a: i64 = x.0;
    let y: i128 = (a * 65536) as i128;
    assert(y == (a as i128) * 65536);
    assert((y >> 16) as i64 == a) by (bit_vector)
        requires
            y == (a as i128) * 65536,
    ;
    let u: i64 = one::<Fixed>().0;
    let z: i64 = zero::<Fixed>().0;
    assert(one::<Fixed>() == Fixed::ratio_spec(1, 1));
    assert(zero::<Fixed>() == Fixed::ratio_spec(0, 1));
    assert(65536u64 / 1u64 == 65536) by (nonlinear_arith);
    assert(0u64 / 1u64 == 0) by (nonlinear_arith);
    assert(u == 65536);
    assert(z == 0);
    assert(a * u == a * 65536 && a * z == 0) by (nonlinear_arith)
        requires
            u == 65536,
            z == 0,
    ;
    assert((0i128 >> 16) as i64 == 0) by (bit_vector);
}

/// Where all cosines are one and all sines zero, nothing is rotated: a token at
/// the origin stays as it is.
pub proof fn law_rope_at_origin(row: Seq<Fixed>, cos: Seq<Fixed>, sin: Seq<Fixed>)
    requires
        row.len() % 4 == 0,
        cos.len() == row.len(),
        sin.len() == row.len(),
        forall|i: int| 0 <= i < row.len() ==> #[trigger] cos[i] == one::<Fixed>(),
        forall|i: int| 0 <= i < row.len() ==> #[trigger] sin[i] == zero::<Fixed>(),
    ensures
        rope_row(row, cos, sin) == row,
{
    assert forall|i: int| 0 <= i < row.len() implies rope_row(row, cos, sin)[i] == row[i] by {
        assert(cos[i] == one::<Fixed>());
        assert(sin[i] == zero::<Fixed>());
        let quart = row.len() as int / 2 / 2;
        lemma_times_units(row[i]);
        lemma_times_units(row[quart + i]);
        lemma_times_units(row[i - quart]);
    }
    assert(rope_row(row, cos, sin) =~= row);
}

} // verus!
