//! A pre-norm transformer block on plain buffers, and its activations.

use crate::fast_attn::{attention_forward, tables_of, FastAttention};
use crate::fast_conv::{is_on, switched_on};
use crate::flash_attn::Core;
use crate::index::{lemma_join, lemma_row_within, lemma_within};
use crate::norm::{layernorm_matrix, layernorm_rows_of};
use crate::scalar::{one, Analytic, Scalar};
use crate::tinyblas::{linear, linear_of};
use vstd::prelude::*;

verus! {

/// Whether the buffer-based block is enabled: by the value of `DA_FAST_ATTN`, or
/// of `DA_FAST` where the first is not set.
pub fn fast_block_enabled(fast_attn: Option<&str>, fast: Option<&str>) -> (r: bool)
    ensures
        r == switched_on(
            match fast_attn {
                Some(s) => Some(s@),
                None => match fast {
                    Some(s) => Some(s@),
                    None => None,
                },
            },
        ),
{
    match fast_attn {
        Some(s) => is_on(Some(s)),
        None => is_on(fast),
    }
}

// ---- activations ------------------------------------------------------------

/// A number cut to the range from -87.3 to 88.7, over which its exponential can
/// be held.
pub open spec fn exp_range<T: Scalar>(x: T) -> T {
    let low = T::ratio_spec((-873) as i32, 10);
    let high = T::ratio_spec(887, 10);
    if x.less_spec(low) {
        low
    } else if high.less_spec(x) {
        high
    } else {
        x
    }
}

/// `2^r` for `r` between -1/2 and 1/2, by a polynomial of degree six.
pub open spec fn exp2_poly<T: Scalar>(r: T) -> T {
    let c6 = r.times_spec(T::from_bits_spec(0x3921_6037));
    let c5 = r.times_spec(T::from_bits_spec(0x3aae_cc31).plus_spec(c6));
    let c4 = r.times_spec(T::from_bits_spec(0x3c1d_953c).plus_spec(c5));
    let c3 = r.times_spec(T::from_bits_spec(0x3d63_5844).plus_spec(c4));
    let c2 = r.times_spec(T::from_bits_spec(0x3e75_fdf0).plus_spec(c3));
    one::<T>().plus_spec(r.times_spec(T::from_bits_spec(0x3f31_7218).plus_spec(c2)))
}

/// The exponential as `2^n * 2^r`: `n` is `x * log2(e)` rounded to the nearest
/// whole number, and `2^n` is put together from its exponent bits.
pub open spec fn exp_fast_of<T: Analytic>(x: T) -> T {
    let t = exp_range(x).times_spec(T::from_bits_spec(0x3fb8_aa3b));
    let n = t.nearest_spec();
    let biased = n.plus_spec(T::ratio_spec(127, 1)).floor_count_spec();
    T::from_bits_spec(((biased as u32) << 23) as u32).times_spec(exp2_poly(t.minus_spec(n)))
}

/// A fast approximation of the exponential.
pub fn exp_fast<T: Analytic>(x: T) -> (r: T)
    ensures
        r == exp_fast_of(x),
{
    let low: T = T::ratio(-873, 10);
    let high: T = T::ratio(887, 10);
    let cut: T = if x.less(low) {
        low
    } else if high.less(x) {
        high
    } else {
        x
    };
    let t: T = cut.times(T::from_bits(0x3fb8_aa3b));
    let n: T = t.nearest();
    let r: T = t.minus(n);
    let c6: T = r.times(T::from_bits(0x3921_6037));
    let c5: T = r.times(T::from_bits(0x3aae_cc31).plus(c6));
    let c4: T = r.times(T::from_bits(0x3c1d_953c).plus(c5));
    let c3: T = r.times(T::from_bits(0x3d63_5844).plus(c4));
    let c2: T = r.times(T::from_bits(0x3e75_fdf0).plus(c3));
    let p: T = T::ratio(1, 1).plus(r.times(T::from_bits(0x3f31_7218).plus(c2)));
    let biased: u32 = n.plus(T::ratio(127, 1)).floor_count() as u32;
    T::from_bits(biased << 23).times(p)
}

/// The error function, by a rational approximation of its magnitude.
pub open spec fn erff_of<T: Analytic>(x: T) -> T {
    let ax = x.magnitude_spec();
    let t = one::<T>().over_spec(
        one::<T>().plus_spec(T::from_bits_spec(0x3ea7_ba05).times_spec(ax)),
    );
    let p4 = T::from_bits_spec(0x3f87_dc22).times_spec(t).plus_spec(
        T::from_bits_spec(0xbfba_00e3),
    );
    let p3 = p4.times_spec(t).plus_spec(T::from_bits_spec(0x3fb5_f0e3));
    let p2 = p3.times_spec(t).plus_spec(T::from_bits_spec(0xbe91_a98e));
    let p1 = p2.times_spec(t).plus_spec(T::from_bits_spec(0x3e82_7906));
    let poly = p1.times_spec(t);
    one::<T>().minus_spec(
        poly.times_spec(exp_fast_of(ax.negated_spec().times_spec(ax))),
    ).signed_like_spec(x)
}

/// An approximation of the error function.
pub fn erff<T: Analytic>(x: T) -> (r: T)
    ensures
        r == erff_of(x),
{
    let unit: T = T::ratio(1, 1);
    let ax: T = x.magnitude();
    let t: T = unit.over(unit.plus(T::from_bits(0x3ea7_ba05).times(ax)));
    let p4: T = T::from_bits(0x3f87_dc22).times(t).plus(T::from_bits(0xbfba_00e3));
    let p3: T = p4.times(t).plus(T::from_bits(0x3fb5_f0e3));
    let p2: T = p3.times(t).plus(T::from_bits(0xbe91_a98e));
    let p1: T = p2.times(t).plus(T::from_bits(0x3e82_7906));
    let poly: T = p1.times(t);
    unit.minus(poly.times(exp_fast(ax.negated().times(ax)))).signed_like(x)
}

/// `x / 2 * (1 + erf(x / sqrt(2)))`.
pub open spec fn gelu_of<T: Analytic>(x: T) -> T {
    T::ratio_spec(1, 2).times_spec(x).times_spec(
        one::<T>().plus_spec(erff_of(x.times_spec(T::from_bits_spec(0x3f35_04f3)))),
    )
}

/// The Gaussian error linear unit.
pub fn gelu_erf<T: Analytic>(x: T) -> (r: T)
    ensures
        r == gelu_of(x),
{
    T::ratio(1, 2).times(x).times(T::ratio(1, 1).plus(erff(x.times(T::from_bits(0x3f35_04f3)))))
}

/// `x / (1 + exp(-x))`.
pub open spec fn silu_of<T: Analytic>(x: T) -> T {
    x.over_spec(one::<T>().plus_spec(x.negated_spec().exponential_spec()))
}

/// The sigmoid linear unit.
pub fn silu<T: Analytic>(x: T) -> (r: T)
    ensures
        r == silu_of(x),
{
    x.over(T::ratio(1, 1).plus(x.negated().exponential()))
}

/// Each element through [`gelu_erf`].
pub open spec fn gelu_all<T: Analytic>(x: Seq<T>) -> Seq<T> {
    Seq::new(x.len(), |i: int| gelu_of(x[i]))
}

/// Applies [`gelu_erf`] to every element.
pub fn gelu_erf_slice<T: Analytic>(x: &mut Vec<T>)
    ensures
        final(x)@ == gelu_all(old(x)@),
{
    let n: usize = x.len();
    let mut i: usize = 0;
    while i < n
        invariant
            i <= n,
            x.len() == n,
            old(x).len() == n,
            forall|k: int| 0 <= k < i ==> #[trigger] x[k] == gelu_of(old(x)[k]),
            forall|k: int| i <= k < n ==> #[trigger] x[k] == old(x)[k],
        decreases n - i,
    {
        let v: T = gelu_erf(x[i]);
        x[i] = v;
        i = i + 1;
    }
    assert(x@ =~= gelu_all(old(x)@));
}

// ---- feed-forward -----------------------------------------------------------

/// The feed-forward part of a block, packed for [`crate::tinyblas`].
pub enum FastFfn<T> {
    /// `[embed, hidden]`, GELU, `[hidden, embed]`.
    Mlp { fc1_w: Vec<T>, fc1_b: Vec<T>, fc2_w: Vec<T>, fc2_b: Vec<T>, hidden: usize },
    /// `[embed, 2 * hidden]`, gating, `[hidden, embed]`.
    Swiglu { w12_w: Vec<T>, w12_b: Vec<T>, w3_w: Vec<T>, w3_b: Vec<T>, hidden: usize },
}

/// What gating leaves: `silu` of the first half of each row times the second half.
pub open spec fn gated<T: Analytic>(x12: Seq<T>, n: int, hidden: int) -> Seq<T> {
    Seq::new(
        (n * hidden) as nat,
        |p: int|
            {
                let at = (p / hidden) * (2 * hidden) + p % hidden;
                silu_of(x12[at]).times_spec(x12[at + hidden])
            },
    )
}

/// What the feed-forward part gives for rows `x`.
pub open spec fn ffn_forward<T: Analytic>(f: FastFfn<T>, x: Seq<T>, n: int, embed: int) -> Seq<T> {
    match f {
        FastFfn::Mlp { fc1_w, fc1_b, fc2_w, fc2_b, hidden } => linear_of(
            gelu_all(linear_of(x, fc1_w@, fc1_b@, n, embed, hidden as int)),
            fc2_w@,
            fc2_b@,
            n,
            hidden as int,
            embed,
        ),
        FastFfn::Swiglu { w12_w, w12_b, w3_w, w3_b, hidden } => linear_of(
            gated(linear_of(x, w12_w@, w12_b@, n, embed, 2 * hidden), n, hidden as int),
            w3_w@,
            w3_b@,
            n,
            hidden as int,
            embed,
        ),
    }
}

fn gate<T: Analytic>(x12: &[T], n: usize, hidden: usize) -> (r: Vec<T>)
    requires
        x12.len() == n * (2 * hidden),
    ensures
        r@ == gated(x12@, n as int, hidden as int),
        r.len() == n * hidden,
{
    proof {
        assert(n * hidden <= n * (2 * hidden)) by (nonlinear_arith)
            requires
                0 <= n,
                0 <= hidden,
        ;
    }
    let total: usize = n * hidden;
    let mut r: Vec<T> = Vec::new();
    let mut p: usize = 0;
    while p < total
        invariant
            p <= total,
            total == n * hidden,
            x12.len() == n * (2 * hidden),
            r.len() == p,
            forall|j: int|
                0 <= j < p ==> #[trigger] r[j] == gated(x12@, n as int, hidden as int)[j],
        decreases total - p,
    {
        proof {
            if hidden == 0 {
                assert(n * hidden == 0) by (nonlinear_arith)
                    requires
                        hidden == 0,
                ;
            }
            lemma_row_within(p as int, n as int, hidden as int);
            lemma_join(p as int, hidden as int);
            lemma_within(
                (p / hidden) as int,
                n as int,
                p % hidden + hidden,
                2 * hidden,
            );
        }
        let at: usize = (p / hidden) * (2 * hidden) + p % hidden;
        r.push(silu(x12[at]).times(x12[at + hidden]));
        p = p + 1;
    }
    assert(r@ =~= gated(x12@, n as int, hidden as int));
    r
}

impl<T: Analytic> FastFfn<T> {
    /// The weights have the sizes that the shape says.
    pub open spec fn wf(&self, embed: int) -> bool {
        match *self {
            FastFfn::Mlp { fc1_w, fc1_b, fc2_w, fc2_b, hidden } => {
                &&& fc1_w.len() == embed * hidden
                &&& fc1_b.len() == hidden
                &&& fc2_w.len() == hidden * embed
                &&& fc2_b.len() == embed
            },
            FastFfn::Swiglu { w12_w, w12_b, w3_w, w3_b, hidden } => {
                &&& w12_w.len() == embed * (2 * hidden)
                &&& w12_b.len() == 2 * hidden
                &&& w3_w.len() == hidden * embed
                &&& w3_b.len() == embed
            },
        }
    }

    pub open spec fn width(&self) -> usize {
        match *self {
            FastFfn::Mlp { hidden, .. } => hidden,
            FastFfn::Swiglu { hidden, .. } => hidden,
        }
    }

    /// The width of the hidden layer.
    pub fn hidden(&self) -> (r: usize)
        ensures
            r == self.width(),
    {
        match self {
            FastFfn::Mlp { hidden, .. } => *hidden,
            FastFfn::Swiglu { hidden, .. } => *hidden,
        }
    }

    /// Runs the feed-forward part on `n` rows of `embed` numbers.
    pub fn forward(&self, x: &[T], n: usize, embed: usize) -> (r: Vec<T>)
        requires
            self.wf(embed as int),
            x.len() == n * embed,
            n * (2 * self.width()) <= usize::MAX,
        ensures
            r@ == ffn_forward(*self, x@, n as int, embed as int),
            r.len() == n * embed,
    {
        proof {
            assert(n * self.width() <= n * (2 * self.width())) by (nonlinear_arith);
        }
        match self {
            FastFfn::Mlp { fc1_w, fc1_b, fc2_w, fc2_b, hidden } => {
                let mut h: Vec<T> = linear(
                    x,
                    fc1_w.as_slice(),
                    fc1_b.as_slice(),
                    n,
                    embed,
                    *hidden,
                );
                gelu_erf_slice(&mut h);
                linear(h.as_slice(), fc2_w.as_slice(), fc2_b.as_slice(), n, *hidden, embed)
            },
            FastFfn::Swiglu { w12_w, w12_b, w3_w, w3_b, hidden } => {
                let x12: Vec<T> = linear(
                    x,
                    w12_w.as_slice(),
                    w12_b.as_slice(),
                    n,
                    embed,
                    2 * *hidden,
                );
                let h: Vec<T> = gate(x12.as_slice(), n, *hidden);
                linear(h.as_slice(), w3_w.as_slice(), w3_b.as_slice(), n, *hidden, embed)
            },
        }
    }
}

// ---- the block --------------------------------------------------------------

/// Rows plus a branch, scaled channel by channel where there is a scale.
pub open spec fn residual_of<T: Scalar>(
    x: Seq<T>,
    scale: Option<Seq<T>>,
    branch: Seq<T>,
    embed: int,
) -> Seq<T> {
    Seq::new(
        x.len(),
        |p: int|
            match scale {
                Some(ls) => x[p].plus_spec(ls[p % embed].times_spec(branch[p])),
                None => x[p].plus_spec(branch[p]),
            },
    )
}

fn add_branch<T: Scalar>(
    x: &[T],
    scale: &Option<Vec<T>>,
    branch: &[T],
    embed: usize,
) -> (r: Vec<T>)
    requires
        branch.len() == x.len(),
        scale matches Some(ls) ==> ls.len() == embed,
        x.len() > 0 ==> embed > 0,
    ensures
        r@ == residual_of(x@, scale_of(*scale), branch@, embed as int),
{
    let ghost want = residual_of(x@, scale_of(*scale), branch@, embed as int);
    let mut r: Vec<T> = Vec::new();
    let mut p: usize = 0;
    while p < x.len()
        invariant
            p <= x.len(),
            branch.len() == x.len(),
            scale matches Some(ls) ==> ls.len() == embed,
            x.len() > 0 ==> embed > 0,
            want == residual_of(x@, scale_of(*scale), branch@, embed as int),
            r.len() == p,
            forall|j: int| 0 <= j < p ==> #[trigger] r[j] == want[j],
        decreases x.len() - p,
    {
        let v: T = match scale {
            Some(ls) => x[p].plus(ls[p % embed].times(branch[p])),
            None => x[p].plus(branch[p]),
        };
        r.push(v);
        p = p + 1;
    }
    assert(r@ =~= want);
    r
}

/// A channel scale's values.
pub open spec fn scale_of<T>(s: Option<Vec<T>>) -> Option<Seq<T>> {
    match s {
        Some(v) => Some(v@),
        None => None,
    }
}

/// A transformer block's weights.
pub struct FastVitBlock<T> {
    pub norm1_w: Vec<T>,
    pub norm1_b: Vec<T>,
    pub attn: FastAttention<T>,
    pub ls1: Option<Vec<T>>,
    pub norm2_w: Vec<T>,
    pub norm2_b: Vec<T>,
    pub ffn: FastFfn<T>,
    pub ls2: Option<Vec<T>>,
    pub embed: usize,
    pub ln_eps: T,
}

/// What a block gives for rows `x`: norm, attention, scale, residual, norm,
/// feed-forward, scale, residual.
pub open spec fn block_forward<T: Analytic>(
    b: FastVitBlock<T>,
    x: Seq<T>,
    n: int,
    rope: Option<(Seq<T>, Seq<T>)>,
    core: Core,
) -> Seq<T> {
    let embed = b.embed as int;
    let a = attention_forward(
        b.attn,
        layernorm_rows_of(x, n, embed, b.norm1_w@, b.norm1_b@, b.ln_eps, true),
        n,
        rope,
        core,
    );
    let mid = residual_of(x, scale_of(b.ls1), a, embed);
    let m = ffn_forward(
        b.ffn,
        layernorm_rows_of(mid, n, embed, b.norm2_w@, b.norm2_b@, b.ln_eps, true),
        n,
        embed,
    );
    residual_of(mid, scale_of(b.ls2), m, embed)
}

impl<T: Analytic> FastVitBlock<T> {
    /// The parts fit together.
    pub open spec fn wf(&self) -> bool {
        &&& self.norm1_w.len() == self.embed
        &&& self.norm1_b.len() == self.embed
        &&& self.norm2_w.len() == self.embed
        &&& self.norm2_b.len() == self.embed
        &&& self.attn.wf()
        &&& self.attn.embed == self.embed
        &&& self.ls1 matches Some(v) ==> v.len() == self.embed
        &&& self.ls2 matches Some(v) ==> v.len() == self.embed
        &&& self.ffn.wf(self.embed as int)
    }

    /// Runs the block on `n` rows of `embed` numbers.
    pub fn forward(&self, x: &[T], n: usize, rope: Option<(&[T], &[T])>, flash: bool) -> (out: Vec<
        T,
    >)
        requires
            self.wf(),
            self.attn.accepts(x@, n as int, rope),
            n * (2 * self.ffn.width()) <= usize::MAX,
        ensures
            out@ == block_forward(
                *self,
                x@,
                n as int,
                tables_of(rope),
                if flash {
                    Core::Tiled
                } else {
                    Core::Stored
                },
            ),
            out.len() == n * self.embed,
    {
        let embed: usize = self.embed;
        proof {
            if embed == 0 {
                assert(n * embed == 0) by (nonlinear_arith)
                    requires
                        embed == 0,
                ;
            }
        }
        let xn: Vec<T> = layernorm_matrix(
            x,
            n,
            embed,
            self.norm1_w.as_slice(),
            self.norm1_b.as_slice(),
            self.ln_eps,
            true,
        );
        let a: Vec<T> = self.attn.forward(xn.as_slice(), n, rope, flash);
        let mid: Vec<T> = add_branch(x, &self.ls1, a.as_slice(), embed);
        let xn2: Vec<T> = layernorm_matrix(
            mid.as_slice(),
            n,
            embed,
            self.norm2_w.as_slice(),
            self.norm2_b.as_slice(),
            self.ln_eps,
            true,
        );
        let m: Vec<T> = self.ffn.forward(xn2.as_slice(), n, embed);
        add_branch(mid.as_slice(), &self.ls2, m.as_slice(), embed)
    }

    /// As [`Self::forward`], into a buffer that is replaced.
    pub fn forward_into(
        &self,
        x: &[T],
        out: &mut Vec<T>,
        n: usize,
        rope: Option<(&[T], &[T])>,
        flash: bool,
    )
        requires
            self.wf(),
            self.attn.accepts(x@, n as int, rope),
            n * (2 * self.ffn.width()) <= usize::MAX,
        ensures
            final(out)@ == block_forward(
                *self,
                x@,
                n as int,
                tables_of(rope),
                if flash {
                    Core::Tiled
                } else {
                    Core::Stored
                },
            ),
    {
        *out = self.forward(x, n, rope, flash);
    }

    /// `(embed, hidden, heads, head_dim)`.
    pub fn dims(&self) -> (r: (usize, usize, usize, usize))
        ensures
            r == (self.attn.embed, self.ffn.width(), self.attn.heads, self.attn.head_dim),
    {
        let (embed, heads, head_dim) = self.attn.dims();
        (embed, self.ffn.hidden(), heads, head_dim)
    }
}

/// Normalises each row of an `[n, dim]` matrix, with the variance from a single
/// pass.
pub fn layernorm_rows<T: Analytic>(
    x: &[T],
    n: usize,
    dim: usize,
    w: &[T],
    b: &[T],
    eps: T,
) -> (r: Vec<T>)
    requires
        x.len() == n * dim,
        w.len() == dim,
        b.len() == dim,
    ensures
        r@ == layernorm_rows_of(x@, n as int, dim as int, w@, b@, eps, true),
{
    layernorm_matrix(x, n, dim, w, b, eps, true)
}

} // verus!
