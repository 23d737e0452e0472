//! Blocks from weights as a tensor library keeps them: outputs in rows, and
//! biases that may be missing.

use crate::error::{Error, Fault, ModelError};
use crate::fast_attn::{norm_of, tables_of, FastAttention};
use crate::fast_block::{FastFfn, FastVitBlock};
use crate::scalar::{Analytic, Scalar};
use crate::tinyblas::{pack_b_nt, packed};
use vstd::prelude::*;
use vstd::string::*;

verus! {

/// A layer's weight and, where it has one, its bias.
pub struct RawLayer<T> {
    pub weight: Vec<T>,
    pub bias: Option<Vec<T>>,
}

/// The attention of a block.
pub struct RawAttention<T> {
    /// `[3 * embed, embed]`.
    pub qkv: RawLayer<T>,
    /// `[embed, embed]`.
    pub proj: RawLayer<T>,
    pub q_norm: Option<RawLayer<T>>,
    pub k_norm: Option<RawLayer<T>>,
    pub num_heads: usize,
    pub head_dim: usize,
}

/// The feed-forward part of a block.
pub enum RawFfn<T> {
    /// `[hidden, embed]` and `[embed, hidden]`.
    Mlp { fc1: RawLayer<T>, fc2: RawLayer<T> },
    /// `[2 * hidden, embed]` and `[embed, hidden]`.
    Swiglu { w12: RawLayer<T>, w3: RawLayer<T> },
}

/// A block.
pub struct RawBlock<T> {
    pub norm1: RawLayer<T>,
    pub attn: RawAttention<T>,
    pub ls1: Option<Vec<T>>,
    pub norm2: RawLayer<T>,
    pub ffn: RawFfn<T>,
    pub ls2: Option<Vec<T>>,
    pub embed: usize,
    pub hidden: usize,
}

impl<T> RawLayer<T> {
    /// A layer of `ins` by `outs` weights.
    pub open spec fn sized(&self, outs: int, ins: int) -> bool {
        &&& self.weight.len() == outs * ins
        &&& self.bias matches Some(b) ==> b.len() == outs
    }
}

/// An optional norm over `d` numbers.
pub open spec fn norm_sized<T>(n: Option<RawLayer<T>>, d: int) -> bool {
    n matches Some(l) ==> l.weight.len() == d && (l.bias matches Some(b) ==> b.len() == d)
}

impl<T> RawAttention<T> {
    /// The weights have their sizes.
    pub open spec fn wf(&self) -> bool {
        let embed = self.num_heads * self.head_dim;
        &&& embed <= usize::MAX
        &&& 3 * embed <= usize::MAX
        &&& self.qkv.sized(3 * embed, embed)
        &&& self.proj.sized(embed, embed)
        &&& norm_sized(self.q_norm, self.head_dim as int)
        &&& norm_sized(self.k_norm, self.head_dim as int)
    }

    /// The first layer without a bias.
    pub open spec fn lacks(&self) -> Option<Seq<char>> {
        if self.qkv.bias is None {
            Some("fast_attn: QKV linear"@)
        } else if self.proj.bias is None {
            Some("fast_attn: proj linear"@)
        } else if self.q_norm matches Some(n) && n.bias is None {
            Some("fast_attn: q_norm"@)
        } else if self.k_norm matches Some(n) && n.bias is None {
            Some("fast_attn: k_norm"@)
        } else {
            None
        }
    }
}

/// A norm's weight and bias.
pub open spec fn norm_pair<T>(n: Option<RawLayer<T>>) -> Option<(Seq<T>, Seq<T>)> {
    match n {
        Some(l) => Some((l.weight@, l.bias->0@)),
        None => None,
    }
}

impl<T> RawBlock<T> {
    /// The weights have their sizes.
    pub open spec fn wf(&self) -> bool {
        let e = self.embed as int;
        let h = self.hidden as int;
        &&& self.attn.wf()
        &&& self.attn.num_heads * self.attn.head_dim == e
        &&& self.norm1.weight.len() == e
        &&& self.norm1.bias matches Some(b) ==> b.len() == e
        &&& self.norm2.weight.len() == e
        &&& self.norm2.bias matches Some(b) ==> b.len() == e
        &&& self.ls1 matches Some(v) ==> v.len() == e
        &&& self.ls2 matches Some(v) ==> v.len() == e
        &&& match self.ffn {
            RawFfn::Mlp { fc1, fc2 } => fc1.sized(h, e) && fc2.sized(e, h),
            RawFfn::Swiglu { w12, w3 } => 2 * h <= usize::MAX && w12.sized(2 * h, e) && w3.sized(
                e,
                h,
            ),
        }
    }

    /// The first layer without a bias.
    pub open spec fn lacks(&self) -> Option<Seq<char>> {
        if self.norm1.bias is None {
            Some("fast_block: norm1"@)
        } else if self.norm2.bias is None {
            Some("fast_block: norm2"@)
        } else if self.attn.lacks() is Some {
            self.attn.lacks()
        } else {
            match self.ffn {
                RawFfn::Mlp { fc1, fc2 } => if fc1.bias is None {
                    Some("fast_block: fc1"@)
                } else if fc2.bias is None {
                    Some("fast_block: fc2"@)
                } else {
                    None
                },
                RawFfn::Swiglu { w12, w3 } => if w12.bias is None {
                    Some("fast_block: w12"@)
                } else if w3.bias is None {
                    Some("fast_block: w3"@)
                } else {
                    None
                },
            }
        }
    }
}

fn need<T>(b: Option<Vec<T>>, name: &str) -> (r: Result<Vec<T>, Error>)
    ensures
        match r {
            Ok(v) => b == Some(v),
            Err(e) => b is None && e@ == Fault::NoBias(name@),
        },
{
    match b {
        Some(v) => Ok(v),
        None => Err(Error::Model(ModelError::NoBias(name.to_owned()))),
    }
}

fn need_norm<T>(n: Option<RawLayer<T>>, name: &str) -> (r: Result<Option<(Vec<T>, Vec<T>)>, Error>)
    ensures
        match r {
            Ok(p) => {
                &&& norm_of(p) == norm_pair(n)
                &&& n matches Some(l) ==> l.bias is Some
            },
            Err(e) => n is Some && n->0.bias is None && e@ == Fault::NoBias(name@),
        },
{
    match n {
        None => Ok(None),
        Some(l) => match need(l.bias, name) {
            Err(e) => Err(e),
            Ok(b) => Ok(Some((l.weight, b))),
        },
    }
}

/// Attention made from these weights.
pub open spec fn is_attention<T: Scalar>(a: FastAttention<T>, raw: RawAttention<T>) -> bool {
    let embed = raw.num_heads * raw.head_dim;
    &&& a.heads == raw.num_heads
    &&& a.head_dim == raw.head_dim
    &&& a.embed == embed
    &&& a.qkv_w@ == packed(raw.qkv.weight@, embed, 3 * embed)
    &&& a.qkv_b@ == raw.qkv.bias->0@
    &&& a.proj_w@ == packed(raw.proj.weight@, embed, embed)
    &&& a.proj_b@ == raw.proj.bias->0@
    &&& norm_of(a.q_norm) == norm_pair(raw.q_norm)
    &&& norm_of(a.k_norm) == norm_pair(raw.k_norm)
}

fn pair_slices<T>(n: &Option<(Vec<T>, Vec<T>)>) -> (r: Option<(&[T], &[T])>)
    ensures
        tables_of(r) == norm_of(*n),
        r is Some == *n is Some,
{
    match n {
        Some(p) => Some((p.0.as_slice(), p.1.as_slice())),
        None => None,
    }
}

impl<T: Analytic> FastAttention<T> {
    /// Packs the weights of an attention.
    ///
    /// Refused where a layer has no bias.
    pub fn from_candle(raw: RawAttention<T>) -> (r: Result<Self, Error>)
        requires
            raw.wf(),
        ensures
            match r {
                Ok(a) => raw.lacks() is None && is_attention(a, raw) && a.wf(),
                Err(e) => raw.lacks() is Some && e@ == Fault::NoBias(raw.lacks()->0),
            },
    {
        let embed: usize = raw.num_heads * raw.head_dim;
        let qkv_b: Vec<T> = match need(raw.qkv.bias, "fast_attn: QKV linear") {
            Err(e) => {
                return Err(e);
            },
            Ok(b) => b,
        };
        let proj_b: Vec<T> = match need(raw.proj.bias, "fast_attn: proj linear") {
            Err(e) => {
                return Err(e);
            },
            Ok(b) => b,
        };
        let q_norm: Option<(Vec<T>, Vec<T>)> = match need_norm(raw.q_norm, "fast_attn: q_norm") {
            Err(e) => {
                return Err(e);
            },
            Ok(p) => p,
        };
        let k_norm: Option<(Vec<T>, Vec<T>)> = match need_norm(raw.k_norm, "fast_attn: k_norm") {
            Err(e) => {
                return Err(e);
            },
            Ok(p) => p,
        };
        Ok(
            FastAttention::from_raw_weights(
                raw.qkv.weight.as_slice(),
                qkv_b.as_slice(),
                raw.proj.weight.as_slice(),
                proj_b.as_slice(),
                pair_slices(&q_norm),
                pair_slices(&k_norm),
                raw.num_heads,
                raw.head_dim,
                embed,
            ),
        )
    }
}

/// A block made from these weights.
pub open spec fn is_block<T: Scalar>(b: FastVitBlock<T>, raw: RawBlock<T>, ln_eps: T) -> bool {
    let e = raw.embed as int;
    let h = raw.hidden as int;
    &&& b.norm1_w == raw.norm1.weight
    &&& Some(b.norm1_b) == raw.norm1.bias
    &&& b.norm2_w == raw.norm2.weight
    &&& Some(b.norm2_b) == raw.norm2.bias
    &&& is_attention(b.attn, raw.attn)
    &&& b.ls1 == raw.ls1
    &&& b.ls2 == raw.ls2
    &&& b.embed == raw.embed
    &&& b.ln_eps == ln_eps
    &&& match (b.ffn, raw.ffn) {
        (FastFfn::Mlp { fc1_w, fc1_b, fc2_w, fc2_b, hidden }, RawFfn::Mlp { fc1, fc2 }) => {
            &&& fc1_w@ == packed(fc1.weight@, e, h)
            &&& Some(fc1_b) == fc1.bias
            &&& fc2_w@ == packed(fc2.weight@, h, e)
            &&& Some(fc2_b) == fc2.bias
            &&& hidden == raw.hidden
        },
        (FastFfn::Swiglu { w12_w, w12_b, w3_w, w3_b, hidden }, RawFfn::Swiglu { w12, w3 }) => {
            &&& w12_w@ == packed(w12.weight@, e, 2 * h)
            &&& Some(w12_b) == w12.bias
            &&& w3_w@ == packed(w3.weight@, h, e)
            &&& Some(w3_b) == w3.bias
            &&& hidden == raw.hidden
        },
        _ => false,
    }
}

impl<T: Analytic> FastVitBlock<T> {
    /// Packs the weights of a block.
    ///
    /// Refused where a layer has no bias.
    pub fn from_candle(raw: RawBlock<T>, ln_eps: T) -> (r: Result<Self, Error>)
        requires
            raw.wf(),
        ensures
            match r {
                Ok(b) => raw.lacks() is None && is_block(b, raw, ln_eps) && b.wf(),
                Err(e) => raw.lacks() is Some && e@ == Fault::NoBias(raw.lacks()->0),
            },
    {
        let embed: usize = raw.embed;
        let hidden: usize = raw.hidden;
        let norm1_b: Vec<T> = match need(raw.norm1.bias, "fast_block: norm1") {
            Err(e) => {
                return Err(e);
            },
            Ok(b) => b,
        };
        let norm2_b: Vec<T> = match need(raw.norm2.bias, "fast_block: norm2") {
            Err(e) => {
                return Err(e);
            },
            Ok(b) => b,
        };
        let attn: FastAttention<T> = match FastAttention::from_candle(raw.attn) {
            Err(e) => {
                return Err(e);
            },
            Ok(a) => a,
        };
        let ffn: FastFfn<T> = match raw.ffn {
            RawFfn::Mlp { fc1, fc2 } => {
                let fc1_b: Vec<T> = match need(fc1.bias, "fast_block: fc1") {
                    Err(e) => {
                        return Err(e);
                    },
                    Ok(b) => b,
                };
                let fc2_b: Vec<T> = match need(fc2.bias, "fast_block: fc2") {
                    Err(e) => {
                        return Err(e);
                    },
                    Ok(b) => b,
                };
                FastFfn::Mlp {
                    fc1_w: pack_b_nt(embed, hidden, fc1.weight.as_slice()),
                    fc1_b,
                    fc2_w: pack_b_nt(hidden, embed, fc2.weight.as_slice()),
                    fc2_b,
                    hidden,
                }
            },
            RawFfn::Swiglu { w12, w3 } => {
                let w12_b: Vec<T> = match need(w12.bias, "fast_block: w12") {
                    Err(e) => {
                        return Err(e);
                    },
                    Ok(b) => b,
                };
                let w3_b: Vec<T> = match need(w3.bias, "fast_block: w3") {
                    Err(e) => {
                        return Err(e);
                    },
                    Ok(b) => b,
                };
                FastFfn::Swiglu {
                    w12_w: pack_b_nt(embed, 2 * hidden, w12.weight.as_slice()),
                    w12_b,
                    w3_w: pack_b_nt(hidden, embed, w3.weight.as_slice()),
                    w3_b,
                    hidden,
                }
            },
        };
        Ok(
            FastVitBlock {
                norm1_w: raw.norm1.weight,
                norm1_b,
                attn,
                ls1: raw.ls1,
                norm2_w: raw.norm2.weight,
                norm2_b,
                ffn,
                ls2: raw.ls2,
                embed,
                ln_eps,
            },
        )
    }
}

} // verus!
