//! Point clouds in world space, and percentiles of what they hold.

use crate::scalar::{Analytic, Scalar, Widens};
use crate::sort::{quantile_at, quantile_of};
use vstd::prelude::*;

verus! {

/// Points seen by the frames, frame by frame.
pub struct WorldPoints<S> {
    /// Three coordinates per point.
    pub xyz: Vec<S>,
    /// Three bytes per point.
    pub rgb: Vec<u8>,
    /// The frame that saw the point.
    pub frame: Vec<usize>,
    /// The pixel column in that frame.
    pub u: Vec<usize>,
    /// The pixel row in that frame.
    pub v: Vec<usize>,
}

/// The percentile `p` of some numbers, from 0 to 100.
pub open spec fn percentile_of<S: Scalar, D: Widens<S> + Analytic>(v: Seq<S>, p: D) -> D {
    quantile_of::<S, D>(v, p.over_spec(D::ratio_spec(100, 1)))
}

/// The percentile `p` of some numbers, from 0 to 100, between neighbours by
/// linear interpolation.
pub fn percentile_linear<S: Scalar, D: Widens<S> + Analytic>(v: &[S], p: D) -> (r: D)
    ensures
        r == percentile_of::<S, D>(v@, p),
{
    quantile_at(v, p.over(D::ratio(100, 1)))
}

} // verus!
