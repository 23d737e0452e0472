//! Convolutions of the decoder: 3x3 with padding 1, by Winograd transforms or by
//! a matrix product, and 1x1.
//!
//! Images are row-major `[channels, height, width]` buffers, batches are images
//! one after the other, filters are `[out, in, 3, 3]` or `[out, in]`.

use crate::config::same_text;
use crate::index::{
    accumulate, lemma_accumulate_agree, lemma_factor, lemma_join, lemma_product_grows,
    lemma_row_within, lemma_split, lemma_within,
};
use crate::scalar::{one, relu, zero, Scalar};
use crate::tinyblas::{gemm_at, gemm_nn_into, gemm_term};
use crate::winograd::{two_pass, two_pass_spec, Transform, WinoPolicy, F2, F4};
use vstd::prelude::*;

verus! {

// ---- what to run ----------------------------------------------------------

/// Whether a setting reads as switched on.
pub open spec fn switched_on(value: Option<Seq<char>>) -> bool {
    match value {
        Some(s) => s == "1"@ || s == "on"@ || s == "true"@ || s == "ON"@ || s == "TRUE"@ || s
            == "True"@,
        None => false,
    }
}

/// Whether a setting reads as switched on.
pub fn is_on(value: Option<&str>) -> (r: bool)
    ensures
        r == switched_on(
            match value {
                Some(s) => Some(s@),
                None => None,
            },
        ),
{
    match value {
        Some(s) => same_text(s, "1") || same_text(s, "on") || same_text(s, "true") || same_text(
            s,
            "ON",
        ) || same_text(s, "TRUE") || same_text(s, "True"),
        None => false,
    }
}

/// Whether the buffer-based head is enabled, by the value of `DA_FAST_HEAD`.
pub fn fast_head_enabled(value: Option<&str>) -> (r: bool)
    ensures
        r == switched_on(
            match value {
                Some(s) => Some(s@),
                None => None,
            },
        ),
{
    is_on(value)
}

/// How 3x3 convolutions are computed.
#[derive(Clone, Copy, Debug, PartialEq, Eq, Structural)]
pub enum Conv3x3Mode {
    Auto,
    Direct,
    Wino,
}

/// A forced choice of Winograd tile size.
#[derive(Clone, Copy, Debug, PartialEq, Eq, Structural)]
pub enum WinoMode {
    Auto,
    F2,
    F4,
}

/// A Winograd tile size.
#[derive(Clone, Copy, Debug, PartialEq, Eq, Structural)]
pub enum WinoChoice {
    F2,
    F4,
}

/// Settings of the 3x3 kernels.
#[derive(Clone, Copy, Debug, PartialEq, Eq, Structural)]
pub struct ConvOptions {
    pub conv3x3: Conv3x3Mode,
    pub wino: WinoMode,
}

impl Default for ConvOptions {
    fn default() -> (r: Self)
        ensures
            r.conv3x3 == Conv3x3Mode::Auto,
            r.wino == WinoMode::Auto,
    {
        ConvOptions { conv3x3: Conv3x3Mode::Auto, wino: WinoMode::Auto }
    }
}

impl ConvOptions {
    /// The settings that the values of `DA_FAST_CONV3X3` and
    /// `DA_FAST_CONV3X3_WINO` stand for.
    pub fn parse(conv3x3: Option<&str>, wino: Option<&str>) -> (r: Self)
        ensures
            r.conv3x3 == (match conv3x3 {
                Some(s) => if s@ == "direct"@ {
                    Conv3x3Mode::Direct
                } else if s@ == "wino"@ {
                    Conv3x3Mode::Wino
                } else {
                    Conv3x3Mode::Auto
                },
                None => Conv3x3Mode::Auto,
            }),
            r.wino == (match wino {
                Some(s) => if s@ == "f2"@ {
                    WinoMode::F2
                } else if s@ == "f4"@ {
                    WinoMode::F4
                } else {
                    WinoMode::Auto
                },
                None => WinoMode::Auto,
            }),
    {
        let kernel: Conv3x3Mode = match conv3x3 {
            Some(s) => if same_text(s, "direct") {
                Conv3x3Mode::Direct
            } else if same_text(s, "wino") {
                Conv3x3Mode::Wino
            } else {
                Conv3x3Mode::Auto
            },
            None => Conv3x3Mode::Auto,
        };
        let tile: WinoMode = match wino {
            Some(s) => if same_text(s, "f2") {
                WinoMode::F2
            } else if same_text(s, "f4") {
                WinoMode::F4
            } else {
                WinoMode::Auto
            },
            None => WinoMode::Auto,
        };
        ConvOptions { conv3x3: kernel, wino: tile }
    }
}

/// The tile size for an output of `hout x wout` pixels: the larger tiles from
/// 2048 pixels on, unless a choice is forced.
pub open spec fn wino_choice(mode: WinoMode, hout: int, wout: int) -> WinoChoice {
    match mode {
        WinoMode::F2 => WinoChoice::F2,
        WinoMode::F4 => WinoChoice::F4,
        WinoMode::Auto => if hout * wout >= 2048 {
            WinoChoice::F4
        } else {
            WinoChoice::F2
        },
    }
}

/// Selects the tile size for an output of `hout x wout` pixels.
pub fn select_wino_policy(mode: WinoMode, hout: usize, wout: usize) -> (r: WinoChoice)
    requires
        hout * wout <= usize::MAX,
    ensures
        r == wino_choice(mode, hout as int, wout as int),
{
    match mode {
        WinoMode::F2 => WinoChoice::F2,
        WinoMode::F4 => WinoChoice::F4,
        WinoMode::Auto => if hout * wout >= 2048 {
            WinoChoice::F4
        } else {
            WinoChoice::F2
        },
    }
}

/// Columns of one panel of [`conv1x1_upsample`] when panels are handed out to
/// `nthreads` threads: what fits half a mebibyte of `ic`-row strips, in whole
/// groups of `nr`, but no fewer than it takes to give each thread at most two
/// panels, and no more than `hw`.
pub fn conv1x1_upsample_nc(ic: usize, hw: usize, nr: usize, nthreads: usize) -> (r: usize)
    requires
        0 < nr,
        ic <= usize::MAX / 4,
        nthreads <= usize::MAX / 2,
    ensures
        ({
            let rows = if ic == 0 {
                1
            } else {
                ic as int
            };
            let threads = if nthreads == 0 {
                1
            } else {
                nthreads as int
            };
            let fit = 524288int / (rows * 4);
            let budget = if fit < nr {
                nr as int
            } else {
                fit
            };
            let whole = (budget / nr as int) * nr;
            let share = (if hw == 0 {
                0
            } else {
                hw - 1
            }) / (2 * threads) + 1;
            let wide = if whole < share {
                share
            } else {
                whole
            };
            r == (if wide < hw {
                wide
            } else {
                hw as int
            })
        }),
{
    let rows: usize = if ic == 0 {
        1
    } else {
        ic
    };
    let threads: usize = if nthreads == 0 {
        1
    } else {
        nthreads
    };
    let fit: usize = 524288 / (rows * 4);
    let budget: usize = if fit < nr {
        nr
    } else {
        fit
    };
    proof {
        lemma_join(budget as int, nr as int);
    }
    let whole: usize = (budget / nr) * nr;
    let last: usize = if hw == 0 {
        0
    } else {
        hw - 1
    };
    proof {
        assert(last as int / (2 * threads) <= last) by (nonlinear_arith)
            requires
                last >= 0,
                threads > 0,
        ;
        assert(last as int / (2 * threads) < usize::MAX) by (nonlinear_arith)
            requires
                0 <= last <= usize::MAX,
                threads > 0,
        ;
    }
    let share: usize = last / (2 * threads) + 1;
    let wide: usize = if whole < share {
        share
    } else {
        whole
    };
    if wide < hw {
        wide
    } else {
        hw
    }
}

// ---- reading pixels --------------------------------------------------------

/// Where an upsampled position reads: two neighbours and the weight of the
/// second.
pub struct Tap<T> {
    pub lo: usize,
    pub hi: usize,
    pub weight: T,
}

impl<T: Copy> Clone for Tap<T> {
    fn clone(&self) -> (r: Self)
        ensures
            r == *self,
    {
        Tap { lo: self.lo, hi: self.hi, weight: self.weight }
    }
}

impl<T: Copy> Copy for Tap<T> {

}

/// Distance between neighbouring output positions, in input positions, when the
/// corners of both grids are aligned.
pub open spec fn corner_scale<T: Scalar>(lo_len: int, up_len: int) -> T {
    if up_len > 1 {
        T::from_count_spec((lo_len - 1) as usize).over_spec(
            T::from_count_spec((up_len - 1) as usize),
        )
    } else {
        zero()
    }
}

/// Where output position `o` reads when `lo_len` positions become `up_len`.
pub open spec fn tap_at<T: Scalar>(lo_len: int, up_len: int, o: int) -> Tap<T> {
    let f = T::from_count_spec(o as usize).times_spec(corner_scale(lo_len, up_len));
    let k = f.floor_count_spec() as int;
    let lo = if k < lo_len {
        k
    } else {
        lo_len - 1
    };
    let hi = if lo + 1 < lo_len {
        lo + 1
    } else {
        lo_len - 1
    };
    Tap { lo: lo as usize, hi: hi as usize, weight: f.minus_spec(T::from_count_spec(lo as usize)) }
}

/// The taps of all output positions along one axis.
pub fn make_taps<T: Scalar>(lo_len: usize, up_len: usize) -> (r: Vec<Tap<T>>)
    requires
        0 < lo_len,
    ensures
        r.len() == up_len,
        forall|o: int|
            0 <= o < up_len ==> #[trigger] r[o] == tap_at::<T>(lo_len as int, up_len as int, o),
        forall|o: int| 0 <= o < up_len ==> (#[trigger] r[o]).lo < lo_len && r[o].hi < lo_len,
{
    let scale: T = if up_len > 1 {
        T::from_count(lo_len - 1).over(T::from_count(up_len - 1))
    } else {
        T::ratio(0, 1)
    };
    let mut r: Vec<Tap<T>> = Vec::new();
    let mut o: usize = 0;
    while o < up_len
        invariant
            o <= up_len,
            0 < lo_len,
            scale == corner_scale::<T>(lo_len as int, up_len as int),
            r.len() == o,
            forall|k: int|
                0 <= k < o ==> #[trigger] r[k] == tap_at::<T>(lo_len as int, up_len as int, k),
            forall|k: int| 0 <= k < o ==> (#[trigger] r[k]).lo < lo_len && r[k].hi < lo_len,
        decreases up_len - o,
    {
        let f: T = T::from_count(o).times(scale);
        let k: usize = f.floor_count();
        let lo: usize = if k < lo_len {
            k
        } else {
            lo_len - 1
        };
        let hi: usize = if lo + 1 < lo_len {
            lo + 1
        } else {
            lo_len - 1
        };
        r.push(Tap { lo, hi, weight: f.minus(T::from_count(lo)) });
        o = o + 1;
    }
    r
}

/// The tables of a bilinear upsample with aligned corners.
pub struct UpsampleSpec<T> {
    pub xtab: Vec<Tap<T>>,
    pub ytab: Vec<Tap<T>>,
    pub up_h: usize,
    pub up_w: usize,
}

impl<T: Scalar> UpsampleSpec<T> {
    /// The tables are those of an upsample from `h x w`.
    pub open spec fn of(&self, h: int, w: int) -> bool {
        &&& self.xtab.len() == self.up_w
        &&& self.ytab.len() == self.up_h
        &&& forall|o: int|
            0 <= o < self.up_w ==> #[trigger] self.xtab[o] == tap_at::<T>(w, self.up_w as int, o)
        &&& forall|o: int|
            0 <= o < self.up_h ==> #[trigger] self.ytab[o] == tap_at::<T>(h, self.up_h as int, o)
        &&& forall|o: int|
            0 <= o < self.up_w ==> (#[trigger] self.xtab[o]).lo < w && self.xtab[o].hi < w
        &&& forall|o: int|
            0 <= o < self.up_h ==> (#[trigger] self.ytab[o]).lo < h && self.ytab[o].hi < h
    }

    /// Tables for `h_lo x w_lo` to `up_h x up_w`.
    pub fn new_ac(h_lo: usize, w_lo: usize, up_h: usize, up_w: usize) -> (r: Self)
        requires
            0 < h_lo,
            0 < w_lo,
        ensures
            r.of(h_lo as int, w_lo as int),
            r.up_h == up_h,
            r.up_w == up_w,
    {
        UpsampleSpec {
            xtab: make_taps(w_lo, up_w),
            ytab: make_taps(h_lo, up_h),
            up_h,
            up_w,
        }
    }
}

/// Four neighbours blended along x and then along y.
pub open spec fn blend<T: Scalar>(p00: T, p01: T, p10: T, p11: T, wx: T, wy: T) -> T {
    let top = p00.times_spec(one::<T>().minus_spec(wx)).plus_spec(p01.times_spec(wx));
    let bot = p10.times_spec(one::<T>().minus_spec(wx)).plus_spec(p11.times_spec(wx));
    top.times_spec(one::<T>().minus_spec(wy)).plus_spec(bot.times_spec(wy))
}

fn blended<T: Scalar>(p00: T, p01: T, p10: T, p11: T, wx: T, wy: T) -> (r: T)
    ensures
        r == blend(p00, p01, p10, p11, wx, wy),
{
    let unit: T = T::ratio(1, 1);
    let top: T = p00.times(unit.minus(wx)).plus(p01.times(wx));
    let bot: T = p10.times(unit.minus(wx)).plus(p11.times(wx));
    top.times(unit.minus(wy)).plus(bot.times(wy))
}

/// Pixel `(y, x)` of channel `ch` of an image.
pub open spec fn pixel<T>(data: Seq<T>, h: int, w: int, ch: int, y: int, x: int) -> T {
    data[(ch * h + y) * w + x]
}

/// Reads pixel `(y, x)` of channel `ch`.
pub(crate) fn pixel_at<T: Scalar>(
    data: &[T],
    channels: Ghost<int>,
    h: usize,
    w: usize,
    ch: usize,
    y: usize,
    x: usize,
) -> (r: T)
    requires
        data.len() == channels@ * h * w,
        ch < channels@,
        y < h,
        x < w,
    ensures
        r == pixel(data@, h as int, w as int, ch as int, y as int, x as int),
        0 <= (ch * h + y) * w + x < data.len(),
{
    proof {
        lemma_within(ch as int, channels@, y as int, h as int);
        lemma_within(ch * h + y, channels@ * h, x as int, w as int);
        lemma_factor(ch * h + y, w as int);
    }
    data[(ch * h + y) * w + x]
}

/// Pixel `(y, x)` of channel `ch` of the upsampled image.
pub open spec fn upsampled<T: Scalar>(
    data: Seq<T>,
    h: int,
    w: int,
    up_h: int,
    up_w: int,
    ch: int,
    y: int,
    x: int,
) -> T {
    let ty = tap_at::<T>(h, up_h, y);
    let tx = tap_at::<T>(w, up_w, x);
    blend(
        pixel(data, h, w, ch, ty.lo as int, tx.lo as int),
        pixel(data, h, w, ch, ty.lo as int, tx.hi as int),
        pixel(data, h, w, ch, ty.hi as int, tx.lo as int),
        pixel(data, h, w, ch, ty.hi as int, tx.hi as int),
        tx.weight,
        ty.weight,
    )
}

/// An upsample folded into the reading of a convolution's input, with a tensor
/// to add at the upsampled size.
pub struct UpsampleFusion<'a, T> {
    pub spec: &'a UpsampleSpec<T>,
    pub add: Option<&'a [T]>,
}

/// One image as a convolution reads it.
pub struct Source<'a, T> {
    pub data: &'a [T],
    pub ic: usize,
    pub h: usize,
    pub w: usize,
    /// Negative pixels read as zero.
    pub relu: bool,
    /// Read the upsampled image instead.
    pub up: Option<&'a UpsampleFusion<'a, T>>,
}

/// What a convolution reads: an image, or an upsampled one.
pub struct Input<T> {
    pub data: Seq<T>,
    pub h: int,
    pub w: int,
    /// Negative pixels read as zero.
    pub relu: bool,
    /// The size to upsample to.
    pub up: Option<(int, int)>,
    /// A tensor to add to the upsampled image.
    pub add: Option<Seq<T>>,
}

impl<T: Scalar> Input<T> {
    /// Pixel `(y, x)` of channel `ch`, zero outside the image.
    pub open spec fn at(&self, ch: int, y: int, x: int) -> T {
        match self.up {
            None => if 0 <= y < self.h && 0 <= x < self.w {
                let v = pixel(self.data, self.h, self.w, ch, y, x);
                if self.relu {
                    relu(v)
                } else {
                    v
                }
            } else {
                zero()
            },
            Some(size) => if 0 <= y < size.0 && 0 <= x < size.1 {
                let v = upsampled(self.data, self.h, self.w, size.0, size.1, ch, y, x);
                match self.add {
                    None => v,
                    Some(add) => v.plus_spec(pixel(add, size.0, size.1, ch, y, x)),
                }
            } else {
                zero()
            },
        }
    }
}

impl<'a, T: Scalar> View for Source<'a, T> {
    type V = Input<T>;

    open spec fn view(&self) -> Input<T> {
        Input {
            data: self.data@,
            h: self.h as int,
            w: self.w as int,
            relu: self.relu,
            up: fusion_size(self.up),
            add: fusion_add(self.up),
        }
    }
}

impl<'a, T: Scalar> Source<'a, T> {
    /// The lengths agree.
    pub open spec fn wf(&self) -> bool {
        &&& self.data.len() == self.ic * self.h * self.w
        &&& match self.up {
            None => true,
            Some(f) => {
                &&& f.spec.of(self.h as int, self.w as int)
                &&& match f.add {
                    None => true,
                    Some(add) => add.len() == self.ic * f.spec.up_h * f.spec.up_w,
                }
            },
        }
    }

    /// The pixel one up and one left of `(y1, x1)`.
    pub fn read(&self, ch: usize, y1: usize, x1: usize) -> (r: T)
        requires
            self.wf(),
            ch < self.ic,
        ensures
            r == self@.at(ch as int, y1 - 1, x1 - 1),
    {
        if y1 == 0 || x1 == 0 {
            return T::ratio(0, 1);
        }
        let y: usize = y1 - 1;
        let x: usize = x1 - 1;
        match self.up {
            None => {
                if y < self.h && x < self.w {
                    let v: T = pixel_at(
                        self.data,
                        Ghost(self.ic as int),
                        self.h,
                        self.w,
                        ch,
                        y,
                        x,
                    );
                    if self.relu {
                        v.larger(T::ratio(0, 1))
                    } else {
                        v
                    }
                } else {
                    T::ratio(0, 1)
                }
            },
            Some(f) => {
                if y < f.spec.up_h && x < f.spec.up_w {
                    let ty: Tap<T> = f.spec.ytab[y];
                    let tx: Tap<T> = f.spec.xtab[x];
                    let ic: Ghost<int> = Ghost(self.ic as int);
                    let p00: T = pixel_at(self.data, ic, self.h, self.w, ch, ty.lo, tx.lo);
                    let p01: T = pixel_at(self.data, ic, self.h, self.w, ch, ty.lo, tx.hi);
                    let p10: T = pixel_at(self.data, ic, self.h, self.w, ch, ty.hi, tx.lo);
                    let p11: T = pixel_at(self.data, ic, self.h, self.w, ch, ty.hi, tx.hi);
                    let v: T = blended(p00, p01, p10, p11, tx.weight, ty.weight);
                    match f.add {
                        None => v,
                        Some(add) => v.plus(
                            pixel_at(add, ic, f.spec.up_h, f.spec.up_w, ch, y, x),
                        ),
                    }
                } else {
                    T::ratio(0, 1)
                }
            },
        }
    }
}

// ---- Winograd ---------------------------------------------------------------

/// The 3x3 filter number `f` of a filter bank.
pub open spec fn filter<T>(w: Seq<T>, f: int) -> Seq<T> {
    w.subrange(f * 9, f * 9 + 9)
}

/// The input tile of channel `ch` for output tile `(ty, tx)` of side `t`: the
/// `t + 2` square that starts one up and one left of the output tile.
pub open spec fn patch<T: Scalar>(input: Input<T>, t: int, ch: int, ty: int, tx: int) -> Seq<T> {
    Seq::new(
        ((t + 2) * (t + 2)) as nat,
        |e: int| input.at(ch, ty * t + e / (t + 2) - 1, tx * t + e % (t + 2) - 1),
    )
}

/// Channel `i`'s share of position `pos` of a tile in the transformed domain.
pub open spec fn wino_term<T: Scalar, W: WinoPolicy<T>>(
    input: Input<T>,
    w: Seq<T>,
    ic: int,
    o: int,
    ty: int,
    tx: int,
    pos: int,
) -> spec_fn(int) -> T {
    |i: int|
        two_pass_spec::<T, W::Filt>(filter(w, o * ic + i))[pos].times_spec(
            two_pass_spec::<T, W::Inp>(patch(input, W::tile() as int, i, ty, tx))[pos],
        )
}

/// Output tile `(ty, tx)` of channel `o`, before bias.
pub open spec fn wino_tile<T: Scalar, W: WinoPolicy<T>>(
    input: Input<T>,
    w: Seq<T>,
    ic: int,
    o: int,
    ty: int,
    tx: int,
) -> Seq<T> {
    let side = W::tile() + 2;
    two_pass_spec::<T, W::Outp>(
        Seq::new(
            side * side,
            |pos: int|
                accumulate(
                    zero(),
                    wino_term::<T, W>(input, w, ic, o, ty, tx, pos),
                    ic as nat,
                ),
        ),
    )
}

/// A value with the residual's element `p` added and negative results cut off,
/// where asked for.
pub open spec fn finish<T: Scalar>(v: T, residual: Option<Seq<T>>, p: int, relu_out: bool) -> T {
    let sum = match residual {
        Some(r) => v.plus_spec(r[p]),
        None => v,
    };
    if relu_out {
        relu(sum)
    } else {
        sum
    }
}

/// Element `q` of the convolution of one image by Winograd transforms, before
/// the residual.
pub open spec fn wino_at<T: Scalar, W: WinoPolicy<T>>(
    input: Input<T>,
    w: Seq<T>,
    b: Seq<T>,
    ic: int,
    hout: int,
    wout: int,
    q: int,
) -> T {
    let hw = hout * wout;
    let o = q / hw;
    let y = (q % hw) / wout;
    let x = (q % hw) % wout;
    let t = W::tile() as int;
    wino_tile::<T, W>(input, w, ic, o, y / t, x / t)[(y % t) * t + x % t].plus_spec(b[o])
}

/// The transformed filters, position by position: element
/// `(pos * ic + i) * oc + o` belongs to filter `(o, i)`.
pub fn build_u<T: Scalar, W: WinoPolicy<T>>(w: &[T], ic: usize, oc: usize) -> (u: Vec<T>)
    requires
        w.len() == oc * ic * 9,
        ic * oc * 36 <= usize::MAX,
        0 < ic,
        0 < oc,
    ensures
        u.len() == (W::tile() + 2) * (W::tile() + 2) * ic * oc,
        forall|q: int|
            0 <= q < u.len() ==> #[trigger] u[q] == two_pass_spec::<T, W::Filt>(
                filter(w@, (q % oc as int) * ic + (q / oc as int) % ic as int),
            )[(q / oc as int) / ic as int],
{
    let side: usize = W::ot() + 2;
    assert(side * side <= 36) by (nonlinear_arith)
        requires
            0 < side <= 6,
    ;
    let p: usize = side * side;
    let filters: usize = {
        proof {
            assert(oc * ic == ic * oc) by (nonlinear_arith);
        }
        oc * ic
    };
    let mut tiles: Vec<Vec<T>> = Vec::new();
    let mut f: usize = 0;
    while f < filters
        invariant
            f <= filters,
            w.len() == filters * 9,
            tiles.len() == f,
            W::Filt::width_in() == 3,
            W::Filt::width_out() == side,
            p == side * side,
            forall|k: int|
                0 <= k < f ==> #[trigger] tiles[k]@ == two_pass_spec::<T, W::Filt>(filter(w@, k))
                    && tiles[k].len() == p,
        decreases filters - f,
    {
        let g: &[T] = &w[f * 9..f * 9 + 9];
        assert(g@ =~= filter(w@, f as int));
        let tile: Vec<T> = two_pass::<T, W::Filt>(g);
        tiles.push(tile);
        f = f + 1;
    }
    proof {
        assert(p * ic * oc <= 36 * (ic * oc) && p * ic * oc == (p * ic) * oc) by (nonlinear_arith)
            requires
                0 <= p <= 36,
        ;
        assert(p * ic <= p * ic * oc) by (nonlinear_arith)
            requires
                0 < oc,
                0 <= p * ic,
        ;
        assert(0 <= p * ic) by (nonlinear_arith);
    }
    let total: usize = p * ic * oc;
    let mut u: Vec<T> = Vec::new();
    let mut q: usize = 0;
    while q < total
        invariant
            q <= total,
            total == (p * ic) * oc,
            filters == oc * ic,
            tiles.len() == filters,
            0 < ic,
            0 < oc,
            forall|k: int|
                0 <= k < filters ==> #[trigger] tiles[k]@ == two_pass_spec::<T, W::Filt>(
                    filter(w@, k),
                ) && tiles[k].len() == p,
            u.len() == q,
            forall|k: int|
                0 <= k < q ==> #[trigger] u[k] == two_pass_spec::<T, W::Filt>(
                    filter(w@, (k % oc as int) * ic + (k / oc as int) % ic as int),
                )[(k / oc as int) / ic as int],
        decreases total - q,
    {
        proof {
            lemma_row_within(q as int, p * ic, oc as int);
            lemma_row_within((q / oc) as int, p as int, ic as int);
            lemma_within((q % oc) as int, oc as int, ((q / oc) % ic) as int, ic as int);
        }
        let o: usize = q % oc;
        let i: usize = (q / oc) % ic;
        let pos: usize = (q / oc) / ic;
        u.push(tiles[o * ic + i][pos]);
        q = q + 1;
    }
    u
}

/// The transformed input tiles of all channels for output tile `(ty, tx)`.
fn transform_inputs<T: Scalar, W: WinoPolicy<T>>(
    src: &Source<T>,
    ty: usize,
    tx: usize,
) -> (v: Vec<Vec<T>>)
    requires
        src.wf(),
        (ty + 1) * W::tile() + 2 <= usize::MAX,
        (tx + 1) * W::tile() + 2 <= usize::MAX,
    ensures
        v.len() == src.ic,
        forall|i: int|
            0 <= i < src.ic ==> #[trigger] v[i]@ == two_pass_spec::<T, W::Inp>(
                patch(src@, W::tile() as int, i, ty as int, tx as int),
            ) && v[i].len() == (W::tile() + 2) * (W::tile() + 2),
{
    let t: usize = W::ot();
    let side: usize = t + 2;
    proof {
        assert((ty + 1) * t == ty * t + t && (tx + 1) * t == tx * t + t) by (nonlinear_arith);
        assert(0 <= ty * t && 0 <= tx * t) by (nonlinear_arith);
    }
    let y0: usize = ty * t;
    let x0: usize = tx * t;
    let mut v: Vec<Vec<T>> = Vec::new();
    let mut i: usize = 0;
    while i < src.ic
        invariant
            i <= src.ic,
            src.wf(),
            t == W::tile(),
            0 < t <= 4,
            side == t + 2,
            y0 == ty * t,
            x0 == tx * t,
            y0 + side <= usize::MAX,
            x0 + side <= usize::MAX,
            W::Inp::width_in() == side,
            W::Inp::width_out() == side,
            v.len() == i,
            forall|k: int|
                0 <= k < i ==> #[trigger] v[k]@ == two_pass_spec::<T, W::Inp>(
                    patch(src@, t as int, k, ty as int, tx as int),
                ) && v[k].len() == side * side,
        decreases src.ic - i,
    {
        let mut d: Vec<T> = Vec::new();
        let mut e: usize = 0;
        assert(side * side <= 36) by (nonlinear_arith)
            requires
                0 < side <= 6,
        ;
        while e < side * side
            invariant
                e <= side * side,
                side * side <= 36,
                i < src.ic,
                src.wf(),
                0 < t <= 4,
                side == t + 2,
                y0 == ty * t,
                x0 == tx * t,
                y0 + side <= usize::MAX,
                x0 + side <= usize::MAX,
                d.len() == e,
                forall|k: int|
                    0 <= k < e ==> #[trigger] d[k] == src@.at(
                        i as int,
                        ty * t + k / (t + 2) - 1,
                        tx * t + k % (t + 2) - 1,
                    ),
            decreases side * side - e,
        {
            proof {
                lemma_row_within(e as int, side as int, side as int);
            }
            d.push(src.read(i, y0 + e / side, x0 + e % side));
            e = e + 1;
        }
        assert(d@ =~= patch(src@, t as int, i as int, ty as int, tx as int));
        v.push(two_pass::<T, W::Inp>(d.as_slice()));
        i = i + 1;
    }
    v
}

/// The products of transformed filters and inputs of output channel `o`, summed
/// over the input channels, at every position of a tile.
fn wino_gemm<T: Scalar, W: WinoPolicy<T>>(
    u: &Vec<T>,
    v: &Vec<Vec<T>>,
    ic: usize,
    oc: usize,
    o: usize,
    input: Ghost<Input<T>>,
    w: Ghost<Seq<T>>,
    ty: Ghost<int>,
    tx: Ghost<int>,
) -> (m: Vec<T>)
    requires
        o < oc,
        u.len() == (W::tile() + 2) * (W::tile() + 2) * ic * oc,
        forall|q: int|
            0 <= q < u.len() ==> #[trigger] u[q] == two_pass_spec::<T, W::Filt>(
                filter(w@, (q % oc as int) * ic + (q / oc as int) % ic as int),
            )[(q / oc as int) / ic as int],
        v.len() == ic,
        forall|i: int|
            0 <= i < ic ==> #[trigger] v[i]@ == two_pass_spec::<T, W::Inp>(
                patch(input@, W::tile() as int, i, ty@, tx@),
            ) && v[i].len() == (W::tile() + 2) * (W::tile() + 2),
    ensures
        m.len() == (W::tile() + 2) * (W::tile() + 2),
        forall|pos: int|
            0 <= pos < m.len() ==> #[trigger] m[pos] == accumulate(
                zero(),
                wino_term::<T, W>(input@, w@, ic as int, o as int, ty@, tx@, pos),
                ic as nat,
            ),
{
    let side: usize = W::ot() + 2;
    assert(side * side <= 36) by (nonlinear_arith)
        requires
            0 < side <= 6,
    ;
    let p: usize = side * side;
    let mut m: Vec<T> = Vec::new();
    let mut pos: usize = 0;
    while pos < p
        invariant
            pos <= p,
            o < oc,
            p == (W::tile() + 2) * (W::tile() + 2),
            u.len() == p * ic * oc,
            forall|q: int|
                0 <= q < u.len() ==> #[trigger] u[q] == two_pass_spec::<T, W::Filt>(
                    filter(w@, (q % oc as int) * ic + (q / oc as int) % ic as int),
                )[(q / oc as int) / ic as int],
            v.len() == ic,
            forall|i: int|
                0 <= i < ic ==> #[trigger] v[i]@ == two_pass_spec::<T, W::Inp>(
                    patch(input@, W::tile() as int, i, ty@, tx@),
                ) && v[i].len() == p,
            m.len() == pos,
            forall|k: int|
                0 <= k < pos ==> #[trigger] m[k] == accumulate(
                    zero(),
                    wino_term::<T, W>(input@, w@, ic as int, o as int, ty@, tx@, k),
                    ic as nat,
                ),
        decreases p - pos,
    {
        let ghost term = wino_term::<T, W>(
            input@,
            w@,
            ic as int,
            o as int,
            ty@,
            tx@,
            pos as int,
        );
        let mut acc: T = T::ratio(0, 1);
        let mut i: usize = 0;
        while i < ic
            invariant
                i <= ic,
                pos < p,
                o < oc,
                u.len() == p * ic * oc,
                forall|q: int|
                    0 <= q < u.len() ==> #[trigger] u[q] == two_pass_spec::<T, W::Filt>(
                        filter(w@, (q % oc as int) * ic + (q / oc as int) % ic as int),
                    )[(q / oc as int) / ic as int],
                v.len() == ic,
                forall|k: int|
                    0 <= k < ic ==> #[trigger] v[k]@ == two_pass_spec::<T, W::Inp>(
                        patch(input@, W::tile() as int, k, ty@, tx@),
                    ) && v[k].len() == p,
                term == wino_term::<T, W>(
                    input@,
                    w@,
                    ic as int,
                    o as int,
                    ty@,
                    tx@,
                    pos as int,
                ),
                acc == accumulate(zero(), term, i as nat),
            decreases ic - i,
        {
            proof {
                lemma_within(pos as int, p as int, i as int, ic as int);
                lemma_within(pos * ic + i, p * ic, o as int, oc as int);
                lemma_factor(pos * ic + i, oc as int);
                lemma_split(pos * ic + i, oc as int, o as int);
                lemma_split(pos as int, ic as int, i as int);
            }
            let at: usize = (pos * ic + i) * oc + o;
            assert(v[i as int]@ == two_pass_spec::<T, W::Inp>(
                patch(input@, W::tile() as int, i as int, ty@, tx@),
            ));
            acc = acc.plus(u[at].times(v[i][pos]));
            i = i + 1;
        }
        m.push(acc);
        pos = pos + 1;
    }
    m
}

/// How many tiles of side `t` cover `len` pixels.
pub open spec fn tiles_over(len: int, t: int) -> int {
    (len + t - 1) / t
}

fn count_tiles(len: usize, t: usize) -> (r: usize)
    requires
        0 < t <= 4,
        len <= 0x7fff_ffff,
    ensures
        r == tiles_over(len as int, t as int),
        r <= len,
        forall|y: int| 0 <= y < len ==> #[trigger] (y / t as int) < r,
{
    let r: usize = (len + t - 1) / t;
    proof {
        assert(r <= len) by (nonlinear_arith)
            requires
                r == (len + t - 1) as int / t as int,
                0 < t <= 4,
                0 <= len,
        ;
        assert forall|y: int| 0 <= y < len implies #[trigger] (y / t as int) < r by {
            assert((y / t as int) < r) by (nonlinear_arith)
                requires
                    r == (len + t - 1) as int / t as int,
                    0 < t <= 4,
                    0 <= y < len,
            ;
        }
    }
    r
}

/// The convolution of one image by Winograd transforms, tile by tile, with bias.
fn wino_image<T: Scalar, W: WinoPolicy<T>>(
    src: &Source<T>,
    w: Ghost<Seq<T>>,
    u: &Vec<T>,
    b: &[T],
    oc: usize,
    hout: usize,
    wout: usize,
) -> (out: Vec<T>)
    requires
        src.wf(),
        b.len() == oc,
        hout <= 0x7fff_ffff,
        wout <= 0x7fff_ffff,
        hout * wout <= usize::MAX,
        oc * (hout * wout) <= usize::MAX,
        u.len() == (W::tile() + 2) * (W::tile() + 2) * src.ic * oc,
        forall|q: int|
            0 <= q < u.len() ==> #[trigger] u[q] == two_pass_spec::<T, W::Filt>(
                filter(w@, (q % oc as int) * src.ic + (q / oc as int) % src.ic as int),
            )[(q / oc as int) / src.ic as int],
    ensures
        out.len() == oc * (hout * wout),
        forall|q: int|
            0 <= q < out.len() ==> #[trigger] out[q] == wino_at::<T, W>(
                src@,
                w@,
                b@,
                src.ic as int,
                hout as int,
                wout as int,
                q,
            ),
{
    let t: usize = W::ot();
    let ic: usize = src.ic;
    let tiles_x: usize = count_tiles(wout, t);
    let tiles_y: usize = count_tiles(hout, t);
    proof {
        lemma_product_grows(tiles_y as int, hout as int, tiles_x as int, wout as int);
        lemma_product_grows(tiles_y * tiles_x, hout * wout, oc as int, oc as int);
        assert((hout * wout) * oc == oc * (hout * wout)) by (nonlinear_arith);
    }
    let ntiles: usize = tiles_y * tiles_x;
    let mut ys: Vec<Vec<T>> = Vec::new();
    let mut k: usize = 0;
    assert(0 * oc == 0);
    while k < ntiles
        invariant
            k <= ntiles,
            t == W::tile(),
            0 < t <= 4,
            W::Outp::width_in() == t + 2,
            W::Outp::width_out() == t,
            src.wf(),
            ic == src.ic,
            ntiles == tiles_y * tiles_x,
            tiles_y == tiles_over(hout as int, t as int),
            tiles_x == tiles_over(wout as int, t as int),
            hout <= 0x7fff_ffff,
            wout <= 0x7fff_ffff,
            ntiles * oc <= usize::MAX,
            u.len() == (t + 2) * (t + 2) * ic * oc,
            forall|q: int|
                0 <= q < u.len() ==> #[trigger] u[q] == two_pass_spec::<T, W::Filt>(
                    filter(w@, (q % oc as int) * ic + (q / oc as int) % ic as int),
                )[(q / oc as int) / ic as int],
            ys.len() == k * oc,
            forall|j: int|
                0 <= j < k * oc ==> #[trigger] ys[j]@ == wino_tile::<T, W>(
                    src@,
                    w@,
                    ic as int,
                    j % oc as int,
                    (j / oc as int) / tiles_x as int,
                    (j / oc as int) % tiles_x as int,
                ) && ys[j].len() == t * t,
        decreases ntiles - k,
    {
        proof {
            if tiles_x == 0 {
                assert(tiles_y * tiles_x == 0) by (nonlinear_arith)
                    requires
                        tiles_x == 0,
                ;
            }
            lemma_row_within(k as int, tiles_y as int, tiles_x as int);
            lemma_tile_small((k / tiles_x) as int, hout as int, t as int);
            lemma_join(k as int, tiles_x as int);
            lemma_tile_small((k % tiles_x) as int, wout as int, t as int);
            lemma_within(k as int, ntiles as int, 0, oc as int + 1);
            assert((k + 1) * oc == k * oc + oc && (k + 1) * oc <= ntiles * oc) by (nonlinear_arith)
                requires
                    k + 1 <= ntiles,
            ;
        }
        let ty: usize = k / tiles_x;
        let tx: usize = k % tiles_x;
        let v: Vec<Vec<T>> = transform_inputs::<T, W>(src, ty, tx);
        let mut o: usize = 0;
        while o < oc
            invariant
                o <= oc,
                k < ntiles,
                t == W::tile(),
                0 < t <= 4,
                W::Outp::width_in() == t + 2,
                W::Outp::width_out() == t,
                ic == src.ic,
                ty == k / tiles_x,
                tx == k % tiles_x,
                u.len() == (t + 2) * (t + 2) * ic * oc,
                forall|q: int|
                    0 <= q < u.len() ==> #[trigger] u[q] == two_pass_spec::<T, W::Filt>(
                        filter(w@, (q % oc as int) * ic + (q / oc as int) % ic as int),
                    )[(q / oc as int) / ic as int],
                v.len() == ic,
                forall|i: int|
                    0 <= i < ic ==> #[trigger] v[i]@ == two_pass_spec::<T, W::Inp>(
                        patch(src@, t as int, i, ty as int, tx as int),
                    ) && v[i].len() == (t + 2) * (t + 2),
                ys.len() == k * oc + o,
                forall|j: int|
                    0 <= j < k * oc + o ==> #[trigger] ys[j]@ == wino_tile::<T, W>(
                        src@,
                        w@,
                        ic as int,
                        j % oc as int,
                        (j / oc as int) / tiles_x as int,
                        (j / oc as int) % tiles_x as int,
                    ) && ys[j].len() == t * t,
            decreases oc - o,
        {
            let m: Vec<T> = wino_gemm::<T, W>(
                u,
                &v,
                ic,
                oc,
                o,
                Ghost(src@),
                w,
                Ghost(ty as int),
                Ghost(tx as int),
            );
            let y: Vec<T> = two_pass::<T, W::Outp>(m.as_slice());
            proof {
                lemma_split(k as int, oc as int, o as int);
                assert(m@ =~= Seq::new(
                    ((t + 2) * (t + 2)) as nat,
                    |pos: int|
                        accumulate(
                            zero(),
                            wino_term::<T, W>(
                                src@,
                                w@,
                                ic as int,
                                o as int,
                                ty as int,
                                tx as int,
                                pos,
                            ),
                            ic as nat,
                        ),
                ));
            }
            ys.push(y);
            o = o + 1;
        }
        k = k + 1;
    }
    let hw: usize = hout * wout;
    let total: usize = oc * hw;
    let mut out: Vec<T> = Vec::new();
    let mut q: usize = 0;
    while q < total
        invariant
            q <= total,
            total == oc * hw,
            hw == hout * wout,
            t == W::tile(),
            0 < t <= 4,
            b.len() == oc,
            ntiles == tiles_y * tiles_x,
            ys.len() == ntiles * oc,
            forall|y: int| 0 <= y < hout ==> #[trigger] (y / t as int) < tiles_y,
            forall|x: int| 0 <= x < wout ==> #[trigger] (x / t as int) < tiles_x,
            forall|j: int|
                0 <= j < ntiles * oc ==> #[trigger] ys[j]@ == wino_tile::<T, W>(
                    src@,
                    w@,
                    ic as int,
                    j % oc as int,
                    (j / oc as int) / tiles_x as int,
                    (j / oc as int) % tiles_x as int,
                ) && ys[j].len() == t * t,
            out.len() == q,
            forall|j: int|
                0 <= j < q ==> #[trigger] out[j] == wino_at::<T, W>(
                    src@,
                    w@,
                    b@,
                    ic as int,
                    hout as int,
                    wout as int,
                    j,
                ),
        decreases total - q,
    {
        proof {
            if hw == 0 {
                assert(oc * hw == 0) by (nonlinear_arith)
                    requires
                        hw == 0,
                ;
            }
            if wout == 0 {
                assert(hout * wout == 0) by (nonlinear_arith)
                    requires
                        wout == 0,
                ;
            }
            lemma_row_within(q as int, oc as int, hw as int);
            lemma_join(q as int, hw as int);
            lemma_row_within((q % hw) as int, hout as int, wout as int);
        }
        let o: usize = q / hw;
        let y: usize = (q % hw) / wout;
        let x: usize = (q % hw) % wout;
        let ty: usize = y / t;
        let tx: usize = x / t;
        proof {
            lemma_within(ty as int, tiles_y as int, tx as int, tiles_x as int);
            lemma_within(ty * tiles_x + tx, ntiles as int, o as int, oc as int);
            lemma_factor(ty * tiles_x + tx, oc as int);
            lemma_split(ty * tiles_x + tx, oc as int, o as int);
            lemma_split(ty as int, tiles_x as int, tx as int);
            lemma_within((y % t) as int, t as int, (x % t) as int, t as int);
        }
        let at: usize = (ty * tiles_x + tx) * oc + o;
        assert(ys[at as int].len() == t * t);
        let v: T = ys[at][(y % t) * t + x % t];
        out.push(v.plus(b[o]));
        q = q + 1;
    }
    out
}

/// A tile that covers pixels of an image starts within it.
proof fn lemma_tile_small(k: int, len: int, t: int)
    requires
        0 <= k < tiles_over(len, t),
        0 < t <= 4,
        0 <= len <= 0x7fff_ffff,
    ensures
        (k + 1) * t + 2 <= 0x8000_0010,
{
    assert((k + 1) * t <= len + t) by (nonlinear_arith)
        requires
            0 <= k < (len + t - 1) / t,
            0 < t <= 4,
            0 <= len,
    ;
}

/// Image `n_i` of a batch of images of `size` elements.
pub open spec fn image<T>(x: Seq<T>, size: int, n_i: int) -> Seq<T> {
    x.subrange(n_i * size, n_i * size + size)
}

/// The size that an upsample goes to.
pub open spec fn fusion_size<T>(f: Option<&UpsampleFusion<T>>) -> Option<(int, int)> {
    match f {
        Some(f) => Some((f.spec.up_h as int, f.spec.up_w as int)),
        None => None,
    }
}

/// What an upsample adds.
pub open spec fn fusion_add<T>(f: Option<&UpsampleFusion<T>>) -> Option<Seq<T>> {
    match f {
        Some(f) => contents(f.add),
        None => None,
    }
}

/// The elements of an optional buffer.
pub open spec fn contents<T>(s: Option<&[T]>) -> Option<Seq<T>> {
    match s {
        Some(r) => Some(r@),
        None => None,
    }
}

/// What a batch's images look like to a convolution.
pub open spec fn batch_input<T: Scalar>(
    x: Seq<T>,
    ic: int,
    h: int,
    w: int,
    relu_in: bool,
    up: Option<(int, int)>,
    add: Option<Seq<T>>,
    n_i: int,
) -> Input<T> {
    Input { data: image(x, ic * h * w, n_i), h, w, relu: relu_in, up, add }
}

/// Adds an image to those of a batch, finishing each element with the
/// residual's element at its place in the batch.
fn append_image<T: Scalar>(
    out: &mut Vec<T>,
    img: &Vec<T>,
    residual: Option<&[T]>,
    relu_out: bool,
)
    requires
        residual matches Some(r) ==> old(out).len() + img.len() <= r.len(),
    ensures
        final(out).len() == old(out).len() + img.len(),
        forall|p: int| 0 <= p < old(out).len() ==> #[trigger] final(out)[p] == old(out)[p],
        forall|p: int|
            old(out).len() <= p < final(out).len() ==> #[trigger] final(out)[p] == finish(
                img[p - old(out).len()],
                contents(residual),
                p,
                relu_out,
            ),
{
    let base: Ghost<int> = Ghost(out.len() as int);
    let mut q: usize = 0;
    while q < img.len()
        invariant
            q <= img.len(),
            base@ == old(out).len(),
            residual matches Some(r) ==> base@ + img.len() <= r.len(),
            out.len() == base@ + q,
            forall|p: int| 0 <= p < base@ ==> #[trigger] out[p] == old(out)[p],
            forall|p: int|
                base@ <= p < out.len() ==> #[trigger] out[p] == finish(
                    img[p - base@],
                    contents(residual),
                    p,
                    relu_out,
                ),
        decreases img.len() - q,
    {
        let mut v: T = img[q];
        if let Some(r) = residual {
            v = v.plus(r[out.len()]);
        }
        if relu_out {
            v = v.larger(T::ratio(0, 1));
        }
        out.push(v);
        q = q + 1;
    }
}

/// 3x3 stride-1 convolution with padding 1 of a batch by Winograd transforms.
///
/// `x` holds `n` images of `ic` channels of `h x wid` pixels, or, with an
/// upsample, the images before it; the result has `oc` channels of
/// `hout x wout` pixels. The bias, the residual and the final cut-off at zero
/// are applied to each output in this order.
pub fn conv3x3_pad1_wino<T: Scalar, W: WinoPolicy<T>>(
    x: &[T],
    w: &[T],
    b: &[T],
    n: usize,
    ic: usize,
    h: usize,
    wid: usize,
    oc: usize,
    hout: usize,
    wout: usize,
    relu_input: bool,
    residual: Option<&[T]>,
    relu_output: bool,
    upsample: Option<&UpsampleFusion<T>>,
) -> (out: Vec<T>)
    requires
        x.len() == n * (ic * h * wid),
        w.len() == oc * ic * 9,
        b.len() == oc,
        0 < ic,
        0 < oc,
        ic * oc * 36 <= usize::MAX,
        hout <= 0x7fff_ffff,
        wout <= 0x7fff_ffff,
        hout * wout <= usize::MAX,
        oc * (hout * wout) <= usize::MAX,
        n * (oc * (hout * wout)) <= usize::MAX,
        residual matches Some(r) ==> r.len() == n * (oc * (hout * wout)),
        upsample matches Some(f) ==> f.spec.of(h as int, wid as int),
        upsample matches Some(f) ==> (f.add matches Some(a) ==> a.len() == ic * f.spec.up_h
            * f.spec.up_w),
    ensures
        out.len() == n * (oc * (hout * wout)),
        forall|p: int|
            0 <= p < out.len() ==> #[trigger] out[p] == finish(
                wino_at::<T, W>(
                    batch_input(
                        x@,
                        ic as int,
                        h as int,
                        wid as int,
                        relu_input,
                        fusion_size(upsample),
                        fusion_add(upsample),
                        p / (oc * (hout * wout)),
                    ),
                    w@,
                    b@,
                    ic as int,
                    hout as int,
                    wout as int,
                    p % (oc * (hout * wout)),
                ),
                contents(residual),
                p,
                relu_output,
            ),
{
    let u: Vec<T> = build_u::<T, W>(w, ic, oc);
    let chunk: usize = oc * (hout * wout);
    let ghost up: Option<(int, int)> = fusion_size(upsample);
    let ghost add: Option<Seq<T>> = fusion_add(upsample);
    let ghost res: Option<Seq<T>> = contents(residual);
    let ghost size: int = ic * h * wid;
    let ghost want = |p: int|
        finish(
            wino_at::<T, W>(
                batch_input(
                    x@,
                    ic as int,
                    h as int,
                    wid as int,
                    relu_input,
                    up,
                    add,
                    p / chunk as int,
                ),
                w@,
                b@,
                ic as int,
                hout as int,
                wout as int,
                p % chunk as int,
            ),
            res,
            p,
            relu_output,
        );
    let mut out: Vec<T> = Vec::new();
    let mut n_i: usize = 0;
    assert(0 * chunk == 0);
    while n_i < n
        invariant
            n_i <= n,
            x.len() == n * size,
            size == ic * h * wid,
            b.len() == oc,
            0 < ic,
            0 < oc,
            hout <= 0x7fff_ffff,
            wout <= 0x7fff_ffff,
            hout * wout <= usize::MAX,
            chunk == oc * (hout * wout),
            n * chunk <= usize::MAX,
            u.len() == (W::tile() + 2) * (W::tile() + 2) * ic * oc,
            forall|q: int|
                0 <= q < u.len() ==> #[trigger] u[q] == two_pass_spec::<T, W::Filt>(
                    filter(w@, (q % oc as int) * ic + (q / oc as int) % ic as int),
                )[(q / oc as int) / ic as int],
            residual matches Some(r) ==> r.len() == n * chunk,
            res == contents(residual),
            upsample matches Some(f) ==> f.spec.of(h as int, wid as int),
            upsample matches Some(f) ==> (f.add matches Some(a) ==> a.len() == ic * f.spec.up_h
                * f.spec.up_w),
            up == fusion_size(upsample),
            add == fusion_add(upsample),
            want == (|p: int|
                finish(
                    wino_at::<T, W>(
                        batch_input(
                            x@,
                            ic as int,
                            h as int,
                            wid as int,
                            relu_input,
                            up,
                            add,
                            p / chunk as int,
                        ),
                        w@,
                        b@,
                        ic as int,
                        hout as int,
                        wout as int,
                        p % chunk as int,
                    ),
                    res,
                    p,
                    relu_output,
                )),
            out.len() == n_i * chunk,
            forall|p: int| 0 <= p < n_i * chunk ==> #[trigger] out[p] == want(p),
        decreases n - n_i,
    {
        proof {
            assert((n_i + 1) * size == n_i * size + size && (n_i + 1) * size <= n * size)
                by (nonlinear_arith)
                requires
                    n_i + 1 <= n,
                    0 <= size,
            ;
            assert(0 <= n_i * size && 0 <= size) by (nonlinear_arith)
                requires
                    size == ic * h * wid,
                    ic >= 0,
                    h >= 0,
                    wid >= 0,
                    n_i >= 0,
            ;
            assert((n_i + 1) * chunk == n_i * chunk + chunk && (n_i + 1) * chunk <= n * chunk)
                by (nonlinear_arith)
                requires
                    n_i + 1 <= n,
                    0 <= chunk,
            ;
        }
        let len: usize = x.len() / n;
        proof {
            assert(len == size) by (nonlinear_arith)
                requires
                    len == (n * size) / (n as int),
                    0 < n,
            ;
        }
        let part: &[T] = &x[n_i * len..n_i * len + len];
        let src: Source<T> = Source {
            data: part,
            ic,
            h,
            w: wid,
            relu: relu_input,
            up: upsample,
        };
        assert(part@ =~= image(x@, size, n_i as int));
        let img: Vec<T> = wino_image::<T, W>(&src, Ghost(w@), &u, b, oc, hout, wout);
        append_image(&mut out, &img, residual, relu_output);
        proof {
            assert forall|p: int| 0 <= p < (n_i + 1) * chunk implies #[trigger] out[p] == want(p) by {
                if p >= n_i * chunk {
                    let q = p - n_i * chunk;
                    lemma_split(n_i as int, chunk as int, q);
                    assert(out[p] == finish(img[q], res, p, relu_output));
                }
            }
        }
        n_i = n_i + 1;
    }
    assert forall|p: int| 0 <= p < out.len() implies #[trigger] out[p] == finish(
        wino_at::<T, W>(
            batch_input(
                x@,
                ic as int,
                h as int,
                wid as int,
                relu_input,
                up,
                add,
                p / (oc * (hout * wout)),
            ),
            w@,
            b@,
            ic as int,
            hout as int,
            wout as int,
            p % (oc * (hout * wout)),
        ),
        res,
        p,
        relu_output,
    ) by {
        assert(out[p] == want(p));
    }
    out
}

// ---- by matrix product --------------------------------------------------------

/// Row `kic` of column `px` of the patch matrix of a 3x3 convolution with
/// padding 1: the pixel under tap `(kic / 3) % 3, kic % 3` of channel `kic / 9`.
pub open spec fn patch_entry<T: Scalar>(
    input: Input<T>,
    stride: int,
    wout: int,
    kic: int,
    px: int,
) -> T {
    input.at(
        kic / 9,
        stride * (px / wout) + (kic / 3) % 3 - 1,
        stride * (px % wout) + kic % 3 - 1,
    )
}

/// The patch matrix: one row for each channel and tap, one column for each
/// output pixel.
fn im2col<T: Scalar>(src: &Source<T>, stride: usize, hout: usize, wout: usize) -> (col: Vec<T>)
    requires
        src.wf(),
        0 < stride <= 2,
        stride * hout <= 0x8000_0000,
        stride * wout <= 0x8000_0000,
        hout * wout <= usize::MAX,
        (src.ic * 9) * (hout * wout) <= usize::MAX,
        src.ic * 9 <= usize::MAX,
    ensures
        col.len() == (src.ic * 9) * (hout * wout),
        forall|r: int|
            0 <= r < col.len() ==> #[trigger] col[r] == patch_entry(
                src@,
                stride as int,
                wout as int,
                r / (hout * wout),
                r % (hout * wout),
            ),
{
    let hw: usize = hout * wout;
    let rows: usize = src.ic * 9;
    let total: usize = rows * hw;
    let mut col: Vec<T> = Vec::new();
    let mut r: usize = 0;
    while r < total
        invariant
            r <= total,
            total == rows * hw,
            rows == src.ic * 9,
            hw == hout * wout,
            src.wf(),
            0 < stride <= 2,
            stride * hout <= 0x8000_0000,
            stride * wout <= 0x8000_0000,
            col.len() == r,
            forall|k: int|
                0 <= k < r ==> #[trigger] col[k] == patch_entry(
                    src@,
                    stride as int,
                    wout as int,
                    k / hw as int,
                    k % hw as int,
                ),
        decreases total - r,
    {
        proof {
            if hw == 0 {
                assert(rows * hw == 0) by (nonlinear_arith)
                    requires
                        hw == 0,
                ;
            }
            if wout == 0 {
                assert(hout * wout == 0) by (nonlinear_arith)
                    requires
                        wout == 0,
                ;
            }
            lemma_row_within(r as int, rows as int, hw as int);
            lemma_join(r as int, hw as int);
            lemma_row_within((r % hw) as int, hout as int, wout as int);
        }
        let kic: usize = r / hw;
        let oy: usize = (r % hw) / wout;
        let ox: usize = (r % hw) % wout;
        proof {
            lemma_product_grows(stride as int, stride as int, oy as int, hout as int);
            lemma_product_grows(stride as int, stride as int, ox as int, wout as int);
        }
        col.push(src.read(kic / 9, stride * oy + (kic / 3) % 3, stride * ox + kic % 3));
        r = r + 1;
    }
    col
}

/// One product of a direct 3x3 convolution.
pub open spec fn direct_term<T: Scalar>(
    input: Input<T>,
    w: Seq<T>,
    ic: int,
    stride: int,
    wout: int,
    o: int,
    px: int,
) -> spec_fn(int) -> T {
    |kic: int|
        w[o * (ic * 9) + kic].times_spec(patch_entry(input, stride, wout, kic, px))
}

/// Element `q` of the direct 3x3 convolution of one image: the bias and one
/// product for each channel and tap.
pub open spec fn direct_at<T: Scalar>(
    input: Input<T>,
    w: Seq<T>,
    b: Seq<T>,
    ic: int,
    stride: int,
    hout: int,
    wout: int,
    q: int,
) -> T {
    let hw = hout * wout;
    accumulate(
        b[q / hw],
        direct_term(input, w, ic, stride, wout, q / hw, q % hw),
        (ic * 9) as nat,
    )
}

/// `oc` planes of `hw` pixels, each filled with its bias.
pub(crate) fn bias_planes<T: Scalar>(b: &[T], hw: usize) -> (out: Vec<T>)
    requires
        b.len() * hw <= usize::MAX,
    ensures
        out.len() == b.len() * hw,
        forall|q: int| 0 <= q < out.len() ==> #[trigger] out[q] == b[q / hw as int],
{
    let total: usize = b.len() * hw;
    let mut out: Vec<T> = Vec::new();
    let mut q: usize = 0;
    while q < total
        invariant
            q <= total,
            total == b.len() * hw,
            out.len() == q,
            forall|k: int| 0 <= k < q ==> #[trigger] out[k] == b[k / hw as int],
        decreases total - q,
    {
        proof {
            if hw == 0 {
                assert(b.len() * hw == 0) by (nonlinear_arith)
                    requires
                        hw == 0,
                ;
            }
            lemma_row_within(q as int, b.len() as int, hw as int);
        }
        out.push(b[q / hw]);
        q = q + 1;
    }
    out
}

/// The direct 3x3 convolution of one image with padding 1.
pub(crate) fn conv3x3_image<T: Scalar>(
    src: &Source<T>,
    w: &[T],
    b: &[T],
    oc: usize,
    stride: usize,
    hout: usize,
    wout: usize,
) -> (out: Vec<T>)
    requires
        src.wf(),
        w.len() == oc * (src.ic * 9),
        b.len() == oc,
        0 < stride <= 2,
        stride * hout <= 0x8000_0000,
        stride * wout <= 0x8000_0000,
        hout * wout <= usize::MAX,
        (src.ic * 9) * (hout * wout) <= usize::MAX,
        src.ic * 9 <= usize::MAX,
        oc * (hout * wout) <= usize::MAX,
    ensures
        out.len() == oc * (hout * wout),
        forall|q: int|
            0 <= q < out.len() ==> #[trigger] out[q] == direct_at(
                src@,
                w@,
                b@,
                src.ic as int,
                stride as int,
                hout as int,
                wout as int,
                q,
            ),
{
    let hw: usize = hout * wout;
    let rows: usize = src.ic * 9;
    let col: Vec<T> = im2col(src, stride, hout, wout);
    let mut out: Vec<T> = bias_planes(b, hw);
    let ghost filled = out@;
    gemm_nn_into(oc, hw, rows, w, col.as_slice(), &mut out);
    proof {
        assert forall|q: int| 0 <= q < out.len() implies #[trigger] out[q] == direct_at(
            src@,
            w@,
            b@,
            src.ic as int,
            stride as int,
            hout as int,
            wout as int,
            q,
        ) by {
            if hw == 0 {
                assert(oc * hw == 0) by (nonlinear_arith)
                    requires
                        hw == 0,
                ;
            }
            lemma_row_within(q, oc as int, hw as int);
            lemma_join(q, hw as int);
            let o = q / hw as int;
            let px = q % hw as int;
            let f = gemm_term(w@, col@, hw as int, rows as int, o, px);
            let g = direct_term(
                src@,
                w@,
                src.ic as int,
                stride as int,
                wout as int,
                o,
                px,
            );
            assert forall|i: int| 0 <= i < rows implies #[trigger] f(i) == g(i) by {
                lemma_within(i, rows as int, px, hw as int);
                lemma_split(i, hw as int, px);
                assert(col[i * hw + px] == patch_entry(src@, stride as int, wout as int, i, px));
            }
            lemma_accumulate_agree(b[o], f, g, rows as nat);
            assert(filled[q] == b[o]);
        }
    }
    out
}

/// 3x3 stride-1 convolution with padding 1 of a batch by matrix products.
pub fn conv3x3_pad1_direct<T: Scalar>(
    x: &[T],
    w: &[T],
    b: &[T],
    n: usize,
    ic: usize,
    h: usize,
    wid: usize,
    oc: usize,
    relu_input: bool,
    residual: Option<&[T]>,
    relu_output: bool,
) -> (out: Vec<T>)
    requires
        x.len() == n * (ic * h * wid),
        w.len() == oc * (ic * 9),
        b.len() == oc,
        h <= 0x7fff_ffff,
        wid <= 0x7fff_ffff,
        h * wid <= usize::MAX,
        (ic * 9) * (h * wid) <= usize::MAX,
        ic * 9 <= usize::MAX,
        oc * (h * wid) <= usize::MAX,
        n * (oc * (h * wid)) <= usize::MAX,
        residual matches Some(r) ==> r.len() == n * (oc * (h * wid)),
    ensures
        out.len() == n * (oc * (h * wid)),
        forall|p: int|
            0 <= p < out.len() ==> #[trigger] out[p] == finish(
                direct_at(
                    batch_input(
                        x@,
                        ic as int,
                        h as int,
                        wid as int,
                        relu_input,
                        None,
                        None,
                        p / (oc * (h * wid)),
                    ),
                    w@,
                    b@,
                    ic as int,
                    1,
                    h as int,
                    wid as int,
                    p % (oc * (h * wid)),
                ),
                contents(residual),
                p,
                relu_output,
            ),
{
    let chunk: usize = oc * (h * wid);
    let ghost size: int = ic * h * wid;
    let mut out: Vec<T> = Vec::new();
    let mut n_i: usize = 0;
    assert(0 * chunk == 0);
    while n_i < n
        invariant
            n_i <= n,
            x.len() == n * size,
            size == ic * h * wid,
            w.len() == oc * (ic * 9),
            b.len() == oc,
            h <= 0x7fff_ffff,
            wid <= 0x7fff_ffff,
            h * wid <= usize::MAX,
            (ic * 9) * (h * wid) <= usize::MAX,
            ic * 9 <= usize::MAX,
            chunk == oc * (h * wid),
            n * chunk <= usize::MAX,
            residual matches Some(r) ==> r.len() == n * chunk,
            out.len() == n_i * chunk,
            forall|p: int|
                0 <= p < n_i * chunk ==> #[trigger] out[p] == finish(
                    direct_at(
                        batch_input(
                            x@,
                            ic as int,
                            h as int,
                            wid as int,
                            relu_input,
                            None,
                            None,
                            p / chunk as int,
                        ),
                        w@,
                        b@,
                        ic as int,
                        1,
                        h as int,
                        wid as int,
                        p % chunk as int,
                    ),
                    contents(residual),
                    p,
                    relu_output,
                ),
        decreases n - n_i,
    {
        let len: usize = x.len() / n;
        proof {
            lemma_batch_part(n as int, size, n_i as int, len as int);
            lemma_sizes_nonneg(ic as int, h as int, wid as int);
            assert((n_i + 1) * chunk == n_i * chunk + chunk && (n_i + 1) * chunk <= n * chunk)
                by (nonlinear_arith)
                requires
                    n_i + 1 <= n,
                    0 <= chunk,
            ;
        }
        let part: &[T] = &x[n_i * len..n_i * len + len];
        let src: Source<T> = Source { data: part, ic, h, w: wid, relu: relu_input, up: None };
        assert(part@ =~= image(x@, size, n_i as int));
        let img: Vec<T> = conv3x3_image(&src, w, b, oc, 1, h, wid);
        let ghost before = out@;
        append_image(&mut out, &img, residual, relu_output);
        proof {
            assert forall|p: int| 0 <= p < (n_i + 1) * chunk implies #[trigger] out[p] == finish(
                direct_at(
                    batch_input(
                        x@,
                        ic as int,
                        h as int,
                        wid as int,
                        relu_input,
                        None,
                        None,
                        p / chunk as int,
                    ),
                    w@,
                    b@,
                    ic as int,
                    1,
                    h as int,
                    wid as int,
                    p % chunk as int,
                ),
                contents(residual),
                p,
                relu_output,
            ) by {
                if p >= n_i * chunk {
                    let q = p - n_i * chunk;
                    lemma_split(n_i as int, chunk as int, q);
                    assert(out[p] == finish(img[q], contents(residual), p, relu_output));
                } else {
                    assert(out[p] == before[p]);
                }
            }
        }
        n_i = n_i + 1;
    }
    out
}

/// Where part `n_i` of a batch of `n` parts of `size` elements lies.
pub(crate) proof fn lemma_batch_part(n: int, size: int, n_i: int, len: int)
    requires
        0 <= n_i < n,
        0 <= size,
        len == (n * size) / n,
    ensures
        len == size,
        0 <= n_i * size,
        n_i * size + size <= n * size,
{
    assert((n * size) / n == size) by (nonlinear_arith)
        requires
            0 < n,
    ;
    assert(0 <= n_i * size && n_i * size + size <= n * size) by (nonlinear_arith)
        requires
            0 <= n_i < n,
            0 <= size,
    ;
}

/// Image sizes are not negative.
pub(crate) proof fn lemma_sizes_nonneg(c: int, h: int, w: int)
    requires
        0 <= c,
        0 <= h,
        0 <= w,
    ensures
        0 <= h * w,
        0 <= c * h,
        0 <= c * h * w,
        c * h * w == c * (h * w),
{
    assert(0 <= h * w && 0 <= c * h && 0 <= c * h * w && c * h * w == c * (h * w))
        by (nonlinear_arith)
        requires
            0 <= c,
            0 <= h,
            0 <= w,
    ;
}

// ---- 3x3 ------------------------------------------------------------------------

/// Element `p` of a 3x3 stride-1 convolution with padding 1.
pub open spec fn conv3x3_at<T: Scalar>(
    opts: ConvOptions,
    x: Seq<T>,
    w: Seq<T>,
    b: Seq<T>,
    ic: int,
    h: int,
    wid: int,
    relu_in: bool,
    residual: Option<Seq<T>>,
    relu_out: bool,
    p: int,
) -> T {
    let hw = h * wid;
    let chunk = b.len() * hw;
    let q = p % chunk;
    if ic == 0 {
        zero::<T>().plus_spec(b[q / hw])
    } else {
        let input = batch_input(x, ic, h, wid, relu_in, None, None, p / chunk);
        let v = if opts.conv3x3 == Conv3x3Mode::Direct {
            direct_at(input, w, b, ic, 1, h, wid, q)
        } else {
            match wino_choice(opts.wino, h, wid) {
                WinoChoice::F2 => wino_at::<T, F2>(input, w, b, ic, h, wid, q),
                WinoChoice::F4 => wino_at::<T, F4>(input, w, b, ic, h, wid, q),
            }
        };
        finish(v, residual, p, relu_out)
    }
}

/// What the lengths and sizes of a 3x3 convolution have to satisfy: the buffers
/// have the sizes the shape says, and what is computed on the way can be
/// addressed.
pub open spec fn conv3x3_fits<T>(
    opts: ConvOptions,
    x: Seq<T>,
    w: Seq<T>,
    b: Seq<T>,
    n: int,
    ic: int,
    h: int,
    wid: int,
    oc: int,
) -> bool {
    &&& x.len() == n * (ic * h * wid)
    &&& w.len() == oc * ic * 9
    &&& b.len() == oc
    &&& h <= 0x7fff_ffff
    &&& wid <= 0x7fff_ffff
    &&& h * wid <= usize::MAX
    &&& oc * (h * wid) <= usize::MAX
    &&& n * (oc * (h * wid)) <= usize::MAX
    &&& ic * oc * 36 <= usize::MAX
    &&& opts.conv3x3 == Conv3x3Mode::Direct ==> (ic * 9) * (h * wid) <= usize::MAX && ic * 9
        <= usize::MAX
}

/// Adds each plane's bias to a batch of planes.
pub fn add_bias<T: Scalar>(out: &mut Vec<T>, b: &[T], oc: usize, hw: usize)
    requires
        b.len() == oc,
        0 < hw,
        0 < oc,
    ensures
        final(out).len() == old(out).len(),
        forall|p: int|
            0 <= p < old(out).len() ==> #[trigger] final(out)[p] == old(out)[p].plus_spec(
                b[(p / hw as int) % oc as int],
            ),
{
    let total: usize = out.len();
    let mut p: usize = 0;
    while p < total
        invariant
            p <= total,
            0 < hw,
            0 < oc,
            b.len() == oc,
            out.len() == total,
            old(out).len() == total,
            forall|k: int|
                0 <= k < p ==> #[trigger] out[k] == old(out)[k].plus_spec(
                    b[(k / hw as int) % oc as int],
                ),
            forall|k: int| p <= k < total ==> #[trigger] out[k] == old(out)[k],
        decreases total - p,
    {
        let v: T = out[p].plus(b[(p / hw) % oc]);
        out[p] = v;
        p = p + 1;
    }
}

/// `n` times the biases over planes of `hw` pixels.
fn bias_only<T: Scalar>(b: &[T], n: usize, oc: usize, hw: usize) -> (out: Vec<T>)
    requires
        b.len() == oc,
        n * (oc * hw) <= usize::MAX,
        oc * hw <= usize::MAX,
    ensures
        out.len() == n * (oc * hw),
        forall|p: int|
            0 <= p < out.len() ==> #[trigger] out[p] == zero::<T>().plus_spec(
                b[(p % (oc * hw)) / hw as int],
            ),
{
    let total: usize = n * (oc * hw);
    let fill: T = T::ratio(0, 1);
    let mut out: Vec<T> = Vec::new();
    let mut p: usize = 0;
    while p < total
        invariant
            p <= total,
            out.len() == p,
            fill == zero::<T>(),
            forall|k: int| 0 <= k < p ==> #[trigger] out[k] == zero::<T>(),
        decreases total - p,
    {
        out.push(fill);
        p = p + 1;
    }
    if total > 0 {
        proof {
            if hw == 0 || oc == 0 {
                assert(n * (oc * hw) == 0) by (nonlinear_arith)
                    requires
                        hw == 0 || oc == 0,
                ;
            }
        }
        add_bias(&mut out, b, oc, hw);
        proof {
            assert forall|p: int| 0 <= p < out.len() implies #[trigger] out[p]
                == zero::<T>().plus_spec(b[(p % (oc * hw)) / hw as int]) by {
                lemma_plane(p, oc as int, hw as int);
            }
        }
    }
    out
}

/// The plane of an element within its image.
pub(crate) proof fn lemma_plane(p: int, oc: int, hw: int)
    requires
        0 <= p,
        0 < oc,
        0 < hw,
    ensures
        (p % (oc * hw)) / hw == (p / hw) % oc,
        0 <= (p / hw) % oc < oc,
{
    lemma_join(p, hw);
    lemma_join(p / hw, oc);
    let a = (p / hw) / oc;
    let o = (p / hw) % oc;
    let r = p % hw;
    assert(p == a * (oc * hw) + (o * hw + r)) by (nonlinear_arith)
        requires
            p == (p / hw) * hw + r,
            p / hw == a * oc + o,
    ;
    lemma_within(o, oc, r, hw);
    lemma_split(a, oc * hw, o * hw + r);
    lemma_split(o, hw, r);
}

fn conv3x3_pad1_impl<T: Scalar>(
    x: &[T],
    w: &[T],
    b: &[T],
    n: usize,
    ic: usize,
    h: usize,
    wid: usize,
    oc: usize,
    relu_input: bool,
    residual: Option<&[T]>,
    relu_output: bool,
    opts: ConvOptions,
) -> (out: Vec<T>)
    requires
        conv3x3_fits(
            opts,
            x@,
            w@,
            b@,
            n as int,
            ic as int,
            h as int,
            wid as int,
            oc as int,
        ),
        residual matches Some(r) ==> r.len() == n * (oc * (h * wid)),
    ensures
        out.len() == n * (oc * (h * wid)),
        forall|p: int|
            0 <= p < out.len() ==> #[trigger] out[p] == conv3x3_at(
                opts,
                x@,
                w@,
                b@,
                ic as int,
                h as int,
                wid as int,
                relu_input,
                contents(residual),
                relu_output,
                p,
            ),
{
    if ic == 0 || oc == 0 || h == 0 || wid == 0 {
        proof {
            if oc == 0 || h == 0 || wid == 0 {
                assert(n * (oc * (h * wid)) == 0) by (nonlinear_arith)
                    requires
                        oc == 0 || h == 0 || wid == 0,
                ;
            }
        }
        return bias_only(b, n, oc, h * wid);
    }
    if opts.conv3x3 == Conv3x3Mode::Direct {
        assert(oc * ic * 9 == oc * (ic * 9)) by (nonlinear_arith);
        return conv3x3_pad1_direct(
            x,
            w,
            b,
            n,
            ic,
            h,
            wid,
            oc,
            relu_input,
            residual,
            relu_output,
        );
    }
    match select_wino_policy(opts.wino, h, wid) {
        WinoChoice::F2 => conv3x3_pad1_wino::<T, F2>(
            x,
            w,
            b,
            n,
            ic,
            h,
            wid,
            oc,
            h,
            wid,
            relu_input,
            residual,
            relu_output,
            None,
        ),
        WinoChoice::F4 => conv3x3_pad1_wino::<T, F4>(
            x,
            w,
            b,
            n,
            ic,
            h,
            wid,
            oc,
            h,
            wid,
            relu_input,
            residual,
            relu_output,
            None,
        ),
    }
}

/// 3x3 stride-1 convolution with padding 1.
pub fn conv3x3_pad1<T: Scalar>(
    x: &[T],
    w: &[T],
    b: &[T],
    n: usize,
    ic: usize,
    h: usize,
    wid: usize,
    oc: usize,
    opts: ConvOptions,
) -> (out: Vec<T>)
    requires
        conv3x3_fits(
            opts,
            x@,
            w@,
            b@,
            n as int,
            ic as int,
            h as int,
            wid as int,
            oc as int,
        ),
    ensures
        out.len() == n * (oc * (h * wid)),
        forall|p: int|
            0 <= p < out.len() ==> #[trigger] out[p] == conv3x3_at(
                opts,
                x@,
                w@,
                b@,
                ic as int,
                h as int,
                wid as int,
                false,
                None,
                false,
                p,
            ),
{
    conv3x3_pad1_impl(x, w, b, n, ic, h, wid, oc, false, None, false, opts)
}

/// As [`conv3x3_pad1`], with negative input pixels read as zero.
pub fn conv3x3_pad1_relu_in<T: Scalar>(
    x: &[T],
    w: &[T],
    b: &[T],
    n: usize,
    ic: usize,
    h: usize,
    wid: usize,
    oc: usize,
    opts: ConvOptions,
) -> (out: Vec<T>)
    requires
        conv3x3_fits(
            opts,
            x@,
            w@,
            b@,
            n as int,
            ic as int,
            h as int,
            wid as int,
            oc as int,
        ),
    ensures
        out.len() == n * (oc * (h * wid)),
        forall|p: int|
            0 <= p < out.len() ==> #[trigger] out[p] == conv3x3_at(
                opts,
                x@,
                w@,
                b@,
                ic as int,
                h as int,
                wid as int,
                true,
                None,
                false,
                p,
            ),
{
    conv3x3_pad1_impl(x, w, b, n, ic, h, wid, oc, true, None, false, opts)
}

/// As [`conv3x3_pad1_relu_in`], with `residual` added to the output.
pub fn conv3x3_pad1_relu_in_res_out<T: Scalar>(
    x: &[T],
    w: &[T],
    b: &[T],
    n: usize,
    ic: usize,
    h: usize,
    wid: usize,
    oc: usize,
    residual: &[T],
    opts: ConvOptions,
) -> (out: Vec<T>)
    requires
        conv3x3_fits(
            opts,
            x@,
            w@,
            b@,
            n as int,
            ic as int,
            h as int,
            wid as int,
            oc as int,
        ),
        residual.len() == n * (oc * (h * wid)),
    ensures
        out.len() == n * (oc * (h * wid)),
        forall|p: int|
            0 <= p < out.len() ==> #[trigger] out[p] == conv3x3_at(
                opts,
                x@,
                w@,
                b@,
                ic as int,
                h as int,
                wid as int,
                true,
                Some(residual@),
                false,
                p,
            ),
{
    conv3x3_pad1_impl(x, w, b, n, ic, h, wid, oc, true, Some(residual), false, opts)
}

/// As [`conv3x3_pad1`], with negative outputs cut off at zero.
pub fn conv3x3_pad1_relu_out<T: Scalar>(
    x: &[T],
    w: &[T],
    b: &[T],
    n: usize,
    ic: usize,
    h: usize,
    wid: usize,
    oc: usize,
    opts: ConvOptions,
) -> (out: Vec<T>)
    requires
        conv3x3_fits(
            opts,
            x@,
            w@,
            b@,
            n as int,
            ic as int,
            h as int,
            wid as int,
            oc as int,
        ),
    ensures
        out.len() == n * (oc * (h * wid)),
        forall|p: int|
            0 <= p < out.len() ==> #[trigger] out[p] == conv3x3_at(
                opts,
                x@,
                w@,
                b@,
                ic as int,
                h as int,
                wid as int,
                false,
                None,
                true,
                p,
            ),
{
    conv3x3_pad1_impl(x, w, b, n, ic, h, wid, oc, false, None, true, opts)
}

/// Element `p` of the convolution of an upsampled batch, cut off at zero.
pub open spec fn conv3x3_upsample_at<T: Scalar>(
    opts: ConvOptions,
    x: Seq<T>,
    w: Seq<T>,
    b: Seq<T>,
    ic: int,
    h_lo: int,
    w_lo: int,
    h: int,
    wid: int,
    add: Option<Seq<T>>,
    p: int,
) -> T {
    let hw = h * wid;
    let chunk = b.len() * hw;
    let q = p % chunk;
    if ic == 0 {
        zero::<T>().plus_spec(b[q / hw])
    } else {
        let input = batch_input(x, ic, h_lo, w_lo, false, Some((h, wid)), add, p / chunk);
        let v = match wino_choice(opts.wino, h, wid) {
            WinoChoice::F2 => wino_at::<T, F2>(input, w, b, ic, h, wid, q),
            WinoChoice::F4 => wino_at::<T, F4>(input, w, b, ic, h, wid, q),
        };
        finish(v, None, p, true)
    }
}

/// Upsamples `x` from `h_lo x w_lo` to `h x wid` with aligned corners, adds
/// `upsample_add`, and convolves with a 3x3 filter with padding 1, cutting
/// negative outputs off at zero. The upsampled image is never stored.
pub fn conv3x3_pad1_relu_out_upsample<T: Scalar>(
    x: &[T],
    w: &[T],
    b: &[T],
    n: usize,
    ic: usize,
    h_lo: usize,
    w_lo: usize,
    oc: usize,
    h: usize,
    wid: usize,
    upsample_add: Option<&[T]>,
    opts: ConvOptions,
) -> (out: Vec<T>)
    requires
        x.len() == n * (ic * h_lo * w_lo),
        w.len() == oc * ic * 9,
        b.len() == oc,
        0 < h_lo,
        0 < w_lo,
        h <= 0x7fff_ffff,
        wid <= 0x7fff_ffff,
        h * wid <= usize::MAX,
        oc * (h * wid) <= usize::MAX,
        n * (oc * (h * wid)) <= usize::MAX,
        ic * oc * 36 <= usize::MAX,
        upsample_add matches Some(a) ==> a.len() == ic * h * wid,
    ensures
        out.len() == n * (oc * (h * wid)),
        forall|p: int|
            0 <= p < out.len() ==> #[trigger] out[p] == conv3x3_upsample_at(
                opts,
                x@,
                w@,
                b@,
                ic as int,
                h_lo as int,
                w_lo as int,
                h as int,
                wid as int,
                contents(upsample_add),
                p,
            ),
{
    if ic == 0 || oc == 0 || h == 0 || wid == 0 {
        proof {
            if oc == 0 || h == 0 || wid == 0 {
                assert(n * (oc * (h * wid)) == 0) by (nonlinear_arith)
                    requires
                        oc == 0 || h == 0 || wid == 0,
                ;
            }
        }
        return bias_only(b, n, oc, h * wid);
    }
    let tables: UpsampleSpec<T> = UpsampleSpec::new_ac(h_lo, w_lo, h, wid);
    let fusion: UpsampleFusion<T> = UpsampleFusion { spec: &tables, add: upsample_add };
    match select_wino_policy(opts.wino, h, wid) {
        WinoChoice::F2 => conv3x3_pad1_wino::<T, F2>(
            x,
            w,
            b,
            n,
            ic,
            h_lo,
            w_lo,
            oc,
            h,
            wid,
            false,
            None,
            true,
            Some(&fusion),
        ),
        WinoChoice::F4 => conv3x3_pad1_wino::<T, F4>(
            x,
            w,
            b,
            n,
            ic,
            h_lo,
            w_lo,
            oc,
            h,
            wid,
            false,
            None,
            true,
            Some(&fusion),
        ),
    }
}

// ---- 1x1 ------------------------------------------------------------------------

/// Element `p` of a 1x1 convolution: in each image, a matrix product over the
/// channels on top of the bias.
pub open spec fn conv1x1_at<T: Scalar>(
    x: Seq<T>,
    w: Seq<T>,
    b: Seq<T>,
    ic: int,
    hw: int,
    p: int,
) -> T {
    let chunk = b.len() * hw;
    let q = p % chunk;
    gemm_at(b[q / hw], w, image(x, ic * hw, p / chunk), hw, ic, q)
}

/// 1x1 convolution of a batch.
pub fn conv1x1<T: Scalar>(
    x: &[T],
    w: &[T],
    b: &[T],
    n: usize,
    ic: usize,
    h: usize,
    wid: usize,
    oc: usize,
) -> (out: Vec<T>)
    requires
        x.len() == n * (ic * (h * wid)),
        w.len() == oc * ic,
        b.len() == oc,
        h * wid <= usize::MAX,
        oc * (h * wid) <= usize::MAX,
        n * (oc * (h * wid)) <= usize::MAX,
    ensures
        out.len() == n * (oc * (h * wid)),
        forall|p: int|
            0 <= p < out.len() ==> #[trigger] out[p] == conv1x1_at(
                x@,
                w@,
                b@,
                ic as int,
                h * wid,
                p,
            ),
{
    let hw: usize = h * wid;
    let chunk: usize = oc * hw;
    let ghost size: int = ic * hw;
    let mut out: Vec<T> = Vec::new();
    let mut n_i: usize = 0;
    assert(0 * chunk == 0);
    while n_i < n
        invariant
            n_i <= n,
            x.len() == n * size,
            size == ic * hw,
            hw == h * wid,
            w.len() == oc * ic,
            b.len() == oc,
            chunk == oc * hw,
            n * chunk <= usize::MAX,
            out.len() == n_i * chunk,
            forall|p: int|
                0 <= p < n_i * chunk ==> #[trigger] out[p] == conv1x1_at(
                    x@,
                    w@,
                    b@,
                    ic as int,
                    hw as int,
                    p,
                ),
        decreases n - n_i,
    {
        let len: usize = x.len() / n;
        proof {
            assert(0 <= ic * hw) by (nonlinear_arith);
            lemma_batch_part(n as int, size, n_i as int, len as int);
            assert((n_i + 1) * chunk == n_i * chunk + chunk && (n_i + 1) * chunk <= n * chunk)
                by (nonlinear_arith)
                requires
                    n_i + 1 <= n,
                    0 <= chunk,
            ;
        }
        let part: &[T] = &x[n_i * len..n_i * len + len];
        assert(part@ =~= image(x@, size, n_i as int));
        let mut img: Vec<T> = bias_planes(b, hw);
        let ghost filled = img@;
        gemm_nn_into(oc, hw, ic, w, part, &mut img);
        let ghost before = out@;
        append_image(&mut out, &img, None, false);
        proof {
            assert forall|p: int| 0 <= p < (n_i + 1) * chunk implies #[trigger] out[p]
                == conv1x1_at(x@, w@, b@, ic as int, hw as int, p) by {
                if p >= n_i * chunk {
                    let q = p - n_i * chunk;
                    lemma_split(n_i as int, chunk as int, q);
                    assert(out[p] == finish(img[q], None, p, false));
                    assert(filled[q] == b[q / hw as int]);
                } else {
                    assert(out[p] == before[p]);
                }
            }
        }
        n_i = n_i + 1;
    }
    out
}

/// Four neighbours blended with the products of the two weights.
pub open spec fn blend_products<T: Scalar>(p00: T, p01: T, p10: T, p11: T, wx: T, wy: T) -> T {
    let u = one::<T>();
    p00.times_spec(u.minus_spec(wy).times_spec(u.minus_spec(wx))).plus_spec(
        p01.times_spec(u.minus_spec(wy).times_spec(wx)),
    ).plus_spec(p10.times_spec(wy.times_spec(u.minus_spec(wx)))).plus_spec(
        p11.times_spec(wy.times_spec(wx)),
    )
}

/// Element `r` of an upsampled image, row-major over channels and pixels.
pub open spec fn upsampled_products_at<T: Scalar>(
    data: Seq<T>,
    h_lo: int,
    w_lo: int,
    h: int,
    wid: int,
    r: int,
) -> T {
    let ch = r / (h * wid);
    let y = (r % (h * wid)) / wid;
    let x = (r % (h * wid)) % wid;
    let ty = tap_at::<T>(h_lo, h, y);
    let tx = tap_at::<T>(w_lo, wid, x);
    blend_products(
        pixel(data, h_lo, w_lo, ch, ty.lo as int, tx.lo as int),
        pixel(data, h_lo, w_lo, ch, ty.lo as int, tx.hi as int),
        pixel(data, h_lo, w_lo, ch, ty.hi as int, tx.lo as int),
        pixel(data, h_lo, w_lo, ch, ty.hi as int, tx.hi as int),
        tx.weight,
        ty.weight,
    )
}

/// The upsampled image that [`conv1x1_upsample`] multiplies with.
pub open spec fn upsampled_image<T: Scalar>(
    data: Seq<T>,
    ic: int,
    h_lo: int,
    w_lo: int,
    h: int,
    wid: int,
) -> Seq<T> {
    Seq::new(
        (ic * (h * wid)) as nat,
        |r: int| upsampled_products_at(data, h_lo, w_lo, h, wid, r),
    )
}

fn upsample_strip<T: Scalar>(
    data: &[T],
    ic: usize,
    h_lo: usize,
    w_lo: usize,
    h: usize,
    wid: usize,
    tables: &UpsampleSpec<T>,
) -> (strip: Vec<T>)
    requires
        data.len() == ic * h_lo * w_lo,
        tables.of(h_lo as int, w_lo as int),
        tables.up_h == h,
        tables.up_w == wid,
        h * wid <= usize::MAX,
        ic * (h * wid) <= usize::MAX,
    ensures
        strip@ == upsampled_image(
            data@,
            ic as int,
            h_lo as int,
            w_lo as int,
            h as int,
            wid as int,
        ),
{
    let hw: usize = h * wid;
    let total: usize = ic * hw;
    let unit: T = T::ratio(1, 1);
    let mut strip: Vec<T> = Vec::new();
    let mut r: usize = 0;
    while r < total
        invariant
            r <= total,
            total == ic * hw,
            hw == h * wid,
            unit == one::<T>(),
            data.len() == ic * h_lo * w_lo,
            tables.of(h_lo as int, w_lo as int),
            tables.up_h == h,
            tables.up_w == wid,
            strip.len() == r,
            forall|k: int|
                0 <= k < r ==> #[trigger] strip[k] == upsampled_products_at(
                    data@,
                    h_lo as int,
                    w_lo as int,
                    h as int,
                    wid as int,
                    k,
                ),
        decreases total - r,
    {
        proof {
            if hw == 0 {
                assert(ic * hw == 0) by (nonlinear_arith)
                    requires
                        hw == 0,
                ;
            }
            if wid == 0 {
                assert(h * wid == 0) by (nonlinear_arith)
                    requires
                        wid == 0,
                ;
            }
            lemma_row_within(r as int, ic as int, hw as int);
            lemma_join(r as int, hw as int);
            lemma_row_within((r % hw) as int, h as int, wid as int);
        }
        let ch: usize = r / hw;
        let y: usize = (r % hw) / wid;
        let x: usize = (r % hw) % wid;
        let ty: Tap<T> = tables.ytab[y];
        let tx: Tap<T> = tables.xtab[x];
        let n: Ghost<int> = Ghost(ic as int);
        let p00: T = pixel_at(data, n, h_lo, w_lo, ch, ty.lo, tx.lo);
        let p01: T = pixel_at(data, n, h_lo, w_lo, ch, ty.lo, tx.hi);
        let p10: T = pixel_at(data, n, h_lo, w_lo, ch, ty.hi, tx.lo);
        let p11: T = pixel_at(data, n, h_lo, w_lo, ch, ty.hi, tx.hi);
        let w00: T = unit.minus(ty.weight).times(unit.minus(tx.weight));
        let w01: T = unit.minus(ty.weight).times(tx.weight);
        let w10: T = ty.weight.times(unit.minus(tx.weight));
        let w11: T = ty.weight.times(tx.weight);
        strip.push(p00.times(w00).plus(p01.times(w01)).plus(p10.times(w10)).plus(p11.times(w11)));
        r = r + 1;
    }
    assert(strip@ =~= upsampled_image(
        data@,
        ic as int,
        h_lo as int,
        w_lo as int,
        h as int,
        wid as int,
    ));
    strip
}

/// Element `p` of the 1x1 convolution of an upsampled batch.
pub open spec fn conv1x1_upsample_at<T: Scalar>(
    x_lo: Seq<T>,
    w: Seq<T>,
    b: Seq<T>,
    ic: int,
    h_lo: int,
    w_lo: int,
    h: int,
    wid: int,
    p: int,
) -> T {
    let hw = h * wid;
    let chunk = b.len() * hw;
    let q = p % chunk;
    if ic == 0 {
        zero::<T>().plus_spec(b[q / hw])
    } else {
        let up = upsampled_image(
            image(x_lo, ic * h_lo * w_lo, p / chunk),
            ic,
            h_lo,
            w_lo,
            h,
            wid,
        );
        gemm_at(b[q / hw], w, up, hw, ic, q)
    }
}

/// 1x1 convolution of a batch upsampled from `h_lo x w_lo` to `h x wid` with
/// aligned corners.
pub fn conv1x1_upsample<T: Scalar>(
    x_lo: &[T],
    w: &[T],
    b: &[T],
    n: usize,
    ic: usize,
    h_lo: usize,
    w_lo: usize,
    oc: usize,
    h: usize,
    wid: usize,
) -> (out: Vec<T>)
    requires
        x_lo.len() == n * (ic * h_lo * w_lo),
        w.len() == oc * ic,
        b.len() == oc,
        0 < h_lo,
        0 < w_lo,
        h * wid <= usize::MAX,
        ic * (h * wid) <= usize::MAX,
        oc * (h * wid) <= usize::MAX,
        n * (oc * (h * wid)) <= usize::MAX,
    ensures
        out.len() == n * (oc * (h * wid)),
        forall|p: int|
            0 <= p < out.len() ==> #[trigger] out[p] == conv1x1_upsample_at(
                x_lo@,
                w@,
                b@,
                ic as int,
                h_lo as int,
                w_lo as int,
                h as int,
                wid as int,
                p,
            ),
{
    let hw: usize = h * wid;
    if hw == 0 || oc == 0 || ic == 0 {
        proof {
            if hw == 0 || oc == 0 {
                assert(n * (oc * hw) == 0) by (nonlinear_arith)
                    requires
                        hw == 0 || oc == 0,
                ;
            }
        }
        return bias_only(b, n, oc, hw);
    }
    let tables: UpsampleSpec<T> = UpsampleSpec::new_ac(h_lo, w_lo, h, wid);
    let chunk: usize = oc * hw;
    let ghost size: int = ic * h_lo * w_lo;
    let mut out: Vec<T> = Vec::new();
    let mut n_i: usize = 0;
    assert(0 * chunk == 0);
    while n_i < n
        invariant
            n_i <= n,
            x_lo.len() == n * size,
            size == ic * h_lo * w_lo,
            0 < ic,
            hw == h * wid,
            ic * hw <= usize::MAX,
            w.len() == oc * ic,
            b.len() == oc,
            chunk == oc * hw,
            n * chunk <= usize::MAX,
            tables.of(h_lo as int, w_lo as int),
            tables.up_h == h,
            tables.up_w == wid,
            out.len() == n_i * chunk,
            forall|p: int|
                0 <= p < n_i * chunk ==> #[trigger] out[p] == conv1x1_upsample_at(
                    x_lo@,
                    w@,
                    b@,
                    ic as int,
                    h_lo as int,
                    w_lo as int,
                    h as int,
                    wid as int,
                    p,
                ),
        decreases n - n_i,
    {
        let len: usize = x_lo.len() / n;
        proof {
            lemma_sizes_nonneg(ic as int, h_lo as int, w_lo as int);
            lemma_batch_part(n as int, size, n_i as int, len as int);
            assert((n_i + 1) * chunk == n_i * chunk + chunk && (n_i + 1) * chunk <= n * chunk)
                by (nonlinear_arith)
                requires
                    n_i + 1 <= n,
                    0 <= chunk,
            ;
        }
        let part: &[T] = &x_lo[n_i * len..n_i * len + len];
        assert(part@ =~= image(x_lo@, size, n_i as int));
        let strip: Vec<T> = upsample_strip(part, ic, h_lo, w_lo, h, wid, &tables);
        let mut img: Vec<T> = bias_planes(b, hw);
        let ghost filled = img@;
        gemm_nn_into(oc, hw, ic, w, strip.as_slice(), &mut img);
        let ghost before = out@;
        append_image(&mut out, &img, None, false);
        proof {
            assert forall|p: int| 0 <= p < (n_i + 1) * chunk implies #[trigger] out[p]
                == conv1x1_upsample_at(
                x_lo@,
                w@,
                b@,
                ic as int,
                h_lo as int,
                w_lo as int,
                h as int,
                wid as int,
                p,
            ) by {
                if p >= n_i * chunk {
                    let q = p - n_i * chunk;
                    lemma_split(n_i as int, chunk as int, q);
                    assert(out[p] == finish(img[q], None, p, false));
                    assert(filled[q] == b[q / hw as int]);
                } else {
                    assert(out[p] == before[p]);
                }
            }
        }
        n_i = n_i + 1;
    }
    out
}

} // verus!
