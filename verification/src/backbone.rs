//! The vision transformer: patches to tokens, blocks, and the features of its
//! out-layers, for one view or for several together.

use crate::cam_pose::token_width;
use crate::config::Config;
use crate::error::{Error, Fault, ModelError};
use crate::fast_attn::copy_slice;
use crate::fast_block::{block_forward, FastVitBlock};
use crate::flash_attn::Core;
use crate::gguf::{outcome, tensor_result, views, GgufFile, Header};
use crate::index::{
    accumulate, lemma_factor, lemma_join, lemma_row_within, lemma_split, lemma_within,
};
use crate::norm::{layernorm_matrix, layernorm_rows_of};
use crate::pos_embed::{interp_pos_embed, interpolated};
use crate::scalar::{less_ordered, one, zero, Analytic, Fixed, Scalar, Widens};
use crate::weights::{
    joined, lemma_sizes, load_pair, load_tensor, loaded, pair_loaded, shape_size, Pair, PairData,
};
use vstd::prelude::*;
use vstd::string::*;

verus! {

/// The loaded backbone.
pub struct Backbone<T> {
    /// `[embed, 3, patch, patch]`.
    pub patch_weight: Vec<T>,
    pub patch_bias: Vec<T>,
    pub cls_token: Vec<T>,
    /// One row for the reference view and one for all others.
    pub camera_token: Vec<T>,
    pub pos_embed_raw: Vec<T>,
    pub blocks: Vec<FastVitBlock<T>>,
    pub norm_w: Vec<T>,
    pub norm_b: Vec<T>,
    pub cfg: Config<T>,
}

/// The features of the out-layers, one buffer of `[patches, channels]` for each,
/// and the camera token.
pub struct BackboneFeatures<T> {
    pub feats: Vec<Vec<T>>,
    pub cam_token: Vec<T>,
}

/// The same for several views: by out-layer, then by view.
pub struct BackboneFeaturesMv<T> {
    pub feats: Vec<Vec<Vec<T>>>,
    pub cam_tokens: Vec<Vec<Vec<T>>>,
    /// The view that the others are seen against.
    pub ref_view: usize,
}

/// Rotary tables: by position in the image, and one position for all patches.
pub struct RopeTables<T> {
    pub local: (Vec<T>, Vec<T>),
    pub global: (Vec<T>, Vec<T>),
}

/// Tables of `n` rows for local and of `m` rows for global blocks.
pub open spec fn tables_fit<T>(r: RopeTables<T>, n: int, m: int, hd: int) -> bool {
    &&& hd % 4 == 0
    &&& r.local.0.len() == n * hd
    &&& r.local.1.len() == n * hd
    &&& r.global.0.len() == m * hd
    &&& r.global.1.len() == m * hd
}

/// The positions of the tokens of `s` views that all stand in one place: the
/// first token of a view at the origin, all others at one.
pub open spec fn shared_positions<T: Scalar>(n_tok: int, s: int) -> Seq<T> {
    Seq::new(
        ((s * n_tok) * 2) as nat,
        |q: int|
            if q / 2 % n_tok == 0 {
                zero::<T>()
            } else {
                one::<T>()
            },
    )
}

/// The positions of the tokens of `s` views for global blocks.
pub fn nodiff_positions<T: Scalar>(n_tok: usize, s: usize) -> (r: Vec<T>)
    requires
        (s * n_tok) * 2 <= usize::MAX,
        1 <= n_tok,
    ensures
        r@ == shared_positions::<T>(n_tok as int, s as int),
{
    assert(s * n_tok <= (s * n_tok) * 2 && 0 <= s * n_tok) by (nonlinear_arith)
        requires
            0 <= s,
            0 <= n_tok,
    ;
    let total: usize = s * n_tok * 2;
    let mut r: Vec<T> = Vec::new();
    let mut q: usize = 0;
    while q < total
        invariant
            q <= total,
            total == (s * n_tok) * 2,
            1 <= n_tok,
            r.len() == q,
            forall|j: int|
                0 <= j < q ==> #[trigger] r[j] == shared_positions::<T>(n_tok as int, s as int)[j],
        decreases total - q,
    {
        if q / 2 % n_tok == 0 {
            r.push(T::ratio(0, 1));
        } else {
            r.push(T::ratio(1, 1));
        }
        q = q + 1;
    }
    assert(r@ =~= shared_positions::<T>(n_tok as int, s as int));
    r
}

// ---- tokens -----------------------------------------------------------------

/// The terms of channel `e` of patch `(gy, gx)`: weights times pixels, colour by
/// colour and row by row.
pub open spec fn patch_term<T: Scalar>(
    w: Seq<T>,
    img: Seq<T>,
    patch: int,
    ih: int,
    iw: int,
    gy: int,
    gx: int,
    e: int,
) -> spec_fn(int) -> T {
    let pp = patch * patch;
    |t: int|
        w[e * (3 * pp) + t].times_spec(
            img[(t / pp * ih + (gy * patch + t % pp / patch)) * iw + (gx * patch + t % pp
                % patch)],
        )
}

/// Element `q` of the tokens of an image before positions are added: a token of
/// its own, then one for each patch.
pub open spec fn token_at<T: Scalar>(
    b: Backbone<T>,
    img: Seq<T>,
    gh: int,
    gw: int,
    q: int,
) -> T {
    let embed = b.cfg.embed_dim as int;
    let patch = b.cfg.patch_size as int;
    let e = q % embed;
    if q < embed {
        b.cls_token[e]
    } else {
        let p = q / embed - 1;
        accumulate(
            zero(),
            patch_term(
                b.patch_weight@,
                img,
                patch,
                gh * patch,
                gw * patch,
                p / gw,
                p % gw,
                e,
            ),
            (3 * (patch * patch)) as nat,
        ).plus_spec(b.patch_bias[e])
    }
}

/// The tokens of an image with their positions.
pub open spec fn tokens_of<T: Analytic>(b: Backbone<T>, img: Seq<T>, gh: int, gw: int) -> Seq<T> {
    let embed = b.cfg.embed_dim as int;
    let pe = interpolated(
        b.pos_embed_raw@,
        embed,
        b.cfg.pos_embed_grid as int,
        gh,
        gw,
        b.cfg.interp_offset,
    );
    Seq::new(
        ((1 + gh * gw) * embed) as nat,
        |q: int| token_at(b, img, gh, gw, q).plus_spec(pe[q]),
    )
}

/// View `v` of buffers of `len` numbers side by side.
pub open spec fn view_of<T>(x: Seq<T>, len: int, v: int) -> Seq<T> {
    x.subrange(v * len, v * len + len)
}

/// The tokens of several images, one after the other.
pub open spec fn all_tokens<T: Analytic>(
    b: Backbone<T>,
    images: Seq<Seq<T>>,
    gh: int,
    gw: int,
) -> Seq<T>
    decreases images.len(),
{
    if images.len() == 0 {
        Seq::empty()
    } else {
        all_tokens(b, images.drop_last(), gh, gw) + tokens_of(b, images.last(), gh, gw)
    }
}

// ---- the blocks -------------------------------------------------------------

/// Whether block `i` attends over all views: odd ones from `alt_start` on.
pub open spec fn is_global<T>(cfg: Config<T>, i: int) -> bool {
    cfg.alt_start >= 0 && i >= cfg.alt_start && i % 2 == 1
}

/// Whether block `i` uses rotary embedding.
pub open spec fn uses_rope<T>(cfg: Config<T>, i: int) -> bool {
    cfg.rope_start >= 0 && i >= cfg.rope_start
}

/// The tables of block `i`.
pub open spec fn block_tables<T>(
    cfg: Config<T>,
    rope: Option<RopeTables<T>>,
    i: int,
) -> Option<(Seq<T>, Seq<T>)> {
    match rope {
        Some(r) => if !uses_rope(cfg, i) {
            None
        } else if is_global(cfg, i) {
            Some((r.global.0@, r.global.1@))
        } else {
            Some((r.local.0@, r.local.1@))
        },
        None => None,
    }
}

/// The tokens of all views with each view's first one replaced: by the first
/// camera row for the first view, by the second for all others.
pub open spec fn injected<T>(x: Seq<T>, cam: Seq<T>, embed: int, len: int) -> Seq<T> {
    Seq::new(
        x.len(),
        |q: int|
            if q % len < embed {
                if q < len {
                    cam[q % len]
                } else {
                    cam[embed + q % len]
                }
            } else {
                x[q]
            },
    )
}

/// A block applied to each view on its own.
pub open spec fn each_view<T: Analytic>(
    b: FastVitBlock<T>,
    x: Seq<T>,
    n_tok: int,
    s: int,
    rope: Option<(Seq<T>, Seq<T>)>,
    core: Core,
) -> Seq<T> {
    let len = n_tok * b.embed;
    Seq::new(
        (s * len) as nat,
        |q: int| block_forward(b, view_of(x, len, q / len), n_tok, rope, core)[q % len],
    )
}

/// The tokens after some blocks, and those after the last local one.
pub struct Stream<T> {
    pub x: Seq<T>,
    pub local: Seq<T>,
}

/// What block `i` makes of the tokens of `s` views.
pub open spec fn block_step<T: Analytic>(
    b: Backbone<T>,
    rope: Option<RopeTables<T>>,
    st: Stream<T>,
    n_tok: int,
    s: int,
    core: Core,
    i: int,
) -> Stream<T> {
    let embed = b.cfg.embed_dim as int;
    let x = if b.cfg.alt_start >= 0 && i == b.cfg.alt_start {
        injected(st.x, b.camera_token@, embed, n_tok * embed)
    } else {
        st.x
    };
    let tables = block_tables(b.cfg, rope, i);
    if is_global(b.cfg, i) {
        Stream { x: block_forward(b.blocks[i], x, s * n_tok, tables, core), local: st.local }
    } else {
        let y = each_view(b.blocks[i], x, n_tok, s, tables, core);
        Stream { x: y, local: y }
    }
}

/// The tokens after the first `n` blocks.
pub open spec fn stream_after<T: Analytic>(
    b: Backbone<T>,
    rope: Option<RopeTables<T>>,
    start: Seq<T>,
    n_tok: int,
    s: int,
    core: Core,
    n: nat,
) -> Stream<T>
    decreases n,
{
    if n == 0 {
        Stream { x: start, local: start }
    } else {
        block_step(
            b,
            rope,
            stream_after(b, rope, start, n_tok, s, core, (n - 1) as nat),
            n_tok,
            s,
            core,
            n - 1,
        )
    }
}

// ---- features ---------------------------------------------------------------

/// The patch features of one view: the local tokens beside the normalised ones,
/// or the normalised ones alone.
pub open spec fn feature_of<T: Analytic>(
    b: Backbone<T>,
    local: Seq<T>,
    x: Seq<T>,
    n_tok: int,
) -> Seq<T> {
    let embed = b.cfg.embed_dim as int;
    let normed = layernorm_rows_of(x, n_tok, embed, b.norm_w@, b.norm_b@, b.cfg.ln_eps, false);
    if b.cfg.cat_token {
        Seq::new(
            ((n_tok - 1) * (2 * embed)) as nat,
            |q: int|
                {
                    let row = (q / (2 * embed) + 1) * embed;
                    let c = q % (2 * embed);
                    if c < embed {
                        local[row + c]
                    } else {
                        normed[row + c - embed]
                    }
                },
        )
    } else {
        normed.skip(embed)
    }
}

/// The camera token of one view: the first local token beside the first one, or
/// that alone.
pub open spec fn camera_of<T>(b: Backbone<T>, local: Seq<T>, x: Seq<T>) -> Seq<T> {
    let embed = b.cfg.embed_dim as int;
    if b.cfg.cat_token {
        local.take(embed) + x.take(embed)
    } else {
        x.take(embed)
    }
}

/// The patch features of view `v` after block `layer`.
pub open spec fn view_feature<T: Analytic>(
    b: Backbone<T>,
    rope: Option<RopeTables<T>>,
    start: Seq<T>,
    n_tok: int,
    s: int,
    core: Core,
    layer: int,
    v: int,
) -> Seq<T> {
    let st = stream_after(b, rope, start, n_tok, s, core, (layer + 1) as nat);
    let len = n_tok * b.cfg.embed_dim;
    feature_of(b, view_of(st.local, len, v), view_of(st.x, len, v), n_tok)
}

/// The camera token of view `v` after block `layer`.
pub open spec fn view_camera<T: Analytic>(
    b: Backbone<T>,
    rope: Option<RopeTables<T>>,
    start: Seq<T>,
    n_tok: int,
    s: int,
    core: Core,
    layer: int,
    v: int,
) -> Seq<T> {
    let st = stream_after(b, rope, start, n_tok, s, core, (layer + 1) as nat);
    let len = n_tok * b.cfg.embed_dim;
    camera_of(b, view_of(st.local, len, v), view_of(st.x, len, v))
}

/// The first out-layer that is not a block.
pub open spec fn stray_layer(layers: Seq<i32>, depth: int) -> Option<i32>
    decreases layers.len(),
{
    if layers.len() == 0 {
        None
    } else if layers[0] < 0 || layers[0] >= depth {
        Some(layers[0])
    } else {
        stray_layer(layers.skip(1), depth)
    }
}

fn find_stray(layers: &Vec<i32>, depth: usize) -> (r: Option<i32>)
    requires
        depth <= i32::MAX,
    ensures
        r == stray_layer(layers@, depth as int),
        r is None ==> forall|o: int| 0 <= o < layers.len() ==> 0 <= #[trigger] layers[o] < depth,
{
    let mut i: usize = 0;
    assert(layers@.skip(0) =~= layers@);
    while i < layers.len()
        invariant
            i <= layers.len(),
            depth <= i32::MAX,
            stray_layer(layers@.skip(i as int), depth as int) == stray_layer(
                layers@,
                depth as int,
            ),
            forall|o: int| 0 <= o < i ==> 0 <= #[trigger] layers[o] < depth,
        decreases layers.len() - i,
    {
        if layers[i] < 0 || layers[i] >= depth as i32 {
            return Some(layers[i]);
        }
        assert(layers@.skip(i as int).skip(1) =~= layers@.skip(i + 1));
        i = i + 1;
    }
    assert(layers@.skip(i as int) =~= Seq::empty());
    None
}

// ---- several views ----------------------------------------------------------

/// View `reference` first, the others in order.
pub open spec fn order_at(reference: int, p: int) -> int {
    if p == 0 {
        reference
    } else if p <= reference {
        p - 1
    } else {
        p
    }
}

/// Where a view stands once `reference` is first.
pub open spec fn restore_at(reference: int, t: int) -> int {
    if t == reference {
        0
    } else if t < reference {
        t + 1
    } else {
        t
    }
}

/// Restoring undoes the reordering, and the reordering is one of the views.
pub proof fn law_restore(reference: int, s: int, p: int)
    requires
        0 <= reference < s,
        0 <= p < s,
    ensures
        restore_at(reference, order_at(reference, p)) == p,
        order_at(reference, restore_at(reference, p)) == p,
        0 <= order_at(reference, p) < s,
        0 <= restore_at(reference, p) < s,
{
}

/// The views in processing order: `reference` first.
pub fn reorder_by_reference(s: usize, reference: usize) -> (order: Vec<usize>)
    requires
        reference < s,
    ensures
        order.len() == s,
        forall|p: int|
            0 <= p < s ==> #[trigger] order[p] == order_at(reference as int, p) && order[p] < s,
{
    let mut order: Vec<usize> = Vec::new();
    let mut p: usize = 0;
    while p < s
        invariant
            p <= s,
            reference < s,
            order.len() == p,
            forall|q: int|
                0 <= q < p ==> #[trigger] order[q] == order_at(reference as int, q) && order[q]
                    < s,
        decreases s - p,
    {
        if p == 0 {
            order.push(reference);
        } else if p <= reference {
            order.push(p - 1);
        } else {
            order.push(p);
        }
        p = p + 1;
    }
    order
}

/// Where each view stands in processing order.
pub fn restore_original_order(s: usize, reference: usize) -> (restore: Vec<usize>)
    requires
        reference < s,
    ensures
        restore.len() == s,
        forall|t: int|
            0 <= t < s ==> #[trigger] restore[t] == restore_at(reference as int, t) && restore[t]
                < s,
{
    let mut restore: Vec<usize> = Vec::new();
    let mut t: usize = 0;
    while t < s
        invariant
            t <= s,
            reference < s,
            restore.len() == t,
            forall|q: int|
                0 <= q < t ==> #[trigger] restore[q] == restore_at(reference as int, q)
                    && restore[q] < s,
        decreases s - t,
    {
        if t == reference {
            restore.push(0);
        } else if t < reference {
            restore.push(t + 1);
        } else {
            restore.push(t);
        }
        t = t + 1;
    }
    restore
}

// ---- the reference view -----------------------------------------------------

/// The terms of a sum of squares.
pub open spec fn square_term<D: Scalar>(v: Seq<D>) -> spec_fn(int) -> D {
    |i: int| v[i].times_spec(v[i])
}

/// The length of a vector.
pub open spec fn length_of<D: Analytic>(v: Seq<D>) -> D {
    accumulate(zero(), square_term(v), v.len()).root_spec()
}

/// A vector of `embed` numbers over its length; zeros for what it lacks.
pub open spec fn unit_of<D: Analytic>(v: Seq<D>, embed: int) -> Seq<D> {
    let n = length_of(v);
    let inv = if zero::<D>().less_spec(n) {
        one::<D>().over_spec(n)
    } else {
        zero::<D>()
    };
    Seq::new(
        embed as nat,
        |j: int|
            if j < v.len() {
                v[j].times_spec(inv)
            } else {
                zero::<D>()
            },
    )
}

/// The terms of a dot product.
pub open spec fn dot_term<D: Scalar>(a: Seq<D>, b: Seq<D>) -> spec_fn(int) -> D {
    |i: int| a[i].times_spec(b[i])
}

/// The similarities of view `v` to the first `n` views but itself, added up.
pub open spec fn similarity_sum<D: Scalar>(units: Seq<Seq<D>>, v: int, n: nat) -> D
    decreases n,
{
    if n == 0 {
        zero()
    } else {
        let before = similarity_sum(units, v, (n - 1) as nat);
        if n - 1 == v {
            before
        } else {
            before.plus_spec(
                accumulate(zero(), dot_term(units[v], units[n - 1]), units[v].len()),
            )
        }
    }
}

/// How similar view `v` is to the others on average.
pub open spec fn similarity<D: Scalar>(units: Seq<Seq<D>>, v: int) -> D {
    similarity_sum(units, v, units.len()).over_spec(
        D::from_count_spec(units.len() as usize).minus_spec(one()),
    )
}

/// The terms of a plain sum.
pub open spec fn plain_term<D: Scalar>(v: Seq<D>) -> spec_fn(int) -> D {
    |i: int| v[i]
}

/// The terms of the squared distances from `mean`.
pub open spec fn spread_term<D: Scalar>(v: Seq<D>, mean: D) -> spec_fn(int) -> D {
    |i: int| v[i].minus_spec(mean).times_spec(v[i].minus_spec(mean))
}

/// The variance of a vector's numbers, over one less than their number.
pub open spec fn spread<D: Scalar>(v: Seq<D>) -> D {
    let n = D::from_count_spec(v.len() as usize);
    let mean = accumulate(zero(), plain_term(v), v.len()).over_spec(n);
    accumulate(zero(), spread_term(v, mean), v.len()).over_spec(n.minus_spec(one()))
}

/// The smallest of the first `n` numbers and the first one.
pub open spec fn low_of<D: Scalar>(m: Seq<D>, n: nat) -> D
    decreases n,
{
    if n == 0 {
        m[0]
    } else {
        let before = low_of(m, (n - 1) as nat);
        if m[n - 1].less_spec(before) {
            m[n - 1]
        } else {
            before
        }
    }
}

/// The largest of the first `n` numbers and the first one.
pub open spec fn high_of<D: Scalar>(m: Seq<D>, n: nat) -> D
    decreases n,
{
    if n == 0 {
        m[0]
    } else {
        let before = high_of(m, (n - 1) as nat);
        if before.less_spec(m[n - 1]) {
            m[n - 1]
        } else {
            before
        }
    }
}

/// Numbers brought to the range from zero to one.
pub open spec fn ranged<D: Scalar>(m: Seq<D>) -> Seq<D> {
    let low = low_of(m, m.len());
    let denom = high_of(m, m.len()).minus_spec(low).plus_spec(
        D::from_double_bits_spec(0x3e45_798e_e230_8c3a),
    );
    Seq::new(m.len(), |i: int| m[i].minus_spec(low).over_spec(denom))
}

/// How far a view's three measures are from the middle.
pub open spec fn imbalance<D: Analytic>(a: D, b: D, c: D) -> D {
    let half = D::ratio_spec(1, 2);
    a.minus_spec(half).magnitude_spec().plus_spec(b.minus_spec(half).magnitude_spec()).plus_spec(
        c.minus_spec(half).magnitude_spec(),
    )
}

/// The first of the first `n` views with the least imbalance, and that.
pub open spec fn best_balanced<D: Analytic>(bal: Seq<D>, n: nat) -> (int, D)
    decreases n,
{
    if n == 0 {
        (0, D::greatest_spec())
    } else {
        let before = best_balanced(bal, (n - 1) as nat);
        if bal[n - 1].less_spec(before.1) {
            (n - 1, bal[n - 1])
        } else {
            before
        }
    }
}

/// How far each view is from the middle by similarity, length and spread.
pub open spec fn imbalances<D: Analytic>(cls: Seq<Seq<D>>) -> Seq<D> {
    let s = cls.len();
    let units = Seq::new(s, |v: int| unit_of(cls[v], cls[0].len() as int));
    let sim = ranged(Seq::new(s, |v: int| similarity(units, v)));
    let len = ranged(Seq::new(s, |v: int| length_of(cls[v])));
    let var = ranged(Seq::new(s, |v: int| spread(units[v])));
    Seq::new(s, |v: int| imbalance(sim[v], len[v], var[v]))
}

/// The view that stands in the middle by similarity, length and spread.
pub open spec fn saddle_view<D: Analytic>(cls: Seq<Seq<D>>) -> int {
    if cls.len() <= 1 || cls[0].len() == 0 {
        0
    } else {
        best_balanced(imbalances(cls), cls.len()).0
    }
}

/// `r` is the first of the least scores.
pub open spec fn is_first_least<D: Scalar>(scores: Seq<D>, r: int) -> bool {
    &&& 0 <= r < scores.len()
    &&& forall|v: int| 0 <= v < scores.len() ==> !(#[trigger] scores[v]).less_spec(scores[r])
    &&& forall|v: int| 0 <= v < r ==> scores[r].less_spec(#[trigger] scores[v])
}

/// The numbers are ordered, with none above the greatest.
pub open spec fn bounded_order<D: Analytic>() -> bool {
    &&& less_ordered::<D>()
    &&& forall|x: D| !#[trigger] D::greatest_spec().less_spec(x)
}

proof fn lemma_best_balanced<D: Analytic>(bal: Seq<D>, n: nat)
    requires
        bounded_order::<D>(),
        n <= bal.len(),
    ensures
        ({
            let (r, b) = best_balanced(bal, n);
            &&& forall|v: int| 0 <= v < n ==> !(#[trigger] bal[v]).less_spec(b)
            &&& (r == 0 && b == D::greatest_spec()) || (0 <= r < n && b == bal[r] && forall|v: int|
                0 <= v < r ==> b.less_spec(#[trigger] bal[v]))
        }),
    decreases n,
{
    if n > 0 {
        lemma_best_balanced(bal, (n - 1) as nat);
        let before = best_balanced(bal, (n - 1) as nat).1;
        let x = bal[n - 1];
        if x.less_spec(before) {
            assert forall|v: int| 0 <= v < n - 1 implies x.less_spec(#[trigger] bal[v])
                && !bal[v].less_spec(x) by {
                if !x.less_spec(bal[v]) {
                    assert(!bal[v].less_spec(before));
                    assert(!x.less_spec(before));
                }
            }
        }
    }
}

/// Where numbers are ordered, the reference view has the least imbalance, and
/// every view before it has more.
pub proof fn law_saddle_is_least<D: Analytic>(cls: Seq<Seq<D>>)
    requires
        bounded_order::<D>(),
        cls.len() >= 2,
        cls[0].len() > 0,
    ensures
        is_first_least(imbalances(cls), saddle_view(cls)),
{
    let bal = imbalances(cls);
    lemma_best_balanced(bal, bal.len());
    let (r, b) = best_balanced(bal, bal.len());
    if b == D::greatest_spec() && r == 0 {
        assert forall|v: int| 0 <= v < bal.len() implies !(#[trigger] bal[v]).less_spec(bal[0]) by {
            assert(!bal[v].less_spec(D::greatest_spec()));
            assert(!D::greatest_spec().less_spec(bal[0]));
        }
    }
}

/// Fixed-point numbers are ordered and end at the greatest.
pub proof fn law_fixed_bounded()
    ensures
        bounded_order::<Fixed>(),
{
}

fn sum_of<D: Scalar>(a: &[D], b: &[D]) -> (r: D)
    requires
        a.len() == b.len(),
    ensures
        r == accumulate(zero(), dot_term(a@, b@), a@.len()),
{
    let ghost t = dot_term(a@, b@);
    let mut s: D = D::ratio(0, 1);
    let mut i: usize = 0;
    while i < a.len()
        invariant
            i <= a.len(),
            a.len() == b.len(),
            t == dot_term(a@, b@),
            s == accumulate(zero(), t, i as nat),
        decreases a.len() - i,
    {
        assert(t(i as int) == a@[i as int].times_spec(b@[i as int]));
        s = s.plus(a[i].times(b[i]));
        i = i + 1;
    }
    s
}

fn vector_length<D: Analytic>(v: &[D]) -> (r: D)
    ensures
        r == length_of(v@),
{
    let s: D = sum_of(v, v);
    proof {
        crate::index::lemma_accumulate_agree(
            zero(),
            dot_term(v@, v@),
            square_term(v@),
            v@.len(),
        );
    }
    s.root()
}

fn unit_vector<D: Analytic>(v: &[D], len: D, embed: usize) -> (r: Vec<D>)
    requires
        len == length_of(v@),
    ensures
        r@ == unit_of(v@, embed as int),
        r.len() == embed,
{
    let nil: D = D::ratio(0, 1);
    let inv: D = if nil.less(len) {
        D::ratio(1, 1).over(len)
    } else {
        nil
    };
    let mut r: Vec<D> = Vec::new();
    let mut j: usize = 0;
    while j < embed
        invariant
            j <= embed,
            nil == zero::<D>(),
            len == length_of(v@),
            inv == (if nil.less_spec(len) {
                one::<D>().over_spec(len)
            } else {
                nil
            }),
            r.len() == j,
            forall|k: int| 0 <= k < j ==> #[trigger] r[k] == unit_of(v@, embed as int)[k],
        decreases embed - j,
    {
        if j < v.len() {
            r.push(v[j].times(inv));
        } else {
            r.push(nil);
        }
        j = j + 1;
    }
    assert(r@ =~= unit_of(v@, embed as int));
    r
}

fn spread_of<D: Scalar>(v: &[D]) -> (r: D)
    ensures
        r == spread(v@),
{
    let n: D = D::from_count(v.len());
    let mut sum: D = D::ratio(0, 1);
    let mut i: usize = 0;
    let ghost t = plain_term(v@);
    while i < v.len()
        invariant
            i <= v.len(),
            t == plain_term(v@),
            sum == accumulate(zero(), t, i as nat),
        decreases v.len() - i,
    {
        assert(t(i as int) == v@[i as int]);
        sum = sum.plus(v[i]);
        i = i + 1;
    }
    let mean: D = sum.over(n);
    let ghost u = spread_term(v@, mean);
    let mut var: D = D::ratio(0, 1);
    let mut k: usize = 0;
    while k < v.len()
        invariant
            k <= v.len(),
            u == spread_term(v@, mean),
            var == accumulate(zero(), u, k as nat),
        decreases v.len() - k,
    {
        assert(u(k as int) == v@[k as int].minus_spec(mean).times_spec(
            v@[k as int].minus_spec(mean),
        ));
        let d: D = v[k].minus(mean);
        var = var.plus(d.times(d));
        k = k + 1;
    }
    var.over(n.minus(D::ratio(1, 1)))
}

fn bring_to_range<D: Scalar>(m: &Vec<D>) -> (r: Vec<D>)
    requires
        0 < m.len(),
    ensures
        r@ == ranged(m@),
        r.len() == m.len(),
{
    let mut low: D = m[0];
    let mut high: D = m[0];
    let mut i: usize = 0;
    while i < m.len()
        invariant
            i <= m.len(),
            low == low_of(m@, i as nat),
            high == high_of(m@, i as nat),
        decreases m.len() - i,
    {
        if m[i].less(low) {
            low = m[i];
        }
        if high.less(m[i]) {
            high = m[i];
        }
        i = i + 1;
    }
    let denom: D = high.minus(low).plus(D::from_double_bits(0x3e45_798e_e230_8c3a));
    let mut r: Vec<D> = Vec::new();
    let mut k: usize = 0;
    while k < m.len()
        invariant
            k <= m.len(),
            r.len() == k,
            forall|j: int| 0 <= j < k ==> #[trigger] r[j] == m[j].minus_spec(low).over_spec(denom),
        decreases m.len() - k,
    {
        r.push(m[k].minus(low).over(denom));
        k = k + 1;
    }
    assert(r@ =~= ranged(m@));
    r
}

fn similarity_of<D: Scalar>(units: &Vec<Vec<D>>, v: usize, embed: Ghost<int>) -> (r: D)
    requires
        v < units.len(),
        forall|w: int| 0 <= w < units.len() ==> (#[trigger] units[w]).len() == embed@,
    ensures
        r == similarity(Seq::new(units@.len(), |w: int| units@[w]@), v as int),
{
    let ghost us = Seq::new(units@.len(), |w: int| units@[w]@);
    let mut sum: D = D::ratio(0, 1);
    let mut w: usize = 0;
    while w < units.len()
        invariant
            w <= units.len(),
            v < units.len(),
            us == Seq::new(units@.len(), |w: int| units@[w]@),
            forall|k: int| 0 <= k < units.len() ==> (#[trigger] units[k]).len() == embed@,
            sum == similarity_sum(us, v as int, w as nat),
        decreases units.len() - w,
    {
        if w != v {
            assert(units@[v as int].len() == embed@ && units@[w as int].len() == embed@);
            sum = sum.plus(sum_of(units[v].as_slice(), units[w].as_slice()));
        }
        w = w + 1;
    }
    sum.over(D::from_count(units.len()).minus(D::ratio(1, 1)))
}

/// The view that the others are seen against: of similarity to the others, length
/// and spread, each from zero to one over all views, its measures lie closest to
/// the middle. The first view where there are not two.
pub fn select_reference_view_saddle<D: Analytic>(cls: &[Vec<D>]) -> (r: usize)
    ensures
        r == saddle_view(views(cls@)),
        cls.len() <= 1 ==> r == 0,
        cls.len() > 0 ==> r < cls.len(),
        bounded_order::<D>() && cls.len() >= 2 && cls[0].len() > 0 ==> is_first_least(
            imbalances(views(cls@)),
            r as int,
        ),
{
    proof {
        if bounded_order::<D>() && cls.len() >= 2 && cls[0].len() > 0 {
            law_saddle_is_least(views(cls@));
        }
    }
    let s: usize = cls.len();
    if s <= 1 {
        return 0;
    }
    let embed: usize = cls[0].len();
    if embed == 0 {
        return 0;
    }
    let mut lens: Vec<D> = Vec::new();
    let mut units: Vec<Vec<D>> = Vec::new();
    let mut vars: Vec<D> = Vec::new();
    let mut v: usize = 0;
    while v < s
        invariant
            v <= s,
            s == cls.len(),
            lens.len() == v,
            units.len() == v,
            vars.len() == v,
            forall|k: int| 0 <= k < v ==> #[trigger] lens[k] == length_of(cls[k]@),
            forall|k: int|
                0 <= k < v ==> (#[trigger] units[k])@ == unit_of(cls[k]@, embed as int)
                    && units[k].len() == embed,
            forall|k: int|
                0 <= k < v ==> #[trigger] vars[k] == spread(unit_of(cls[k]@, embed as int)),
        decreases s - v,
    {
        let len: D = vector_length(cls[v].as_slice());
        let u: Vec<D> = unit_vector(cls[v].as_slice(), len, embed);
        vars.push(spread_of(u.as_slice()));
        lens.push(len);
        units.push(u);
        v = v + 1;
    }
    let ghost us = Seq::new(s as nat, |v: int| unit_of(cls@[v]@, embed as int));
    let ghost given = views(cls@);
    assert(us =~= Seq::new(s as nat, |v: int| unit_of(given[v], embed as int)));
    assert(us =~= Seq::new(units@.len(), |w: int| units@[w]@));
    let mut sims: Vec<D> = Vec::new();
    let mut v: usize = 0;
    while v < s
        invariant
            v <= s,
            s == units.len(),
            us == Seq::new(units@.len(), |w: int| units@[w]@),
            forall|k: int| 0 <= k < s ==> (#[trigger] units[k]).len() == embed,
            sims.len() == v,
            forall|k: int| 0 <= k < v ==> #[trigger] sims[k] == similarity(us, k),
        decreases s - v,
    {
        sims.push(similarity_of(&units, v, Ghost(embed as int)));
        v = v + 1;
    }
    assert(sims@ =~= Seq::new(s as nat, |v: int| similarity(us, v)));
    assert(lens@ =~= Seq::new(s as nat, |v: int| length_of(given[v])));
    assert(vars@ =~= Seq::new(s as nat, |v: int| spread(us[v])));
    let sim: Vec<D> = bring_to_range(&sims);
    let len: Vec<D> = bring_to_range(&lens);
    let var: Vec<D> = bring_to_range(&vars);
    let ghost bals = Seq::new(s as nat, |v: int| imbalance(sim@[v], len@[v], var@[v]));
    let half: D = D::ratio(1, 2);
    let mut best: usize = 0;
    let mut best_bal: D = D::greatest();
    let mut v: usize = 0;
    while v < s
        invariant
            v <= s,
            0 < s,
            sim.len() == s,
            len.len() == s,
            var.len() == s,
            half == D::ratio_spec(1, 2),
            bals == Seq::new(s as nat, |v: int| imbalance(sim@[v], len@[v], var@[v])),
            (best as int, best_bal) == best_balanced(bals, v as nat),
            best < s,
        decreases s - v,
    {
        let bal: D = sim[v].minus(half).magnitude().plus(len[v].minus(half).magnitude()).plus(
            var[v].minus(half).magnitude(),
        );
        if bal.less(best_bal) {
            best_bal = bal;
            best = v;
        }
        v = v + 1;
    }
    assert(bals =~= imbalances(given));
    best
}

// ---- running ----------------------------------------------------------------

impl<T: Analytic> Backbone<T> {
    /// The parts fit together.
    pub open spec fn wf(&self) -> bool {
        let embed = self.cfg.embed_dim as int;
        let patch = self.cfg.patch_size as int;
        let grid = self.cfg.pos_embed_grid as int;
        &&& 1 <= embed
        &&& 1 <= patch
        &&& 1 <= grid <= i32::MAX
        &&& self.patch_weight.len() == embed * (3 * (patch * patch))
        &&& self.patch_bias.len() == embed
        &&& self.cls_token.len() == embed
        &&& self.camera_token.len() == embed || self.camera_token.len() == 2 * embed
        &&& self.pos_embed_raw.len() == (1 + grid * grid) * embed
        &&& self.norm_w.len() == embed
        &&& self.norm_b.len() == embed
        &&& self.blocks.len() <= i32::MAX
        &&& forall|i: int|
            0 <= i < self.blocks.len() ==> (#[trigger] self.blocks[i]).wf() && self.blocks[i].embed
                == embed && self.blocks[i].attn.head_dim == self.cfg.head_dim
    }

    /// `n` tokens can be run through the blocks.
    pub open spec fn fits(&self, n: int) -> bool {
        &&& 0 <= n
        &&& n * (3 * self.cfg.embed_dim) <= usize::MAX
        &&& n * self.cfg.head_dim <= usize::MAX
        &&& forall|i: int|
            0 <= i < self.blocks.len() ==> (#[trigger] self.blocks[i]).attn.heads * n
                <= usize::MAX && n * (2 * self.blocks[i].ffn.width()) <= usize::MAX
    }

    /// An image of `gh` by `gw` patches.
    pub open spec fn is_image(&self, img: Seq<T>, gh: int, gw: int) -> bool {
        let patch = self.cfg.patch_size as int;
        &&& img.len() == (3 * (gh * patch)) * (gw * patch)
        &&& 1 <= gh
        &&& 1 <= gw
    }

    pub fn config(&self) -> (r: &Config<T>)
        ensures
            *r == self.cfg,
    {
        &self.cfg
    }

    /// The tokens of an image with their positions.
    fn embed_image(&self, img: &[T], gh: usize, gw: usize) -> (x: Vec<T>)
        requires
            self.wf(),
            self.is_image(img@, gh as int, gw as int),
            (1 + gh * gw) * self.cfg.embed_dim <= usize::MAX,
        ensures
            x@ == tokens_of(*self, img@, gh as int, gw as int),
            x.len() == (1 + gh * gw) * self.cfg.embed_dim,
    {
        let embed: usize = self.cfg.embed_dim as usize;
        let patch: usize = self.cfg.patch_size as usize;
        proof {
            lemma_factor(1 + gh * gw, embed as int);
            assert(0 <= gh * gw) by (nonlinear_arith)
                requires
                    0 <= gh,
                    0 <= gw,
            ;
            lemma_image_size(gh as int, gw as int, patch as int);
            lemma_weight_size(embed as int, patch as int);
            assert(img.len() == (3 * (gh * patch)) * (gw * patch));
        }
        let pe: Vec<T> = interp_pos_embed(
            self.pos_embed_raw.as_slice(),
            embed,
            self.cfg.pos_embed_grid as usize,
            gh,
            gw,
            self.cfg.interp_offset,
        );
        let total: usize = (1 + gh * gw) * embed;
        let ih: usize = gh * patch;
        let iw: usize = gw * patch;
        let pp: usize = patch * patch;
        let mut x: Vec<T> = Vec::new();
        let mut q: usize = 0;
        while q < total
            invariant
                q <= total,
                total == (1 + gh * gw) * embed,
                self.wf(),
                self.is_image(img@, gh as int, gw as int),
                embed == self.cfg.embed_dim,
                patch == self.cfg.patch_size,
                ih == gh * patch,
                iw == gw * patch,
                pp == patch * patch,
                3 * pp <= usize::MAX,
                embed * (3 * pp) <= usize::MAX,
                3 * ih <= usize::MAX,
                (3 * ih) * iw <= usize::MAX,
                pe@ == interpolated(
                    self.pos_embed_raw@,
                    embed as int,
                    self.cfg.pos_embed_grid as int,
                    gh as int,
                    gw as int,
                    self.cfg.interp_offset,
                ),
                x.len() == q,
                forall|j: int|
                    0 <= j < q ==> #[trigger] x[j] == tokens_of(
                        *self,
                        img@,
                        gh as int,
                        gw as int,
                    )[j],
            decreases total - q,
        {
            let e: usize = q % embed;
            let v: T = if q < embed {
                self.cls_token[e]
            } else {
                proof {
                    lemma_row_within(q as int, 1 + gh * gw, embed as int);
                    lemma_join(q as int, embed as int);
                    assert(q / embed >= 1) by (nonlinear_arith)
                        requires
                            q >= embed,
                            embed >= 1,
                    ;
                    lemma_row_within(q / embed - 1, gh as int, gw as int);
                }
                let p: usize = q / embed - 1;
                self.patch_value(img, gh, gw, p / gw, p % gw, e)
            };
            x.push(v.plus(pe[q]));
            q = q + 1;
        }
        assert(x@ =~= tokens_of(*self, img@, gh as int, gw as int));
        x
    }

    fn patch_value(&self, img: &[T], gh: usize, gw: usize, gy: usize, gx: usize, e: usize) -> (r: T)
        requires
            self.wf(),
            self.is_image(img@, gh as int, gw as int),
            gy < gh,
            gx < gw,
            e < self.cfg.embed_dim,
        ensures
            r == accumulate(
                zero(),
                patch_term(
                    self.patch_weight@,
                    img@,
                    self.cfg.patch_size as int,
                    gh * self.cfg.patch_size,
                    gw * self.cfg.patch_size,
                    gy as int,
                    gx as int,
                    e as int,
                ),
                (3 * (self.cfg.patch_size * self.cfg.patch_size)) as nat,
            ).plus_spec(self.patch_bias[e as int]),
    {
        let patch: usize = self.cfg.patch_size as usize;
        let embed: usize = self.cfg.embed_dim as usize;
        proof {
            lemma_image_size(gh as int, gw as int, patch as int);
            lemma_weight_size(embed as int, patch as int);
            assert(img.len() == (3 * (gh * patch)) * (gw * patch));
        }
        let ih: usize = gh * patch;
        let iw: usize = gw * patch;
        let pp: usize = patch * patch;
        let ghost term = patch_term(
            self.patch_weight@,
            img@,
            patch as int,
            ih as int,
            iw as int,
            gy as int,
            gx as int,
            e as int,
        );
        let mut s: T = T::ratio(0, 1);
        let mut t: usize = 0;
        while t < 3 * pp
            invariant
                t <= 3 * pp,
                3 * pp <= usize::MAX,
                pp == patch * patch,
                1 <= patch,
                1 <= pp,
                gy < gh,
                gx < gw,
                e < embed,
                ih == gh * patch,
                iw == gw * patch,
                embed * (3 * pp) <= usize::MAX,
                (3 * ih) * iw <= usize::MAX,
                3 * ih <= usize::MAX,
                self.patch_weight.len() == embed * (3 * pp),
                img.len() == (3 * ih) * iw,
                term == patch_term(
                    self.patch_weight@,
                    img@,
                    patch as int,
                    ih as int,
                    iw as int,
                    gy as int,
                    gx as int,
                    e as int,
                ),
                s == accumulate(zero(), term, t as nat),
            decreases 3 * pp - t,
        {
            let c: usize = t / pp;
            let within: usize = t % pp;
            let ky: usize = within / patch;
            let kx: usize = within % patch;
            proof {
                lemma_row_within(t as int, 3, pp as int);
                lemma_row_within(within as int, patch as int, patch as int);
                lemma_within(gy as int, gh as int, ky as int, patch as int);
                lemma_within(gx as int, gw as int, kx as int, patch as int);
                lemma_within(c as int, 3, gy * patch + ky, ih as int);
                lemma_within(c * ih + (gy * patch + ky), 3 * ih, gx * patch + kx, iw as int);
                lemma_within(e as int, embed as int, t as int, 3 * pp);
                assert(term(t as int) == self.patch_weight@[e * (3 * pp) + t].times_spec(
                    img@[(c * ih + (gy * patch + ky)) * iw + (gx * patch + kx)],
                ));
            }
            let y: usize = gy * patch + ky;
            let x: usize = gx * patch + kx;
            s = s.plus(
                self.patch_weight[e * (3 * pp) + t].times(img[(c * ih + y) * iw + x]),
            );
            t = t + 1;
        }
        s.plus(self.patch_bias[e])
    }

    /// The tokens of several images, one after the other.
    fn embed_images(&self, images: &[Vec<T>], gh: usize, gw: usize) -> (x: Vec<T>)
        requires
            self.wf(),
            forall|v: int|
                0 <= v < images.len() ==> self.is_image(
                    (#[trigger] images[v])@,
                    gh as int,
                    gw as int,
                ),
            1 <= images.len(),
            images.len() * ((1 + gh * gw) * self.cfg.embed_dim) <= usize::MAX,
        ensures
            x@ == all_tokens(*self, views(images@), gh as int, gw as int),
            x.len() == images.len() * ((1 + gh * gw) * self.cfg.embed_dim),
    {
        let ghost len = (1 + gh * gw) * self.cfg.embed_dim;
        proof {
            assert(0 <= gh * gw) by (nonlinear_arith)
                requires
                    0 <= gh,
                    0 <= gw,
            ;
            assert(0 <= len) by (nonlinear_arith)
                requires
                    len == (1 + gh * gw) * self.cfg.embed_dim,
                    0 <= gh * gw,
                    0 <= self.cfg.embed_dim,
            ;
            lemma_factor(len, images.len() as int);
        }
        let mut x: Vec<T> = Vec::new();
        let mut v: usize = 0;
        assert(views(images@).take(0) =~= Seq::empty());
        assert(0 * len == 0) by (nonlinear_arith);
        while v < images.len()
            invariant
                v <= images.len(),
                self.wf(),
                len == (1 + gh * gw) * self.cfg.embed_dim,
                len <= usize::MAX,
                forall|v: int|
                    0 <= v < images.len() ==> self.is_image(
                        (#[trigger] images[v])@,
                        gh as int,
                        gw as int,
                    ),
                x@ == all_tokens(*self, views(images@).take(v as int), gh as int, gw as int),
                x.len() == v * len,
            decreases images.len() - v,
        {
            assert(self.is_image(images[v as int]@, gh as int, gw as int));
            let t: Vec<T> = self.embed_image(images[v].as_slice(), gh, gw);
            append(&mut x, t.as_slice());
            assert(views(images@).take(v + 1).drop_last() =~= views(images@).take(v as int));
            assert((v + 1) * len == v * len + len) by (nonlinear_arith);
            v = v + 1;
        }
        assert(views(images@).take(v as int) =~= views(images@));
        x
    }

    fn inject(&self, x: &mut Vec<T>, len: usize)
        requires
            self.wf(),
            1 <= len,
            old(x).len() <= len || self.camera_token.len() >= 2 * self.cfg.embed_dim,
            self.camera_token.len() >= self.cfg.embed_dim,
        ensures
            final(x)@ == injected(
                old(x)@,
                self.camera_token@,
                self.cfg.embed_dim as int,
                len as int,
            ),
            final(x).len() == old(x).len(),
    {
        let embed: usize = self.cfg.embed_dim as usize;
        let ghost want = injected(x@, self.camera_token@, embed as int, len as int);
        let mut q: usize = 0;
        while q < x.len()
            invariant
                q <= x.len(),
                1 <= len,
                x.len() == old(x).len(),
                embed == self.cfg.embed_dim,
                old(x).len() <= len || self.camera_token.len() >= 2 * embed,
                self.camera_token.len() >= embed,
                want == injected(old(x)@, self.camera_token@, embed as int, len as int),
                forall|j: int| 0 <= j < q ==> #[trigger] x[j] == want[j],
                forall|j: int| q <= j < x.len() ==> #[trigger] x[j] == old(x)[j],
            decreases x.len() - q,
        {
            let at: usize = q % len;
            if at < embed {
                if q < len {
                    x[q] = self.camera_token[at];
                } else {
                    x[q] = self.camera_token[embed + at];
                }
            }
            q = q + 1;
        }
        assert(x@ =~= want);
    }

    /// One block over each view on its own.
    fn run_each(
        &self,
        i: usize,
        x: &[T],
        n_tok: usize,
        s: usize,
        rope: Option<(&[T], &[T])>,
        flash: bool,
    ) -> (y: Vec<T>)
        requires
            self.wf(),
            i < self.blocks.len(),
            self.fits(n_tok as int),
            x.len() == s * (n_tok * self.cfg.embed_dim),
            rope matches Some(t) ==> self.cfg.head_dim % 4 == 0 && t.0.len() == n_tok
                * self.cfg.head_dim && t.1.len() == n_tok * self.cfg.head_dim,
        ensures
            y@ == each_view(
                self.blocks[i as int],
                x@,
                n_tok as int,
                s as int,
                crate::fast_attn::tables_of(rope),
                core_of(flash),
            ),
            y.len() == x.len(),
    {
        let b: &FastVitBlock<T> = &self.blocks[i];
        assert(self.blocks[i as int].wf());
        let embed: usize = self.cfg.embed_dim as usize;
        proof {
            assert(0 <= n_tok * embed <= n_tok * (3 * embed)) by (nonlinear_arith)
                requires
                    0 <= n_tok,
                    0 <= embed,
            ;
        }
        let len: usize = n_tok * embed;
        let ghost want = each_view(
            *b,
            x@,
            n_tok as int,
            s as int,
            crate::fast_attn::tables_of(rope),
            core_of(flash),
        );
        let mut y: Vec<T> = Vec::new();
        let mut v: usize = 0;
        assert(0 * len == 0) by (nonlinear_arith);
        while v < s
            invariant
                v <= s,
                b.wf(),
                *b == self.blocks[i as int],
                i < self.blocks.len(),
                b.embed == embed,
                b.attn.head_dim == self.cfg.head_dim,
                embed == self.cfg.embed_dim,
                self.fits(n_tok as int),
                len == n_tok * embed,
                x.len() == s * len,
                rope matches Some(t) ==> self.cfg.head_dim % 4 == 0 && t.0.len() == n_tok
                    * self.cfg.head_dim && t.1.len() == n_tok * self.cfg.head_dim,
                want == each_view(
                    *b,
                    x@,
                    n_tok as int,
                    s as int,
                    crate::fast_attn::tables_of(rope),
                    core_of(flash),
                ),
                y.len() == v * len,
                forall|q: int| 0 <= q < v * len ==> #[trigger] y[q] == want[q],
            decreases s - v,
        {
            proof {
                assert((v + 1) * len == v * len + len && (v + 1) * len <= s * len && 0 <= v * len)
                    by (nonlinear_arith)
                    requires
                        v + 1 <= s,
                        0 <= len,
                        0 <= v,
                ;
            }
            let part: &[T] = &x[v * len..v * len + len];
            assert(part@ =~= view_of(x@, len as int, v as int));
            assert(self.blocks[i as int].attn.heads * n_tok <= usize::MAX);
            let out: Vec<T> = b.forward(part, n_tok, rope, flash);
            let ghost before = y@;
            append(&mut y, out.as_slice());
            proof {
                assert forall|q: int| 0 <= q < (v + 1) * len implies #[trigger] y[q]
                    == want[q] by {
                    if q >= v * len {
                        lemma_split(v as int, len as int, q - v * len);
                    } else {
                        assert(y[q] == before[q]);
                    }
                }
            }
            v = v + 1;
        }
        assert(y@ =~= want);
        y
    }

    /// One block over the tokens of all views, and the local tokens.
    fn run_block(
        &self,
        i: usize,
        x: Vec<T>,
        local: Vec<T>,
        rope: Option<&RopeTables<T>>,
        n_tok: usize,
        s: usize,
        flash: bool,
    ) -> (r: (Vec<T>, Vec<T>))
        requires
            self.wf(),
            i < self.blocks.len(),
            1 <= n_tok,
            1 <= s,
            self.fits(s * n_tok),
            x.len() == s * (n_tok * self.cfg.embed_dim),
            local.len() == x.len(),
            self.camera_token.len() >= self.cfg.embed_dim,
            s <= 1 || self.camera_token.len() >= 2 * self.cfg.embed_dim,
            rope matches Some(t) ==> tables_fit(
                *t,
                n_tok as int,
                s * n_tok,
                self.cfg.head_dim as int,
            ),
        ensures
            ({
                let st = block_step(
                    *self,
                    opt_tables(rope),
                    Stream { x: x@, local: local@ },
                    n_tok as int,
                    s as int,
                    core_of(flash),
                    i as int,
                );
                r.0@ == st.x && r.1@ == st.local
            }),
            r.0.len() == x.len(),
            r.1.len() == x.len(),
    {
        let embed: usize = self.cfg.embed_dim as usize;
        proof {
            lemma_view_sizes(s as int, n_tok as int, embed as int, self.cfg.head_dim as int);
            lemma_fits_smaller(self, s as int, n_tok as int);
            assert(self.blocks[i as int].wf());
        }
        let len: usize = n_tok * embed;
        let mut cur: Vec<T> = x;
        if self.cfg.alt_start >= 0 && i as i32 == self.cfg.alt_start {
            self.inject(&mut cur, len);
        }
        let global: bool = self.cfg.alt_start >= 0 && i as i32 >= self.cfg.alt_start && i % 2
            == 1;
        let with_rope: bool = self.cfg.rope_start >= 0 && i as i32 >= self.cfg.rope_start;
        let tables: Option<(&[T], &[T])> = match rope {
            Some(r) => if !with_rope {
                None
            } else if global {
                Some((r.global.0.as_slice(), r.global.1.as_slice()))
            } else {
                Some((r.local.0.as_slice(), r.local.1.as_slice()))
            },
            None => None,
        };
        if global {
            proof {
                assert(self.blocks[i as int].attn.heads * (s * n_tok) <= usize::MAX);
                lemma_factor(s * n_tok, 3 * embed);
                assert((s * n_tok) * embed == s * (n_tok * embed)) by (nonlinear_arith);
            }
            let b: &FastVitBlock<T> = &self.blocks[i];
            let y: Vec<T> = b.forward(cur.as_slice(), s * n_tok, tables, flash);
            (y, local)
        } else {
            let y: Vec<T> = self.run_each(i, cur.as_slice(), n_tok, s, tables, flash);
            let kept: Vec<T> = copy_slice(y.as_slice());
            (y, kept)
        }
    }

    /// The patch features of one view.
    fn assemble(&self, local: &[T], x: &[T], n_tok: usize) -> (r: Vec<T>)
        requires
            self.wf(),
            1 <= n_tok,
            n_tok * (3 * self.cfg.embed_dim) <= usize::MAX,
            local.len() == n_tok * self.cfg.embed_dim,
            x.len() == n_tok * self.cfg.embed_dim,
        ensures
            r@ == feature_of(*self, local@, x@, n_tok as int),
            r.len() == (n_tok - 1) * token_width(self.cfg),
    {
        let embed: usize = self.cfg.embed_dim as usize;
        let normed: Vec<T> = layernorm_matrix(
            x,
            n_tok,
            embed,
            self.norm_w.as_slice(),
            self.norm_b.as_slice(),
            self.cfg.ln_eps,
            false,
        );
        let mut r: Vec<T> = Vec::new();
        if self.cfg.cat_token {
            proof {
                assert(0 <= (n_tok - 1) * (2 * embed) <= n_tok * (3 * embed)) by (nonlinear_arith)
                    requires
                        1 <= n_tok,
                        0 <= embed,
                ;
                assert(2 * embed <= n_tok * (3 * embed)) by (nonlinear_arith)
                    requires
                        1 <= n_tok,
                        0 <= embed,
                ;
            }
            let wide: usize = 2 * embed;
            let total: usize = (n_tok - 1) * wide;
            let mut q: usize = 0;
            while q < total
                invariant
                    q <= total,
                    1 <= n_tok,
                    1 <= embed,
                    total == (n_tok - 1) * wide,
                    wide == 2 * embed,
                    embed == self.cfg.embed_dim,
                    self.cfg.cat_token,
                    local.len() == n_tok * embed,
                    normed.len() == n_tok * embed,
                    normed@ == layernorm_rows_of(
                        x@,
                        n_tok as int,
                        embed as int,
                        self.norm_w@,
                        self.norm_b@,
                        self.cfg.ln_eps,
                        false,
                    ),
                    r.len() == q,
                    forall|j: int|
                        0 <= j < q ==> #[trigger] r[j] == feature_of(
                            *self,
                            local@,
                            x@,
                            n_tok as int,
                        )[j],
                decreases total - q,
            {
                proof {
                    lemma_row_within(q as int, n_tok - 1, wide as int);
                    lemma_within(q / wide + 1, n_tok as int, 0, embed as int);
                    assert((q / wide + 1) * embed + embed <= n_tok * embed) by (nonlinear_arith)
                        requires
                            q / wide + 2 <= n_tok,
                            0 <= embed,
                    ;
                }
                let row: usize = (q / wide + 1) * embed;
                let c: usize = q % wide;
                if c < embed {
                    r.push(local[row + c]);
                } else {
                    r.push(normed[row + (c - embed)]);
                }
                q = q + 1;
            }
        } else {
            proof {
                lemma_factor(embed as int, n_tok as int);
            }
            assert((n_tok - 1) * embed == n_tok * embed - embed) by (nonlinear_arith);
            append(&mut r, &normed[embed..normed.len()]);
            assert(normed@.subrange(embed as int, normed@.len() as int) =~= normed@.skip(
                embed as int,
            ));
        }
        assert(r@ =~= feature_of(*self, local@, x@, n_tok as int));
        r
    }

    fn camera(&self, local: &[T], x: &[T]) -> (r: Vec<T>)
        requires
            self.wf(),
            local.len() >= self.cfg.embed_dim,
            x.len() >= self.cfg.embed_dim,
        ensures
            r@ == camera_of(*self, local@, x@),
            r.len() == token_width(self.cfg),
    {
        let embed: usize = self.cfg.embed_dim as usize;
        let mut r: Vec<T> = Vec::new();
        if self.cfg.cat_token {
            append(&mut r, &local[0..embed]);
        }
        append(&mut r, &x[0..embed]);
        assert(local@.subrange(0, embed as int) =~= local@.take(embed as int));
        assert(x@.subrange(0, embed as int) =~= x@.take(embed as int));
        assert(r@ =~= camera_of(*self, local@, x@));
        r
    }

    /// Runs views in the order given: features and camera tokens, by out-layer
    /// and then by view.
    ///
    /// Refused where an out-layer is no block.
    fn forward_mv_ordered(
        &self,
        images: &[Vec<T>],
        gh: usize,
        gw: usize,
        rope: Option<&RopeTables<T>>,
        flash: bool,
    ) -> (r: Result<(Vec<Vec<Vec<T>>>, Vec<Vec<Vec<T>>>), Error>)
        requires
            self.wf(),
            1 <= images.len(),
            forall|v: int|
                0 <= v < images.len() ==> self.is_image(
                    (#[trigger] images[v])@,
                    gh as int,
                    gw as int,
                ),
            self.fits(images.len() * (1 + gh * gw)),
            self.camera_token.len() >= self.cfg.embed_dim,
            images.len() <= 1 || self.camera_token.len() >= 2 * self.cfg.embed_dim,
            rope matches Some(t) ==> tables_fit(
                *t,
                1 + gh * gw,
                images.len() * (1 + gh * gw),
                self.cfg.head_dim as int,
            ),
        ensures
            match r {
                Err(e) => stray_layer(self.cfg.out_layers@, self.blocks@.len() as int) is Some
                    && e@ == Fault::LayerNotCaptured(
                    stray_layer(self.cfg.out_layers@, self.blocks@.len() as int)->0,
                ),
                Ok(f) => {
                    &&& stray_layer(self.cfg.out_layers@, self.blocks@.len() as int) is None
                    &&& f.0.len() == self.cfg.out_layers.len()
                    &&& f.1.len() == self.cfg.out_layers.len()
                    &&& forall|o: int|
                        0 <= o < f.0.len() ==> (#[trigger] f.0[o]).len() == images.len()
                            && views_featured(
                            *self,
                            opt_tables(rope),
                            views(images@),
                            gh as int,
                            gw as int,
                            core_of(flash),
                            self.cfg.out_layers[o] as int,
                            f.0[o]@,
                        )
                    &&& forall|o: int|
                        0 <= o < f.1.len() ==> (#[trigger] f.1[o]).len() == images.len()
                            && views_cameras(
                            *self,
                            opt_tables(rope),
                            views(images@),
                            gh as int,
                            gw as int,
                            core_of(flash),
                            self.cfg.out_layers[o] as int,
                            f.1[o]@,
                        )
                },
            },
    {
        if let Some(l) = find_stray(&self.cfg.out_layers, self.blocks.len()) {
            return Err(Error::Model(ModelError::LayerNotCaptured(l)));
        }
        let s: usize = images.len();
        let embed: usize = self.cfg.embed_dim as usize;
        proof {
            assert(0 <= gh * gw) by (nonlinear_arith)
                requires
                    0 <= gh,
                    0 <= gw,
            ;
            lemma_view_sizes(s as int, 1 + gh * gw, embed as int, self.cfg.head_dim as int);
            lemma_factor(1 + gh * gw, s as int);
            lemma_factor(s * (1 + gh * gw), 3 * embed);
        }
        let n_tok: usize = 1 + gh * gw;
        let ghost start = all_tokens(*self, views(images@), gh as int, gw as int);
        let ghost core = core_of(flash);
        let ghost tables = opt_tables(rope);
        let mut x: Vec<T> = self.embed_images(images, gh, gw);
        let mut local: Vec<T> = copy_slice(x.as_slice());
        let ghost len = n_tok * embed;
        // captured[i]: the features and cameras of each view after block i
        let mut feats: Vec<Vec<Vec<T>>> = Vec::new();
        let mut cams: Vec<Vec<Vec<T>>> = Vec::new();
        let mut i: usize = 0;
        while i < self.blocks.len()
            invariant
                i <= self.blocks.len(),
                self.wf(),
                s == images.len(),
                1 <= s,
                1 <= n_tok,
                n_tok == 1 + gh * gw,
                embed == self.cfg.embed_dim,
                len == n_tok * embed,
                self.fits(s * n_tok),
                n_tok * (3 * embed) <= usize::MAX,
                self.camera_token.len() >= embed,
                s <= 1 || self.camera_token.len() >= 2 * embed,
                rope matches Some(t) ==> tables_fit(
                    *t,
                    n_tok as int,
                    s * n_tok,
                    self.cfg.head_dim as int,
                ),
                core == core_of(flash),
                tables == opt_tables(rope),
                start == all_tokens(*self, views(images@), gh as int, gw as int),
                x.len() == s * len,
                local.len() == s * len,
                x@ == stream_after(
                    *self,
                    tables,
                    start,
                    n_tok as int,
                    s as int,
                    core,
                    i as nat,
                ).x,
                local@ == stream_after(
                    *self,
                    tables,
                    start,
                    n_tok as int,
                    s as int,
                    core,
                    i as nat,
                ).local,
                feats.len() == i,
                cams.len() == i,
                forall|k: int|
                    0 <= k < i && listed(self.cfg.out_layers@, k) ==> (#[trigger] feats[k]).len()
                        == s && views_featured(
                        *self,
                        tables,
                        views(images@),
                        gh as int,
                        gw as int,
                        core,
                        k,
                        feats[k]@,
                    ),
                forall|k: int|
                    0 <= k < i && listed(self.cfg.out_layers@, k) ==> (#[trigger] cams[k]).len()
                        == s && views_cameras(
                        *self,
                        tables,
                        views(images@),
                        gh as int,
                        gw as int,
                        core,
                        k,
                        cams[k]@,
                    ),
            decreases self.blocks.len() - i,
        {
            let (nx, nl): (Vec<T>, Vec<T>) = self.run_block(i, x, local, rope, n_tok, s, flash);
            x = nx;
            local = nl;
            let mut fs: Vec<Vec<T>> = Vec::new();
            let mut cs: Vec<Vec<T>> = Vec::new();
            if is_listed(&self.cfg.out_layers, i as i32) {
                let (a, b): (Vec<Vec<T>>, Vec<Vec<T>>) = self.split_views(
                    local.as_slice(),
                    x.as_slice(),
                    n_tok,
                    s,
                );
                fs = a;
                cs = b;
            }
            feats.push(fs);
            cams.push(cs);
            i = i + 1;
        }
        let mut out_f: Vec<Vec<Vec<T>>> = Vec::new();
        let mut out_c: Vec<Vec<Vec<T>>> = Vec::new();
        let mut o: usize = 0;
        while o < self.cfg.out_layers.len()
            invariant
                o <= self.cfg.out_layers.len(),
                s == images.len(),
                feats.len() == self.blocks.len(),
                cams.len() == self.blocks.len(),
                forall|p: int|
                    0 <= p < self.cfg.out_layers.len() ==> 0 <= #[trigger] self.cfg.out_layers[p]
                        < self.blocks.len(),
                forall|k: int|
                    0 <= k < feats.len() && listed(self.cfg.out_layers@, k) ==> (
                    #[trigger] feats[k]).len() == s && views_featured(
                        *self,
                        tables,
                        views(images@),
                        gh as int,
                        gw as int,
                        core,
                        k,
                        feats[k]@,
                    ),
                forall|k: int|
                    0 <= k < cams.len() && listed(self.cfg.out_layers@, k) ==> (
                    #[trigger] cams[k]).len() == s && views_cameras(
                        *self,
                        tables,
                        views(images@),
                        gh as int,
                        gw as int,
                        core,
                        k,
                        cams[k]@,
                    ),
                out_f.len() == o,
                out_c.len() == o,
                forall|p: int|
                    0 <= p < o ==> (#[trigger] out_f[p]).len() == s && views_featured(
                        *self,
                        tables,
                        views(images@),
                        gh as int,
                        gw as int,
                        core,
                        self.cfg.out_layers[p] as int,
                        out_f[p]@,
                    ),
                forall|p: int|
                    0 <= p < o ==> (#[trigger] out_c[p]).len() == s && views_cameras(
                        *self,
                        tables,
                        views(images@),
                        gh as int,
                        gw as int,
                        core,
                        self.cfg.out_layers[p] as int,
                        out_c[p]@,
                    ),
            decreases self.cfg.out_layers.len() - o,
        {
            let layer: usize = self.cfg.out_layers[o] as usize;
            assert(self.cfg.out_layers@[o as int] == layer);
            assert(listed(self.cfg.out_layers@, layer as int));
            let f: Vec<Vec<T>> = copy_views(&feats[layer]);
            let c: Vec<Vec<T>> = copy_views(&cams[layer]);
            out_f.push(f);
            out_c.push(c);
            o = o + 1;
        }
        Ok((out_f, out_c))
    }

    fn split_views(&self, local: &[T], x: &[T], n_tok: usize, s: usize) -> (r: (
        Vec<Vec<T>>,
        Vec<Vec<T>>,
    ))
        requires
            self.wf(),
            1 <= n_tok,
            n_tok * (3 * self.cfg.embed_dim) <= usize::MAX,
            local.len() == s * (n_tok * self.cfg.embed_dim),
            x.len() == local.len(),
        ensures
            r.0.len() == s,
            r.1.len() == s,
            forall|v: int|
                0 <= v < s ==> (#[trigger] r.0[v])@ == feature_of(
                    *self,
                    view_of(local@, n_tok * self.cfg.embed_dim, v),
                    view_of(x@, n_tok * self.cfg.embed_dim, v),
                    n_tok as int,
                ) && r.0[v].len() == (n_tok - 1) * token_width(self.cfg),
            forall|v: int|
                0 <= v < s ==> (#[trigger] r.1[v])@ == camera_of(
                    *self,
                    view_of(local@, n_tok * self.cfg.embed_dim, v),
                    view_of(x@, n_tok * self.cfg.embed_dim, v),
                ) && r.1[v].len() == token_width(self.cfg),
    {
        let embed: usize = self.cfg.embed_dim as usize;
        proof {
            assert(embed <= n_tok * embed <= n_tok * (3 * embed)) by (nonlinear_arith)
                requires
                    1 <= n_tok,
                    0 <= embed,
            ;
        }
        let len: usize = n_tok * embed;
        let mut fs: Vec<Vec<T>> = Vec::new();
        let mut cs: Vec<Vec<T>> = Vec::new();
        let mut v: usize = 0;
        while v < s
            invariant
                v <= s,
                self.wf(),
                1 <= n_tok,
                n_tok * (3 * self.cfg.embed_dim) <= usize::MAX,
                embed == self.cfg.embed_dim,
                len == n_tok * embed,
                embed <= len,
                local.len() == s * len,
                x.len() == s * len,
                fs.len() == v,
                cs.len() == v,
                forall|k: int|
                    0 <= k < v ==> (#[trigger] fs[k])@ == feature_of(
                        *self,
                        view_of(local@, len as int, k),
                        view_of(x@, len as int, k),
                        n_tok as int,
                    ) && fs[k].len() == (n_tok - 1) * token_width(self.cfg),
                forall|k: int|
                    0 <= k < v ==> (#[trigger] cs[k])@ == camera_of(
                        *self,
                        view_of(local@, len as int, k),
                        view_of(x@, len as int, k),
                    ) && cs[k].len() == token_width(self.cfg),
            decreases s - v,
        {
            proof {
                assert(v * len + len <= s * len && 0 <= v * len) by (nonlinear_arith)
                    requires
                        v + 1 <= s,
                        0 <= len,
                        0 <= v,
                ;
            }
            let l: &[T] = &local[v * len..v * len + len];
            let p: &[T] = &x[v * len..v * len + len];
            assert(l@ =~= view_of(local@, len as int, v as int));
            assert(p@ =~= view_of(x@, len as int, v as int));
            fs.push(self.assemble(l, p, n_tok));
            cs.push(self.camera(l, p));
            v = v + 1;
        }
        (fs, cs)
    }
}

/// How attention is computed.
pub open spec fn core_of(flash: bool) -> Core {
    if flash {
        Core::Tiled
    } else {
        Core::Stored
    }
}

/// Tables where there are some.
pub open spec fn opt_tables<T>(rope: Option<&RopeTables<T>>) -> Option<RopeTables<T>> {
    match rope {
        Some(r) => Some(*r),
        None => None,
    }
}

/// Block `k` is an out-layer.
pub open spec fn listed(layers: Seq<i32>, k: int) -> bool {
    exists|o: int| 0 <= o < layers.len() && #[trigger] layers[o] == k
}

fn is_listed(layers: &Vec<i32>, k: i32) -> (r: bool)
    ensures
        r == listed(layers@, k as int),
{
    let mut o: usize = 0;
    while o < layers.len()
        invariant
            o <= layers.len(),
            forall|p: int| 0 <= p < o ==> #[trigger] layers[p] != k,
        decreases layers.len() - o,
    {
        if layers[o] == k {
            assert(layers@[o as int] == k);
            return true;
        }
        o = o + 1;
    }
    false
}

/// The features after block `layer`, view by view.
pub open spec fn views_featured<T: Analytic>(
    b: Backbone<T>,
    rope: Option<RopeTables<T>>,
    images: Seq<Seq<T>>,
    gh: int,
    gw: int,
    core: Core,
    layer: int,
    f: Seq<Vec<T>>,
) -> bool {
    forall|v: int|
        0 <= v < f.len() ==> (#[trigger] f[v])@ == view_feature(
            b,
            rope,
            all_tokens(b, images, gh, gw),
            1 + gh * gw,
            images.len() as int,
            core,
            layer,
            v,
        ) && f[v].len() == (gh * gw) * token_width(b.cfg)
}

/// The camera tokens after block `layer`, view by view.
pub open spec fn views_cameras<T: Analytic>(
    b: Backbone<T>,
    rope: Option<RopeTables<T>>,
    images: Seq<Seq<T>>,
    gh: int,
    gw: int,
    core: Core,
    layer: int,
    f: Seq<Vec<T>>,
) -> bool {
    forall|v: int|
        0 <= v < f.len() ==> (#[trigger] f[v])@ == view_camera(
            b,
            rope,
            all_tokens(b, images, gh, gw),
            1 + gh * gw,
            images.len() as int,
            core,
            layer,
            v,
        ) && f[v].len() == token_width(b.cfg)
}

fn copy_views<T: Copy>(x: &Vec<Vec<T>>) -> (r: Vec<Vec<T>>)
    ensures
        r.len() == x.len(),
        forall|v: int| 0 <= v < x.len() ==> (#[trigger] r[v])@ == x[v]@,
{
    let mut r: Vec<Vec<T>> = Vec::new();
    let mut v: usize = 0;
    while v < x.len()
        invariant
            v <= x.len(),
            r.len() == v,
            forall|k: int| 0 <= k < v ==> (#[trigger] r[k])@ == x[k]@,
        decreases x.len() - v,
    {
        r.push(copy_slice(x[v].as_slice()));
        v = v + 1;
    }
    r
}

fn append<T: Copy>(a: &mut Vec<T>, b: &[T])
    ensures
        final(a)@ == old(a)@ + b@,
{
    let ghost start = a@;
    let mut i: usize = 0;
    while i < b.len()
        invariant
            i <= b.len(),
            start == old(a)@,
            a@ == start + b@.take(i as int),
        decreases b.len() - i,
    {
        a.push(b[i]);
        assert(a@ =~= start + b@.take(i + 1));
        i = i + 1;
    }
    assert(b@.take(i as int) =~= b@);
}

proof fn lemma_image_size(gh: int, gw: int, patch: int)
    requires
        1 <= gh,
        1 <= gw,
        1 <= patch,
    ensures
        gh * patch <= (3 * (gh * patch)) * (gw * patch),
        gw * patch <= (3 * (gh * patch)) * (gw * patch),
        3 * (gh * patch) <= (3 * (gh * patch)) * (gw * patch),
        patch * patch <= (3 * (gh * patch)) * (gw * patch),
        3 * (patch * patch) <= (3 * (gh * patch)) * (gw * patch),
        1 <= gh * patch,
        1 <= gw * patch,
        1 <= patch * patch,
{
    assert(1 <= gh * patch && 1 <= gw * patch && patch <= gh * patch && patch <= gw * patch)
        by (nonlinear_arith)
        requires
            1 <= gh,
            1 <= gw,
            1 <= patch,
    ;
    let a = gh * patch;
    let b = gw * patch;
    assert(a <= (3 * a) * b && b <= (3 * a) * b && 3 * a <= (3 * a) * b) by (nonlinear_arith)
        requires
            1 <= a,
            1 <= b,
    ;
    assert(1 <= patch * patch && patch * patch <= (3 * a) * b && 3 * (patch * patch) <= (3 * a) * b)
        by (nonlinear_arith)
        requires
            1 <= patch,
            patch <= a,
            patch <= b,
    ;
}

proof fn lemma_weight_size(embed: int, patch: int)
    requires
        1 <= embed,
        1 <= patch,
    ensures
        3 * (patch * patch) <= embed * (3 * (patch * patch)),
        1 <= patch * patch,
{
    assert(1 <= patch * patch) by (nonlinear_arith)
        requires
            1 <= patch,
    ;
    let p = 3 * (patch * patch);
    assert(p <= embed * p) by (nonlinear_arith)
        requires
            1 <= embed,
            0 <= p,
    ;
}

proof fn lemma_view_sizes(s: int, n_tok: int, embed: int, hd: int)
    requires
        1 <= s,
        1 <= n_tok,
        1 <= embed,
        0 <= hd,
    ensures
        n_tok <= s * n_tok,
        n_tok * embed <= s * (n_tok * embed),
        s * (n_tok * embed) == (s * n_tok) * embed,
        s * (n_tok * embed) <= (s * n_tok) * (3 * embed),
        n_tok * (3 * embed) <= (s * n_tok) * (3 * embed),
        n_tok * hd <= (s * n_tok) * hd,
        1 <= n_tok * embed,
        n_tok * embed <= (s * n_tok) * (3 * embed),
{
    assert(n_tok <= s * n_tok) by (nonlinear_arith)
        requires
            1 <= s,
            1 <= n_tok,
    ;
    let m = s * n_tok;
    assert(s * (n_tok * embed) == m * embed) by (nonlinear_arith)
        requires
            m == s * n_tok,
    ;
    assert(n_tok * embed <= m * embed && m * embed <= m * (3 * embed) && n_tok * (3 * embed) <= m
        * (3 * embed) && n_tok * hd <= m * hd && 1 <= n_tok * embed) by (nonlinear_arith)
        requires
            1 <= n_tok <= m,
            1 <= embed,
            0 <= hd,
    ;
}

proof fn lemma_fits_smaller<T: Analytic>(b: &Backbone<T>, s: int, n_tok: int)
    requires
        b.wf(),
        b.fits(s * n_tok),
        1 <= s,
        1 <= n_tok,
    ensures
        b.fits(n_tok),
{
    lemma_view_sizes(s, n_tok, b.cfg.embed_dim as int, b.cfg.head_dim as int);
    assert forall|i: int| 0 <= i < b.blocks.len() implies (#[trigger] b.blocks[i]).attn.heads
        * n_tok <= usize::MAX && n_tok * (2 * b.blocks[i].ffn.width()) <= usize::MAX by {
        let h = b.blocks[i].attn.heads as int;
        let f = 2 * b.blocks[i].ffn.width();
        let m = s * n_tok;
        assert(h * n_tok <= h * m && n_tok * f <= m * f) by (nonlinear_arith)
            requires
                0 <= h,
                0 <= f,
                n_tok <= m,
        ;
    }
}

// ---- the public passes ------------------------------------------------------

/// What [`BackboneFeatures`] hold.
pub struct FeaturesData<T> {
    pub feats: Seq<Seq<T>>,
    pub cam_token: Seq<T>,
}

impl<T> View for BackboneFeatures<T> {
    type V = FeaturesData<T>;

    open spec fn view(&self) -> FeaturesData<T> {
        FeaturesData { feats: views(self.feats@), cam_token: self.cam_token@ }
    }
}

/// What [`BackboneFeaturesMv`] hold.
pub struct FeaturesMvData<T> {
    pub feats: Seq<Seq<Seq<T>>>,
    pub cam_tokens: Seq<Seq<Seq<T>>>,
    pub ref_view: int,
}

/// Buffers by out-layer and view.
pub open spec fn layer_views<T>(v: Seq<Vec<Vec<T>>>) -> Seq<Seq<Seq<T>>> {
    Seq::new(v.len(), |o: int| views(v[o]@))
}

impl<T> View for BackboneFeaturesMv<T> {
    type V = FeaturesMvData<T>;

    open spec fn view(&self) -> FeaturesMvData<T> {
        FeaturesMvData {
            feats: layer_views(self.feats@),
            cam_tokens: layer_views(self.cam_tokens@),
            ref_view: self.ref_view as int,
        }
    }
}

/// What one view becomes.
///
/// Refused where an out-layer is no block and where there is no out-layer. Of the
/// camera token only the first row counts.
pub open spec fn forward_result<T: Analytic>(
    b: Backbone<T>,
    rope: Option<RopeTables<T>>,
    image: Seq<T>,
    gh: int,
    gw: int,
    core: Core,
) -> Result<FeaturesData<T>, Fault> {
    let layers = b.cfg.out_layers@;
    let start = all_tokens(b, seq![image], gh, gw);
    let n_tok = 1 + gh * gw;
    if stray_layer(layers, b.blocks@.len() as int) is Some {
        Err(Fault::LayerNotCaptured(stray_layer(layers, b.blocks@.len() as int)->0))
    } else if layers.len() == 0 {
        Err(Fault::NoOutLayers)
    } else {
        Ok(
            FeaturesData {
                feats: Seq::new(
                    layers.len(),
                    |o: int|
                        view_feature(b, rope, start, n_tok, 1, core, layers[o] as int, 0),
                ),
                cam_token: view_camera(b, rope, start, n_tok, 1, core, layers.last() as int, 0),
            },
        )
    }
}

/// The blocks that run before the reference view is chosen.
pub open spec fn early_blocks<T>(b: Backbone<T>) -> int {
    let depth = b.blocks@.len() as int;
    if 1 <= b.cfg.alt_start && b.cfg.alt_start - 1 < depth {
        b.cfg.alt_start - 1
    } else {
        depth
    }
}

/// The tables of the blocks that run before the reference view is chosen.
pub open spec fn early_tables<T>(
    cfg: Config<T>,
    rope: Option<RopeTables<T>>,
    i: int,
) -> Option<(Seq<T>, Seq<T>)> {
    match rope {
        Some(r) => if uses_rope(cfg, i) && cfg.rope_start < cfg.alt_start - 1 {
            Some((r.local.0@, r.local.1@))
        } else {
            None
        },
        None => None,
    }
}

/// The tokens of all views after the first `n` blocks, each view on its own.
pub open spec fn early_stream<T: Analytic>(
    b: Backbone<T>,
    rope: Option<RopeTables<T>>,
    start: Seq<T>,
    n_tok: int,
    s: int,
    core: Core,
    n: nat,
) -> Seq<T>
    decreases n,
{
    if n == 0 {
        start
    } else {
        each_view(
            b.blocks[n - 1],
            early_stream(b, rope, start, n_tok, s, core, (n - 1) as nat),
            n_tok,
            s,
            early_tables(b.cfg, rope, n - 1),
            core,
        )
    }
}

/// The first token of each view when the reference view is chosen.
pub open spec fn early_tokens<T: Analytic>(
    b: Backbone<T>,
    rope: Option<RopeTables<T>>,
    images: Seq<Seq<T>>,
    gh: int,
    gw: int,
    core: Core,
) -> Seq<Seq<T>> {
    let n_tok = 1 + gh * gw;
    let embed = b.cfg.embed_dim as int;
    let x = early_stream(
        b,
        rope,
        all_tokens(b, images, gh, gw),
        n_tok,
        images.len() as int,
        core,
        early_blocks(b) as nat,
    );
    Seq::new(images.len(), |v: int| view_of(x, n_tok * embed, v).take(embed))
}

/// Numbers in the wider type.
pub open spec fn widened_all<T: Scalar, D: Widens<T>>(v: Seq<T>) -> Seq<D> {
    Seq::new(v.len(), |i: int| D::widened_spec(v[i]))
}

/// The reference view: chosen among three or more where blocks are global, else
/// the first.
pub open spec fn reference_of<T: Analytic, D: Widens<T> + Analytic>(
    b: Backbone<T>,
    rope: Option<RopeTables<T>>,
    images: Seq<Seq<T>>,
    gh: int,
    gw: int,
    core: Core,
) -> int {
    if images.len() < 3 || b.cfg.alt_start < 0 {
        0
    } else {
        let cls = early_tokens(b, rope, images, gh, gw, core);
        saddle_view(Seq::new(images.len(), |v: int| widened_all::<T, D>(cls[v])))
    }
}

/// The views with `reference` first.
pub open spec fn reordered<A>(v: Seq<A>, reference: int) -> Seq<A> {
    Seq::new(v.len(), |p: int| v[order_at(reference, p)])
}

/// What several views become with `reference` first, in the order given.
pub open spec fn mv_features<T: Analytic>(
    b: Backbone<T>,
    rope: Option<RopeTables<T>>,
    images: Seq<Seq<T>>,
    gh: int,
    gw: int,
    core: Core,
    reference: int,
) -> FeaturesMvData<T> {
    let layers = b.cfg.out_layers@;
    let s = images.len();
    let start = all_tokens(b, reordered(images, reference), gh, gw);
    let n_tok = 1 + gh * gw;
    FeaturesMvData {
        feats: Seq::new(
            layers.len(),
            |o: int|
                Seq::new(
                    s,
                    |t: int|
                        view_feature(
                            b,
                            rope,
                            start,
                            n_tok,
                            s as int,
                            core,
                            layers[o] as int,
                            restore_at(reference, t),
                        ),
                ),
        ),
        cam_tokens: Seq::new(
            layers.len(),
            |o: int|
                Seq::new(
                    s,
                    |t: int|
                        view_camera(
                            b,
                            rope,
                            start,
                            n_tok,
                            s as int,
                            core,
                            layers[o] as int,
                            restore_at(reference, t),
                        ),
                ),
        ),
        ref_view: reference,
    }
}

/// What several views become.
///
/// Refused where there is none, where the camera token has no two rows and where
/// an out-layer is no block.
pub open spec fn forward_mv_result<T: Analytic, D: Widens<T> + Analytic>(
    b: Backbone<T>,
    rope: Option<RopeTables<T>>,
    images: Seq<Seq<T>>,
    gh: int,
    gw: int,
    core: Core,
) -> Result<FeaturesMvData<T>, Fault> {
    let stray = stray_layer(b.cfg.out_layers@, b.blocks@.len() as int);
    if images.len() == 0 {
        Err(Fault::NoViews)
    } else if b.camera_token.len() != 2 * b.cfg.embed_dim {
        Err(Fault::BadShape("vit.camera_token"@))
    } else if stray is Some {
        Err(Fault::LayerNotCaptured(stray->0))
    } else {
        Ok(
            mv_features(
                b,
                rope,
                images,
                gh,
                gw,
                core,
                reference_of::<T, D>(b, rope, images, gh, gw, core),
            ),
        )
    }
}

/// What comes back for a view was computed from that view, whichever view stood
/// first meanwhile.
pub proof fn law_views_keep_their_place<A>(images: Seq<A>, reference: int, t: int)
    requires
        0 <= reference < images.len(),
        0 <= t < images.len(),
    ensures
        reordered(images, reference)[restore_at(reference, t)] == images[t],
        reordered(images, reference)[0] == images[reference],
        reordered(images, reference).len() == images.len(),
{
    law_restore(reference, images.len() as int, t);
}

/// Several views of which there is one give what that view gives alone.
pub proof fn law_one_view<T: Analytic, D: Widens<T> + Analytic>(
    b: Backbone<T>,
    rope: Option<RopeTables<T>>,
    image: Seq<T>,
    gh: int,
    gw: int,
    core: Core,
    o: int,
)
    requires
        forward_result(b, rope, image, gh, gw, core) is Ok,
        forward_mv_result::<T, D>(b, rope, seq![image], gh, gw, core) is Ok,
        0 <= o < b.cfg.out_layers.len(),
    ensures
        ({
            let alone = forward_result(b, rope, image, gh, gw, core)->Ok_0;
            let batch = forward_mv_result::<T, D>(b, rope, seq![image], gh, gw, core)->Ok_0;
            &&& batch.feats[o][0] == alone.feats[o]
            &&& batch.cam_tokens.last()[0] == alone.cam_token
            &&& batch.ref_view == 0
        }),
{
    assert(reordered(seq![image], 0) =~= seq![image]);
}

/// Where no block is global, a view's tokens do not depend on the other views.
pub proof fn law_local_blocks_keep_views_apart<T: Analytic>(
    b: Backbone<T>,
    rope: Option<RopeTables<T>>,
    x: Seq<T>,
    y: Seq<T>,
    n_tok: int,
    s: int,
    core: Core,
    n: nat,
    v: int,
)
    requires
        b.wf(),
        b.cfg.alt_start < 0,
        n <= b.blocks.len(),
        1 <= n_tok,
        0 <= v < s,
        view_of(x, n_tok * b.cfg.embed_dim, v) == view_of(y, n_tok * b.cfg.embed_dim, v),
    ensures
        view_of(stream_after(b, rope, x, n_tok, s, core, n).x, n_tok * b.cfg.embed_dim, v)
            == view_of(
            stream_after(b, rope, y, n_tok, s, core, n).x,
            n_tok * b.cfg.embed_dim,
            v,
        ),
    decreases n,
{
    if n > 0 {
        law_local_blocks_keep_views_apart(b, rope, x, y, n_tok, s, core, (n - 1) as nat, v);
        assert(b.blocks[n - 1].wf());
        let len = n_tok * b.cfg.embed_dim;
        let xs = stream_after(b, rope, x, n_tok, s, core, (n - 1) as nat).x;
        let ys = stream_after(b, rope, y, n_tok, s, core, (n - 1) as nat).x;
        let t = block_tables(b.cfg, rope, n - 1);
        let xn = each_view(b.blocks[n - 1], xs, n_tok, s, t, core);
        let yn = each_view(b.blocks[n - 1], ys, n_tok, s, t, core);
        assert(1 <= len) by (nonlinear_arith)
            requires
                1 <= n_tok,
                1 <= b.cfg.embed_dim,
                len == n_tok * b.cfg.embed_dim,
        ;
        assert forall|j: int| 0 <= j < len implies view_of(xn, len, v)[j] == view_of(
            yn,
            len,
            v,
        )[j] by {
            lemma_split(v, len, j);
            lemma_within(v, s, j, len);
        }
        lemma_within(v, s, 0, len);
        assert(view_of(xn, len, v) =~= view_of(yn, len, v));
    }
}

impl<T: Analytic> Backbone<T> {
    /// Runs one view: an image of `gh` by `gw` patches, colour by colour. The
    /// tables are those of its tokens and of tokens that share one position.
    pub fn forward(
        &self,
        image: &[T],
        gh: usize,
        gw: usize,
        rope: Option<&RopeTables<T>>,
        flash: bool,
    ) -> (r: Result<BackboneFeatures<T>, Error>)
        requires
            self.wf(),
            self.is_image(image@, gh as int, gw as int),
            self.fits(1 + gh * gw),
            self.cfg.rope_start >= 0 ==> rope is Some,
            rope matches Some(t) ==> tables_fit(
                *t,
                1 + gh * gw,
                1 + gh * gw,
                self.cfg.head_dim as int,
            ),
        ensures
            outcome(r) == forward_result(
                *self,
                opt_tables(rope),
                image@,
                gh as int,
                gw as int,
                core_of(flash),
            ),
            r matches Ok(f) ==> {
                &&& f.feats.len() == self.cfg.out_layers.len()
                &&& forall|o: int|
                    0 <= o < f.feats.len() ==> (#[trigger] f.feats[o]).len() == (gh * gw)
                        * token_width(self.cfg)
                &&& f.cam_token.len() == token_width(self.cfg)
            },
    {
        let mut one_view: Vec<Vec<T>> = Vec::new();
        one_view.push(copy_slice(image));
        assert(views(one_view@) =~= seq![image@]);
        proof {
            assert(1 * (1 + gh * gw) == 1 + gh * gw);
        }
        let (mut f, mut c): (Vec<Vec<Vec<T>>>, Vec<Vec<Vec<T>>>) = match self.forward_mv_ordered(
            one_view.as_slice(),
            gh,
            gw,
            rope,
            flash,
        ) {
            Err(e) => {
                return Err(e);
            },
            Ok(x) => x,
        };
        if f.len() == 0 {
            return Err(Error::Model(ModelError::NoOutLayers));
        }
        let ghost all = f@;
        let ghost all_c = c@;
        let mut feats: Vec<Vec<T>> = Vec::new();
        let mut o: usize = 0;
        while o < f.len()
            invariant
                o <= f.len(),
                f@ == all,
                forall|p: int| 0 <= p < f.len() ==> (#[trigger] f[p]).len() == 1,
                feats.len() == o,
                forall|p: int| 0 <= p < o ==> (#[trigger] feats[p])@ == f[p][0]@,
                forall|p: int|
                    0 <= p < f.len() ==> (#[trigger] f[p])[0].len() == (gh * gw) * token_width(
                        self.cfg,
                    ),
            decreases f.len() - o,
        {
            assert(f@[o as int].len() == 1);
            let first: &Vec<Vec<T>> = &f[o];
            feats.push(copy_slice(first[0].as_slice()));
            o = o + 1;
        }
        let last: usize = c.len() - 1;
        assert(c@[last as int].len() == 1);
        let tokens: &Vec<Vec<T>> = &c[last];
        let cam_token: Vec<T> = copy_slice(tokens[0].as_slice());
        let out: BackboneFeatures<T> = BackboneFeatures { feats, cam_token };
        proof {
            let want = forward_result(
                *self,
                opt_tables(rope),
                image@,
                gh as int,
                gw as int,
                core_of(flash),
            )->Ok_0;
            assert forall|o: int| 0 <= o < out.feats.len() implies out@.feats[o]
                == want.feats[o] by {
                assert(out.feats[o]@ == all[o][0]@);
            }
            assert(out@.feats =~= want.feats);
            assert(out@.cam_token == all_c[last as int][0]@);
        }
        Ok(out)
    }

    /// The first token of each view after the blocks before the reference view is
    /// chosen, each view on its own.
    fn capture_local_cls(
        &self,
        images: &[Vec<T>],
        gh: usize,
        gw: usize,
        rope: Option<&RopeTables<T>>,
        flash: bool,
    ) -> (r: Vec<Vec<T>>)
        requires
            self.wf(),
            1 <= images.len(),
            forall|v: int|
                0 <= v < images.len() ==> self.is_image(
                    (#[trigger] images[v])@,
                    gh as int,
                    gw as int,
                ),
            self.fits(images.len() * (1 + gh * gw)),
            rope matches Some(t) ==> tables_fit(
                *t,
                1 + gh * gw,
                images.len() * (1 + gh * gw),
                self.cfg.head_dim as int,
            ),
        ensures
            views(r@) == early_tokens(
                *self,
                opt_tables(rope),
                views(images@),
                gh as int,
                gw as int,
                core_of(flash),
            ),
    {
        let s: usize = images.len();
        let embed: usize = self.cfg.embed_dim as usize;
        proof {
            assert(0 <= gh * gw) by (nonlinear_arith)
                requires
                    0 <= gh,
                    0 <= gw,
            ;
            lemma_view_sizes(s as int, 1 + gh * gw, embed as int, self.cfg.head_dim as int);
            lemma_fits_smaller(self, s as int, 1 + gh * gw);
            lemma_factor(1 + gh * gw, 3 * embed);
            lemma_factor(embed as int, 1 + gh * gw);
        }
        let n_tok: usize = 1 + gh * gw;
        let len: usize = n_tok * embed;
        let ghost start = all_tokens(*self, views(images@), gh as int, gw as int);
        let ghost tables = opt_tables(rope);
        let ghost core = core_of(flash);
        let upto: usize = if 1 <= self.cfg.alt_start && self.cfg.alt_start - 1
            < self.blocks.len() as i32 {
            (self.cfg.alt_start - 1) as usize
        } else {
            self.blocks.len()
        };
        let mut x: Vec<T> = self.embed_images(images, gh, gw);
        let mut i: usize = 0;
        while i < upto
            invariant
                i <= upto,
                upto <= self.blocks.len(),
                upto == early_blocks(*self),
                self.wf(),
                s == images.len(),
                1 <= s,
                1 <= n_tok,
                embed == self.cfg.embed_dim,
                len == n_tok * embed,
                self.fits(n_tok as int),
                rope matches Some(t) ==> tables_fit(
                    *t,
                    n_tok as int,
                    s * n_tok,
                    self.cfg.head_dim as int,
                ),
                core == core_of(flash),
                tables == opt_tables(rope),
                x.len() == s * len,
                x@ == early_stream(
                    *self,
                    tables,
                    start,
                    n_tok as int,
                    s as int,
                    core,
                    i as nat,
                ),
            decreases upto - i,
        {
            let with_rope: bool = self.cfg.rope_start >= 0 && i as i32 >= self.cfg.rope_start
                && self.cfg.alt_start > 0 && self.cfg.rope_start < self.cfg.alt_start - 1;
            let t: Option<(&[T], &[T])> = match rope {
                Some(r) => if with_rope {
                    Some((r.local.0.as_slice(), r.local.1.as_slice()))
                } else {
                    None
                },
                None => None,
            };
            x = self.run_each(i, x.as_slice(), n_tok, s, t, flash);
            i = i + 1;
        }
        let mut cls: Vec<Vec<T>> = Vec::new();
        let mut v: usize = 0;
        while v < s
            invariant
                v <= s,
                1 <= embed <= len,
                x.len() == s * len,
                cls.len() == v,
                forall|k: int|
                    0 <= k < v ==> (#[trigger] cls[k])@ == view_of(x@, len as int, k).take(
                        embed as int,
                    ),
            decreases s - v,
        {
            proof {
                lemma_within(v as int, s as int, 0, len as int);
            }
            let part: &[T] = &x[v * len..v * len + embed];
            assert(part@ =~= view_of(x@, len as int, v as int).take(embed as int));
            cls.push(copy_slice(part));
            v = v + 1;
        }
        assert(views(cls@) =~= early_tokens(
            *self,
            tables,
            views(images@),
            gh as int,
            gw as int,
            core,
        ));
        cls
    }

    /// Runs several views together: their tokens meet in the global blocks, where
    /// all are seen against a reference view. Everything is returned in the order
    /// of the input.
    ///
    /// The tables are those of a view's tokens, and of all views' tokens at the
    /// positions that [`nodiff_positions`] gives.
    pub fn forward_mv<D: Widens<T> + Analytic>(
        &self,
        images: &[Vec<T>],
        gh: usize,
        gw: usize,
        rope: Option<&RopeTables<T>>,
        flash: bool,
    ) -> (r: Result<BackboneFeaturesMv<T>, Error>)
        requires
            self.wf(),
            forall|v: int|
                0 <= v < images.len() ==> self.is_image(
                    (#[trigger] images[v])@,
                    gh as int,
                    gw as int,
                ),
            self.fits(images.len() * (1 + gh * gw)),
            self.cfg.rope_start >= 0 ==> rope is Some,
            rope matches Some(t) ==> tables_fit(
                *t,
                1 + gh * gw,
                images.len() * (1 + gh * gw),
                self.cfg.head_dim as int,
            ),
        ensures
            outcome(r) == forward_mv_result::<T, D>(
                *self,
                opt_tables(rope),
                views(images@),
                gh as int,
                gw as int,
                core_of(flash),
            ),
            r matches Ok(f) ==> {
                &&& f.feats.len() == self.cfg.out_layers.len()
                &&& f.cam_tokens.len() == self.cfg.out_layers.len()
                &&& f.ref_view < images.len()
                &&& forall|o: int|
                    0 <= o < f.feats.len() ==> (#[trigger] f.feats[o]).len() == images.len()
                &&& forall|o: int|
                    0 <= o < f.feats.len() ==> (#[trigger] f.cam_tokens[o]).len() == images.len()
                &&& forall|o: int, v: int|
                    0 <= o < f.feats.len() && 0 <= v < images.len() ==> (
                    #[trigger] f.feats[o][v]).len() == (gh * gw) * token_width(self.cfg)
                &&& forall|o: int, v: int|
                    0 <= o < f.feats.len() && 0 <= v < images.len() ==> (
                    #[trigger] f.cam_tokens[o][v]).len() == token_width(self.cfg)
            },
    {
        let s: usize = images.len();
        let embed: usize = self.cfg.embed_dim as usize;
        if s == 0 {
            return Err(Error::Model(ModelError::NoViews));
        }
        if self.camera_token.len() == embed {
            return Err(Error::Model(ModelError::BadShape("vit.camera_token".to_owned())));
        }
        let ghost given = views(images@);
        let ghost core = core_of(flash);
        let ghost tables = opt_tables(rope);
        let mut ref_view: usize = 0;
        if s >= 3 && self.cfg.alt_start >= 0 {
            let cls: Vec<Vec<T>> = self.capture_local_cls(images, gh, gw, rope, flash);
            assert(views(cls@).len() == s);
            let wide: Vec<Vec<D>> = widen_views::<T, D>(&cls);
            ref_view = select_reference_view_saddle(wide.as_slice());
            proof {
                let e = early_tokens(*self, tables, given, gh as int, gw as int, core);
                assert(views(wide@) =~= Seq::new(given.len(), |v: int| widened_all::<T, D>(e[v])))
                    by {
                    assert forall|v: int| 0 <= v < s implies views(wide@)[v] == widened_all::<
                        T,
                        D,
                    >(e[v]) by {
                        assert(e[v] == cls[v]@);
                    }
                }
            }
        }
        let order: Vec<usize> = reorder_by_reference(s, ref_view);
        let mut ordered: Vec<Vec<T>> = Vec::new();
        let mut p: usize = 0;
        while p < s
            invariant
                p <= s,
                s == images.len(),
                order.len() == s,
                forall|q: int|
                    0 <= q < s ==> #[trigger] order[q] == order_at(ref_view as int, q) && order[q]
                        < s,
                ordered.len() == p,
                forall|q: int|
                    0 <= q < p ==> (#[trigger] ordered[q])@ == images[order_at(
                        ref_view as int,
                        q,
                    )]@,
            decreases s - p,
        {
            ordered.push(copy_slice(images[order[p]].as_slice()));
            p = p + 1;
        }
        proof {
            assert(views(ordered@) =~= reordered(given, ref_view as int));
            assert forall|v: int| 0 <= v < ordered.len() implies self.is_image(
                (#[trigger] ordered[v])@,
                gh as int,
                gw as int,
            ) by {
                let from = order_at(ref_view as int, v);
                assert(order[v] == from);
                assert(self.is_image(images[from]@, gh as int, gw as int));
            }
        }
        let (f, c): (Vec<Vec<Vec<T>>>, Vec<Vec<Vec<T>>>) = match self.forward_mv_ordered(
            ordered.as_slice(),
            gh,
            gw,
            rope,
            flash,
        ) {
            Err(e) => {
                return Err(e);
            },
            Ok(x) => x,
        };
        let restore: Vec<usize> = restore_original_order(s, ref_view);
        let feats: Vec<Vec<Vec<T>>> = put_back(&f, &restore);
        let cam_tokens: Vec<Vec<Vec<T>>> = put_back(&c, &restore);
        let out: BackboneFeaturesMv<T> = BackboneFeaturesMv { feats, cam_tokens, ref_view };
        proof {
            let want = mv_features(
                *self,
                tables,
                given,
                gh as int,
                gw as int,
                core,
                ref_view as int,
            );
            assert forall|o: int| 0 <= o < want.feats.len() implies out@.feats[o]
                == want.feats[o] by {
                assert forall|t: int| 0 <= t < s implies views(out.feats[o]@)[t]
                    == want.feats[o][t] by {
                    assert(restore[t] == restore_at(ref_view as int, t));
                    assert(f[o][restore[t] as int]@ == out.feats[o][t]@);
                }
                assert(views(out.feats[o]@) =~= want.feats[o]);
            }
            assert(out@.feats =~= want.feats);
            assert forall|o: int| 0 <= o < want.cam_tokens.len() implies out@.cam_tokens[o]
                == want.cam_tokens[o] by {
                assert forall|t: int| 0 <= t < s implies views(out.cam_tokens[o]@)[t]
                    == want.cam_tokens[o][t] by {
                    assert(restore[t] == restore_at(ref_view as int, t));
                    assert(c[o][restore[t] as int]@ == out.cam_tokens[o][t]@);
                }
                assert(views(out.cam_tokens[o]@) =~= want.cam_tokens[o]);
            }
            assert(out@.cam_tokens =~= want.cam_tokens);
            assert forall|o: int, v: int| 0 <= o < out.feats.len() && 0 <= v < s implies (
            #[trigger] out.feats[o][v]).len() == (gh * gw) * token_width(self.cfg) by {
                assert(out.feats[o][v]@ == f[o][restore[v] as int]@);
                assert(f[o].len() == s);
            }
            assert forall|o: int, v: int| 0 <= o < out.feats.len() && 0 <= v < s implies (
            #[trigger] out.cam_tokens[o][v]).len() == token_width(self.cfg) by {
                assert(out.cam_tokens[o][v]@ == c[o][restore[v] as int]@);
                assert(c[o].len() == s);
            }
        }
        Ok(out)
    }
}

fn widen_views<T: Scalar, D: Widens<T>>(x: &Vec<Vec<T>>) -> (r: Vec<Vec<D>>)
    ensures
        r.len() == x.len(),
        forall|v: int| 0 <= v < x.len() ==> (#[trigger] r[v])@ == widened_all::<T, D>(x[v]@),
{
    let mut r: Vec<Vec<D>> = Vec::new();
    let mut v: usize = 0;
    while v < x.len()
        invariant
            v <= x.len(),
            r.len() == v,
            forall|k: int| 0 <= k < v ==> (#[trigger] r[k])@ == widened_all::<T, D>(x[k]@),
        decreases x.len() - v,
    {
        let from: &Vec<T> = &x[v];
        let mut w: Vec<D> = Vec::new();
        let mut i: usize = 0;
        while i < from.len()
            invariant
                i <= from.len(),
                w.len() == i,
                forall|k: int| 0 <= k < i ==> #[trigger] w[k] == D::widened_spec(from[k]),
            decreases from.len() - i,
        {
            w.push(D::widened(from[i]));
            i = i + 1;
        }
        assert(w@ =~= widened_all::<T, D>(from@));
        r.push(w);
        v = v + 1;
    }
    r
}

fn put_back<T: Copy>(x: &Vec<Vec<Vec<T>>>, restore: &Vec<usize>) -> (r: Vec<Vec<Vec<T>>>)
    requires
        forall|o: int| 0 <= o < x.len() ==> (#[trigger] x[o]).len() == restore.len(),
        forall|t: int| 0 <= t < restore.len() ==> #[trigger] restore[t] < restore.len(),
    ensures
        r.len() == x.len(),
        forall|o: int| 0 <= o < x.len() ==> (#[trigger] r[o]).len() == restore.len(),
        forall|o: int, t: int|
            0 <= o < x.len() && 0 <= t < restore.len() ==> (#[trigger] r[o][t])@
                == x[o][restore[t] as int]@,
{
    let mut r: Vec<Vec<Vec<T>>> = Vec::new();
    let mut o: usize = 0;
    while o < x.len()
        invariant
            o <= x.len(),
            forall|k: int| 0 <= k < x.len() ==> (#[trigger] x[k]).len() == restore.len(),
            forall|t: int| 0 <= t < restore.len() ==> #[trigger] restore[t] < restore.len(),
            r.len() == o,
            forall|k: int| 0 <= k < o ==> (#[trigger] r[k]).len() == restore.len(),
            forall|k: int, t: int|
                0 <= k < o && 0 <= t < restore.len() ==> (#[trigger] r[k][t])@
                    == x[k][restore[t] as int]@,
        decreases x.len() - o,
    {
        let from: &Vec<Vec<T>> = &x[o];
        assert(x@[o as int].len() == restore.len());
        let mut row: Vec<Vec<T>> = Vec::new();
        let mut t: usize = 0;
        while t < restore.len()
            invariant
                t <= restore.len(),
                from.len() == restore.len(),
                forall|k: int| 0 <= k < restore.len() ==> #[trigger] restore[k] < restore.len(),
                row.len() == t,
                forall|k: int|
                    0 <= k < t ==> (#[trigger] row[k])@ == from[restore[k] as int]@,
            decreases restore.len() - t,
        {
            row.push(copy_slice(from[restore[t]].as_slice()));
            t = t + 1;
        }
        let ghost before = r@;
        r.push(row);
        proof {
            assert forall|k: int, t: int| 0 <= k < o + 1 && 0 <= t < restore.len() implies (
            #[trigger] r[k][t])@ == x[k][restore[t] as int]@ by {
                if k < o {
                    assert(r[k] == before[k]);
                    assert(before[k][t]@ == x[k][restore[t] as int]@);
                }
            }
        }
        o = o + 1;
    }
    r
}

// ---- loading ----------------------------------------------------------------

/// What a file says of the parts around the blocks.
pub struct FrameData<T> {
    pub patch: PairData<T>,
    pub cls_token: Seq<T>,
    pub camera_token: Seq<T>,
    pub pos_embed_raw: Seq<T>,
    pub norm: PairData<T>,
}

impl<T> Backbone<T> {
    /// The parts around the blocks.
    pub open spec fn around(&self) -> FrameData<T> {
        FrameData {
            patch: PairData { weight: self.patch_weight@, bias: self.patch_bias@ },
            cls_token: self.cls_token@,
            camera_token: self.camera_token@,
            pos_embed_raw: self.pos_embed_raw@,
            norm: PairData { weight: self.norm_w@, bias: self.norm_b@ },
        }
    }
}

/// A tensor in one of two shapes, the first where both fit.
pub open spec fn loaded_either<T: Scalar>(
    bytes: Seq<u8>,
    header: Header,
    name: Seq<char>,
    a: Seq<usize>,
    b: Seq<usize>,
) -> Result<Seq<T>, Fault> {
    match loaded::<T>(bytes, header, name, a) {
        Ok(v) => Ok(v),
        Err(_) => loaded::<T>(bytes, header, name, b),
    }
}

fn load_either<T: Scalar>(f: &GgufFile, name: &str, a: &[usize], b: &[usize]) -> (r: Result<
    Vec<T>,
    Error,
>)
    requires
        f.wf(),
    ensures
        outcome(r) == loaded_either::<T>(f.contents(), f@, name@, a@, b@),
        r matches Ok(v) ==> v.len() == shape_size(a@) || v.len() == shape_size(b@),
{
    match load_tensor(f, name, a) {
        Ok(v) => Ok(v),
        Err(_) => load_tensor(f, name, b),
    }
}

/// The positional embedding of a grid.
pub open spec fn pos_embed_loaded<T: Scalar>(
    bytes: Seq<u8>,
    header: Header,
    prefix: Seq<char>,
    want: int,
) -> Result<
    Seq<T>,
    Fault,
> {
    match tensor_result::<T>(bytes, header, prefix + "vit.pos_embed"@) {
        Err(e) => Err(e),
        Ok(v) => if v.len() != want {
            Err(Fault::PosEmbedLength { got: v.len(), want: want as nat })
        } else {
            Ok(v)
        },
    }
}

/// The parts around the blocks as a file holds them.
pub open spec fn around_loaded<T: Scalar>(
    bytes: Seq<u8>,
    header: Header,
    prefix: Seq<char>,
    embed: usize,
    patch: usize,
    grid: usize,
) -> Result<FrameData<T>, Fault> {
    match pair_loaded::<T>(
        bytes,
        header,
        prefix + "vit.patch_embed"@,
        seq![embed, 3, patch, patch],
        embed,
    ) {
        Err(e) => Err(e),
        Ok(p) => match loaded_either::<T>(
            bytes,
            header,
            prefix + "vit.cls_token"@,
            seq![embed],
            seq![1, embed],
        ) {
            Err(e) => Err(e),
            Ok(cls_token) => match loaded_either::<T>(
                bytes,
                header,
                prefix + "vit.camera_token"@,
                seq![2, embed],
                seq![embed],
            ) {
                Err(e) => Err(e),
                Ok(camera_token) => match pos_embed_loaded::<T>(
                    bytes,
                    header,
                    prefix,
                    (1 + grid * grid) * embed,
                ) {
                    Err(e) => Err(e),
                    Ok(pos_embed_raw) => match pair_loaded::<T>(
                        bytes,
                        header,
                        prefix + "vit.norm"@,
                        seq![embed],
                        embed,
                    ) {
                        Err(e) => Err(e),
                        Ok(norm) => Ok(
                            FrameData { patch: p, cls_token, camera_token, pos_embed_raw, norm },
                        ),
                    },
                },
            },
        },
    }
}

impl<T: Analytic> Backbone<T> {
    /// Reads what stands around the blocks, under names that begin with `prefix`,
    /// and puts the blocks in between.
    #[verifier::spinoff_prover]
    pub fn load(
        cfg: Config<T>,
        f: &GgufFile,
        prefix: &str,
        blocks: Vec<FastVitBlock<T>>,
    ) -> (r: Result<Self, Error>)
        requires
            f.wf(),
            1 <= cfg.embed_dim,
            1 <= cfg.patch_size,
            1 <= cfg.pos_embed_grid <= i32::MAX,
            (1 + cfg.pos_embed_grid * cfg.pos_embed_grid) * cfg.embed_dim <= usize::MAX,
            blocks.len() <= i32::MAX,
            forall|i: int|
                0 <= i < blocks.len() ==> (#[trigger] blocks[i]).wf() && blocks[i].embed
                    == cfg.embed_dim && blocks[i].attn.head_dim == cfg.head_dim,
        ensures
            match r {
                Ok(b) => {
                    &&& around_loaded::<T>(
                        f.contents(),
                        f@,
                        prefix@,
                        cfg.embed_dim as usize,
                        cfg.patch_size as usize,
                        cfg.pos_embed_grid as usize,
                    ) == Ok::<FrameData<T>, Fault>(b.around())
                    &&& b.blocks == blocks
                    &&& b.cfg == cfg
                    &&& b.wf()
                },
                Err(e) => around_loaded::<T>(
                    f.contents(),
                    f@,
                    prefix@,
                    cfg.embed_dim as usize,
                    cfg.patch_size as usize,
                    cfg.pos_embed_grid as usize,
                ) == Err::<FrameData<T>, Fault>(e@),
            },
    {
        let embed: usize = cfg.embed_dim as usize;
        let patch: usize = cfg.patch_size as usize;
        let grid: usize = cfg.pos_embed_grid as usize;
        let wshape: [usize; 4] = [embed, 3, patch, patch];
        let row: [usize; 1] = [embed];
        let one_row: [usize; 2] = [1, embed];
        let two_rows: [usize; 2] = [2, embed];
        proof {
            assert(wshape@ =~= seq![embed, 3usize, patch, patch]);
            assert(row@ =~= seq![embed]);
            assert(one_row@ =~= seq![1usize, embed]);
            assert(two_rows@ =~= seq![2usize, embed]);
            lemma_sizes(wshape@);
            lemma_sizes(row@);
            lemma_sizes(one_row@);
            lemma_sizes(two_rows@);
            assert(shape_size(row@) == embed);
            assert(shape_size(one_row@) == 1 * embed);
            assert(shape_size(two_rows@) == 2 * embed);
            assert(((embed * 3) * patch) * patch == embed * (3 * (patch * patch)))
                by (nonlinear_arith);
            lemma_factor(1 + grid * grid, embed as int);
            assert(0 <= grid * grid) by (nonlinear_arith)
                requires
                    0 <= grid,
            ;
        }
        let p: Pair<T> = match load_pair(f, joined(prefix, "vit.patch_embed").as_str(), wshape.as_slice(), embed) {
            Err(e) => {
                return Err(e);
            },
            Ok(p) => p,
        };
        let cls_token: Vec<T> = match load_either(
            f,
            joined(prefix, "vit.cls_token").as_str(),
            row.as_slice(),
            one_row.as_slice(),
        ) {
            Err(e) => {
                return Err(e);
            },
            Ok(v) => v,
        };
        let camera_token: Vec<T> = match load_either(
            f,
            joined(prefix, "vit.camera_token").as_str(),
            two_rows.as_slice(),
            row.as_slice(),
        ) {
            Err(e) => {
                return Err(e);
            },
            Ok(v) => v,
        };
        let pos_embed_raw: Vec<T> = match f.tensor_f32(joined(prefix, "vit.pos_embed").as_str()) {
            Err(e) => {
                return Err(e);
            },
            Ok(v) => v,
        };
        let want: usize = (1 + grid * grid) * embed;
        if pos_embed_raw.len() != want {
            return Err(
                Error::Model(ModelError::PosEmbedLength { got: pos_embed_raw.len(), want }),
            );
        }
        let norm: Pair<T> = match load_pair(f, joined(prefix, "vit.norm").as_str(), row.as_slice(), embed) {
            Err(e) => {
                return Err(e);
            },
            Ok(p) => p,
        };
        let b: Self = Backbone {
            patch_weight: p.weight,
            patch_bias: p.bias,
            cls_token,
            camera_token,
            pos_embed_raw,
            blocks,
            norm_w: norm.weight,
            norm_b: norm.bias,
            cfg,
        };
        proof {
            assert(b.patch_weight.len() == embed * (3 * (patch * patch)));
            assert(b.cls_token.len() == embed);
            assert(b.camera_token.len() == embed || b.camera_token.len() == 2 * embed);
            assert(b.wf());
            assert(b.around() == FrameData {
                patch: p@,
                cls_token: cls_token@,
                camera_token: camera_token@,
                pos_embed_raw: pos_embed_raw@,
                norm: norm@,
            });
        }
        Ok(b)
    }
}

proof fn lemma_best_is_a_view<D: Analytic>(scores: Seq<D>, n: nat)
    ensures
        0 <= best_balanced(scores, n).0,
        n > 0 ==> best_balanced(scores, n).0 < n,
        n == 0 ==> best_balanced(scores, n).0 == 0,
    decreases n,
{
    if n > 0 {
        lemma_best_is_a_view(scores, (n - 1) as nat);
    }
}

/// The reference is one of the views, and the first of them where there are at
/// most two or no block is global.
pub proof fn law_reference_is_a_view<T: Analytic, D: Widens<T> + Analytic>(
    b: Backbone<T>,
    rope: Option<RopeTables<T>>,
    images: Seq<Seq<T>>,
    gh: int,
    gw: int,
    core: Core,
)
    requires
        images.len() > 0,
    ensures
        0 <= reference_of::<T, D>(b, rope, images, gh, gw, core) < images.len(),
        images.len() <= 2 || b.cfg.alt_start < 0 ==> reference_of::<T, D>(
            b,
            rope,
            images,
            gh,
            gw,
            core,
        ) == 0,
{
    if images.len() >= 3 && b.cfg.alt_start >= 0 {
        let early = early_tokens(b, rope, images, gh, gw, core);
        let cls = Seq::new(images.len(), |v: int| widened_all::<T, D>(early[v]));
        if cls[0].len() > 0 {
            lemma_best_is_a_view(imbalances(cls), cls.len());
        }
    }
}

} // verus!
