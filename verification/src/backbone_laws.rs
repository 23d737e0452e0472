//! What the tokens of an image are and how they pass through the blocks.

use crate::backbone::{
    all_tokens, block_step, block_tables, camera_of, each_view, feature_of, forward_result,
    injected, patch_term, shared_positions, stray_layer, stream_after, token_at, tokens_of,
    view_of, Backbone, RopeTables, Stream,
};
use crate::fast_block::block_forward;
use crate::flash_attn::Core;
use crate::index::{lemma_split, lemma_within};
use crate::norm::{layernorm_row, row_of};
use crate::pos_embed::interpolated;
use crate::reals::{
    faithful, in_rows, lemma_accumulate, lemma_sum_agree, lemma_sum_rows, lemma_whole, prod, sum,
};
use crate::scalar::{one, zero, Analytic, Scalar};
use vstd::prelude::*;

verus! {

/// The weight of colour `c` at row `y`, column `x` of a patch for channel `e`.
pub open spec fn patch_weight<T>(
    v: spec_fn(T) -> real,
    w: Seq<T>,
    patch: int,
    e: int,
    c: int,
    y: int,
    x: int,
) -> real {
    v(w[((e * 3 + c) * patch + y) * patch + x])
}

/// Colour `c` of the pixel at row `y`, column `x` of an image of `h` by `w`.
pub open spec fn pixel<T>(
    v: spec_fn(T) -> real,
    img: Seq<T>,
    h: int,
    w: int,
    c: int,
    y: int,
    x: int,
) -> real {
    v(img[(c * h + y) * w + x])
}

/// A patch seen through the weights of one channel: over its colours, rows and columns.
pub open spec fn patch_sum<T>(
    v: spec_fn(T) -> real,
    w: Seq<T>,
    img: Seq<T>,
    patch: nat,
    gh: int,
    gw: int,
    gy: int,
    gx: int,
    e: int,
) -> real {
    sum(|c: int| colour_sum(v, w, img, patch, gh, gw, gy, gx, e, c), 3)
}

/// One colour of a patch.
pub open spec fn colour_sum<T>(
    v: spec_fn(T) -> real,
    w: Seq<T>,
    img: Seq<T>,
    patch: nat,
    gh: int,
    gw: int,
    gy: int,
    gx: int,
    e: int,
    c: int,
) -> real {
    sum(|y: int| line_sum(v, w, img, patch, gh, gw, gy, gx, e, c, y), patch)
}

/// One row of one colour of a patch.
pub open spec fn line_sum<T>(
    v: spec_fn(T) -> real,
    w: Seq<T>,
    img: Seq<T>,
    patch: nat,
    gh: int,
    gw: int,
    gy: int,
    gx: int,
    e: int,
    c: int,
    y: int,
) -> real {
    sum(
        |x: int|
            prod(
                patch_weight(v, w, patch as int, e, c, y, x),
                pixel(v, img, gh * patch, gw * patch, c, gy * patch + y, gx * patch + x),
            ),
        patch,
    )
}

/// The terms of a patch, in the order in which they are added up.
proof fn lemma_patch<T: Scalar>(
    v: spec_fn(T) -> real,
    w: Seq<T>,
    img: Seq<T>,
    patch: nat,
    gh: int,
    gw: int,
    gy: int,
    gx: int,
    e: int,
)
    requires
        faithful(v),
        1 <= patch,
    ensures
        sum(
            |t: int|
                v(
                    patch_term(
                        w,
                        img,
                        patch as int,
                        gh * patch,
                        gw * patch,
                        gy,
                        gx,
                        e,
                    )(t),
                ),
            3 * (patch * patch),
        ) == patch_sum(v, w, img, patch, gh, gw, gy, gx, e),
{
    let pp = patch * patch;
    let g = patch_term(w, img, patch as int, gh * patch, gw * patch, gy, gx, e);
    let f = |t: int| v(g(t));
    lemma_sum_rows(f, 3, pp);
    let by_colour = |c: int| colour_sum(v, w, img, patch, gh, gw, gy, gx, e, c);
    assert forall|c: int| 0 <= c < 3 implies #[trigger] in_rows(f, pp)(c) == by_colour(c) by {
        let fc = |s: int| f(c * pp + s);
        lemma_sum_rows(fc, patch, patch);
        let by_row = |y: int| line_sum(v, w, img, patch, gh, gw, gy, gx, e, c, y);
        assert forall|y: int| 0 <= y < patch implies #[trigger] in_rows(fc, patch)(y) == by_row(
            y,
        ) by {
            let by_column = |x: int|
                prod(
                    patch_weight(v, w, patch as int, e, c, y, x),
                    pixel(v, img, gh * patch, gw * patch, c, gy * patch + y, gx * patch + x),
                );
            let fy = |x: int| fc(y * patch + x);
            assert forall|x: int| 0 <= x < patch implies #[trigger] fy(x) == by_column(x) by {
                let s = y * patch + x;
                lemma_within(y, patch as int, x, patch as int);
                lemma_split(y, patch as int, x);
                lemma_split(c, pp as int, s);
                let t = c * pp + s;
                assert(e * (3 * pp) + t == ((e * 3 + c) * patch + y) * patch + x)
                    by (nonlinear_arith)
                    requires
                        pp == patch * patch,
                        s == y * patch + x,
                        t == c * pp + s,
                ;
            }
            lemma_sum_agree(fy, by_column, patch);
            lemma_sum_agree(|x: int| fc(y * patch + x), fy, patch);
        }
        lemma_sum_agree(in_rows(fc, patch), by_row, patch);
        lemma_sum_agree(|s: int| f(c * pp + s), fc, pp);
    }
    lemma_sum_agree(in_rows(f, pp), by_colour, 3);
}

/// The token of the patch in row `gy`, column `gx`: in each channel the sum of the
/// channel's weights times the patch's own pixels, colour by colour and each weight at
/// its own row and column, with the channel's bias and with the embedding of the patch's
/// position. The first token is of no patch.
pub proof fn law_patch_tokens<T: Analytic>(
    v: spec_fn(T) -> real,
    b: Backbone<T>,
    img: Seq<T>,
    gh: int,
    gw: int,
    gy: int,
    gx: int,
    e: int,
)
    requires
        faithful(v),
        b.wf(),
        0 <= gy < gh,
        0 <= gx < gw,
        0 <= e < b.cfg.embed_dim,
    ensures
        ({
            let embed = b.cfg.embed_dim as int;
            let tokens = tokens_of(b, img, gh, gw);
            let pe = interpolated(
                b.pos_embed_raw@,
                embed,
                b.cfg.pos_embed_grid as int,
                gh,
                gw,
                b.cfg.interp_offset,
            );
            let at = (1 + gy * gw + gx) * embed + e;
            &&& tokens.len() == (1 + gh * gw) * embed
            &&& v(tokens[e]) == v(b.cls_token@[e]) + v(pe[e])
            &&& v(tokens[at]) == patch_sum(
                v,
                b.patch_weight@,
                img,
                b.cfg.patch_size as nat,
                gh,
                gw,
                gy,
                gx,
                e,
            ) + v(b.patch_bias@[e]) + v(pe[at])
        }),
{
    lemma_whole::<T>(v, 0);
    let embed = b.cfg.embed_dim as int;
    let patch = b.cfg.patch_size as nat;
    lemma_within(gy, gh, gx, gw);
    lemma_split(gy, gw, gx);
    let row = 1 + gy * gw + gx;
    lemma_within(row, 1 + gh * gw, e, embed);
    lemma_split(row, embed, e);
    lemma_within(0, 1 + gh * gw, e, embed);
    lemma_split(0, embed, e);
    let at = row * embed + e;
    assert(at >= embed) by (nonlinear_arith)
        requires
            at == row * embed + e,
            row >= 1,
            e >= 0,
            embed >= 1,
    ;
    let g = patch_term(
        b.patch_weight@,
        img,
        patch as int,
        gh * patch,
        gw * patch,
        gy,
        gx,
        e,
    );
    let n = (3 * (patch as int * patch as int)) as nat;
    assert(n == 3 * (patch * patch)) by (nonlinear_arith)
        requires
            n == 3 * (patch as int * patch as int),
    ;
    lemma_accumulate(v, T::ratio_spec(0, 1), g, n);
    lemma_patch(v, b.patch_weight@, img, patch, gh, gw, gy, gx, e);
    lemma_sum_agree(
        |i: int| v(g(i)),
        |t: int|
            v(
                patch_term(
                    b.patch_weight@,
                    img,
                    patch as int,
                    gh * patch,
                    gw * patch,
                    gy,
                    gx,
                    e,
                )(t),
            ),
        n,
    );
    assert(tokens_of(b, img, gh, gw)[at] == token_at(b, img, gh, gw, at).plus_spec(
        interpolated(
            b.pos_embed_raw@,
            embed,
            b.cfg.pos_embed_grid as int,
            gh,
            gw,
            b.cfg.interp_offset,
        )[at],
    ));
}

/// Views that share one place: the first token of every view stands at the origin, in
/// both coordinates, and every other token at one, in both.
pub proof fn law_shared_positions<T: Scalar>(n_tok: int, s: int, view: int, t: int, c: int)
    requires
        0 <= view < s,
        0 <= t < n_tok,
        0 <= c < 2,
    ensures
        shared_positions::<T>(n_tok, s).len() == s * n_tok * 2,
        t == 0 ==> shared_positions::<T>(n_tok, s)[(view * n_tok + t) * 2 + c] == zero::<T>(),
        t > 0 ==> shared_positions::<T>(n_tok, s)[(view * n_tok + t) * 2 + c] == one::<T>(),
{
    lemma_within(view, s, t, n_tok);
    lemma_split(view, n_tok, t);
    let k = view * n_tok + t;
    lemma_within(k, s * n_tok, c, 2);
    lemma_split(k, 2, c);
}

/// The camera's own token takes the place of the first token of every view: its first
/// row in the first view, its second row in all others. All other tokens stay.
pub proof fn law_camera_tokens<T>(
    x: Seq<T>,
    cam: Seq<T>,
    embed: int,
    n_tok: int,
    s: int,
    view: int,
    t: int,
    e: int,
)
    requires
        0 < embed,
        0 <= view < s,
        0 <= t < n_tok,
        0 <= e < embed,
        x.len() == s * (n_tok * embed),
    ensures
        injected(x, cam, embed, n_tok * embed).len() == x.len(),
        injected(x, cam, embed, n_tok * embed)[view * (n_tok * embed) + t * embed + e] == (if t
            > 0 {
            x[view * (n_tok * embed) + t * embed + e]
        } else if view == 0 {
            cam[e]
        } else {
            cam[embed + e]
        }),
{
    let len = n_tok * embed;
    let j = t * embed + e;
    lemma_within(t, n_tok, e, embed);
    lemma_within(view, s, j, len);
    lemma_split(view, len, j);
    if t > 0 {
        assert(j >= embed) by (nonlinear_arith)
            requires
                j == t * embed + e,
                t >= 1,
                e >= 0,
                embed > 0,
        ;
    } else {
        assert(j == e) by (nonlinear_arith)
            requires
                j == t * embed + e,
                t == 0,
        ;
    }
    if view == 0 {
        assert(view * len == 0) by (nonlinear_arith)
            requires
                view == 0,
        ;
    } else {
        assert(view * len >= len) by (nonlinear_arith)
            requires
                view >= 1,
                len >= 0,
        ;
    }
}

/// What a block is given: the tokens as they are, or, at the block where views first
/// meet, with the camera's own token in place.
pub open spec fn given<T>(b: Backbone<T>, x: Seq<T>, n_tok: int, i: int) -> Seq<T> {
    if b.cfg.alt_start == i {
        injected(x, b.camera_token@, b.cfg.embed_dim as int, n_tok * b.cfg.embed_dim)
    } else {
        x
    }
}

/// From `alt_start` on, every block of odd number sees the tokens of all views at once,
/// and what was local before stays the local tokens; it turns by the tables of all
/// tokens. Every other block sees each view by itself, and what it gives is local; it
/// turns by the tables of one view. Blocks before `rope_start` do not turn.
pub proof fn law_blocks_alternate<T: Analytic>(
    b: Backbone<T>,
    rope: Option<RopeTables<T>>,
    st: Stream<T>,
    n_tok: int,
    s: int,
    core: Core,
    i: int,
    view: int,
)
    requires
        b.wf(),
        0 <= i < b.blocks.len(),
        1 <= n_tok,
        0 <= view < s,
        given(b, st.x, n_tok, i).len() == s * (n_tok * b.cfg.embed_dim),
    ensures
        ({
            let turns = rope is Some && b.cfg.rope_start >= 0 && i >= b.cfg.rope_start;
            let len = n_tok * b.cfg.embed_dim;
            let x = given(b, st.x, n_tok, i);
            let r = block_step(b, rope, st, n_tok, s, core, i);
            if b.cfg.alt_start >= 0 && i >= b.cfg.alt_start && i % 2 == 1 {
                &&& r.local == st.local
                &&& turns ==> r.x == block_forward(
                    b.blocks[i],
                    x,
                    s * n_tok,
                    Some((rope->0.global.0@, rope->0.global.1@)),
                    core,
                )
                &&& !turns ==> r.x == block_forward(b.blocks[i], x, s * n_tok, None, core)
            } else {
                &&& r.local == r.x
                &&& turns ==> view_of(r.x, len, view) == block_forward(
                    b.blocks[i],
                    view_of(x, len, view),
                    n_tok,
                    Some((rope->0.local.0@, rope->0.local.1@)),
                    core,
                )
                &&& !turns ==> view_of(r.x, len, view) == block_forward(
                    b.blocks[i],
                    view_of(x, len, view),
                    n_tok,
                    None,
                    core,
                )
            }
        }),
{
    let len = n_tok * b.cfg.embed_dim;
    assert(b.blocks[i].embed == b.cfg.embed_dim);
    let x = given(b, st.x, n_tok, i);
    let t = block_tables(b.cfg, rope, i);
    let y = each_view(b.blocks[i], x, n_tok, s, t, core);
    assert(1 <= len) by (nonlinear_arith)
        requires
            1 <= n_tok,
            1 <= b.cfg.embed_dim,
            len == n_tok * b.cfg.embed_dim,
    ;
    lemma_within(view, s, 0, len);
    let own = block_forward(b.blocks[i], view_of(x, len, view), n_tok, t, core);
    assert(view_of(x, len, view).len() == len);
    assert(own.len() == len);
    assert forall|j: int| 0 <= j < len implies view_of(y, len, view)[j] == own[j] by {
        lemma_split(view, len, j);
        lemma_within(view, s, j, len);
    }
    assert(view_of(y, len, view) =~= own);
}

/// The features of patch `t` of one view: where tokens are put side by side, first the
/// local token as it is and then the other one normalised; else the normalised one
/// alone. The token before the patches is left out.
pub proof fn law_features<T: Analytic>(
    b: Backbone<T>,
    local: Seq<T>,
    x: Seq<T>,
    n_tok: int,
    t: int,
    c: int,
)
    requires
        1 <= b.cfg.embed_dim,
        0 <= t < n_tok - 1,
        0 <= c < b.cfg.embed_dim,
        x.len() == n_tok * b.cfg.embed_dim,
    ensures
        ({
            let embed = b.cfg.embed_dim as int;
            let f = feature_of(b, local, x, n_tok);
            let own = layernorm_row(
                row_of(x, embed, t + 1),
                b.norm_w@,
                b.norm_b@,
                b.cfg.ln_eps,
            )[c];
            if b.cfg.cat_token {
                &&& f.len() == (n_tok - 1) * (2 * embed)
                &&& f[t * (2 * embed) + c] == local[(t + 1) * embed + c]
                &&& f[t * (2 * embed) + embed + c] == own
            } else {
                &&& f.len() == (n_tok - 1) * embed
                &&& f[t * embed + c] == own
            }
        }),
{
    let embed = b.cfg.embed_dim as int;
    lemma_within(t, n_tok - 1, c, 2 * embed);
    lemma_within(t, n_tok - 1, embed + c, 2 * embed);
    lemma_split(t, 2 * embed, c);
    lemma_split(t, 2 * embed, embed + c);
    lemma_within(t + 1, n_tok, c, embed);
    lemma_split(t + 1, embed, c);
    lemma_within(t, n_tok - 1, c, embed);
    let f = feature_of(b, local, x, n_tok);
    assert((t + 1) * embed + c == t * embed + c + embed) by (nonlinear_arith);
    assert((t + 1) * embed + (embed + c) - embed == (t + 1) * embed + c);
    assert(n_tok * embed - embed == (n_tok - 1) * embed) by (nonlinear_arith);
    assert(t * (2 * embed) + (embed + c) == t * (2 * embed) + embed + c);
}

/// The camera token of one view is its first token, as it is; where tokens are put side
/// by side, behind the first local one.
pub proof fn law_camera_token<T>(b: Backbone<T>, local: Seq<T>, x: Seq<T>, c: int)
    requires
        0 <= c < b.cfg.embed_dim,
        x.len() >= b.cfg.embed_dim,
        local.len() >= b.cfg.embed_dim,
    ensures
        b.cfg.cat_token ==> camera_of(b, local, x).len() == 2 * b.cfg.embed_dim && camera_of(
            b,
            local,
            x,
        )[c] == local[c] && camera_of(b, local, x)[b.cfg.embed_dim + c] == x[c],
        !b.cfg.cat_token ==> camera_of(b, local, x).len() == b.cfg.embed_dim && camera_of(
            b,
            local,
            x,
        )[c] == x[c],
{
}

/// The features of an image are those of its views after the listed blocks, in the order
/// of the list: those of block `k` are taken once block `k` has run. The camera token is
/// that of the last listed block.
pub proof fn law_out_layers<T: Analytic>(
    b: Backbone<T>,
    rope: Option<RopeTables<T>>,
    image: Seq<T>,
    gh: int,
    gw: int,
    core: Core,
    o: int,
)
    requires
        b.wf(),
        1 <= gh,
        1 <= gw,
        0 <= o < b.cfg.out_layers@.len(),
        forall|i: int|
            0 <= i < b.cfg.out_layers@.len() ==> 0 <= #[trigger] b.cfg.out_layers@[i]
                < b.blocks@.len(),
    ensures
        ({
            let n_tok = 1 + gh * gw;
            let len = n_tok * b.cfg.embed_dim;
            let k = b.cfg.out_layers@[o] as int;
            let last = b.cfg.out_layers@.last() as int;
            let start = tokens_of(b, image, gh, gw);
            let st = block_step(
                b,
                rope,
                stream_after(b, rope, start, n_tok, 1, core, k as nat),
                n_tok,
                1,
                core,
                k,
            );
            let end = block_step(
                b,
                rope,
                stream_after(b, rope, start, n_tok, 1, core, last as nat),
                n_tok,
                1,
                core,
                last,
            );
            &&& stream_after(b, rope, start, n_tok, 1, core, 0).x == start
            &&& forward_result(b, rope, image, gh, gw, core) matches Ok(f) && f.feats.len()
                == b.cfg.out_layers@.len() && f.feats[o] == feature_of(
                b,
                st.local.take(len),
                st.x.take(len),
                n_tok,
            ) && f.cam_token == camera_of(b, end.local.take(len), end.x.take(len))
        }),
{
    let layers = b.cfg.out_layers@;
    lemma_no_stray(layers, b.blocks@.len() as int);
    let start = tokens_of(b, image, gh, gw);
    reveal_with_fuel(all_tokens, 2);
    assert(seq![image].drop_last() =~= Seq::empty());
    assert(seq![image].last() == image);
    assert(all_tokens(b, seq![image], gh, gw) =~= start);
    let k = layers[o] as int;
    assert(0 <= layers[o] < b.blocks@.len());
    assert(layers.last() == layers[layers.len() - 1]);
    let last = layers.last() as int;
    assert(((k + 1) as nat - 1) as nat == k as nat);
    assert(((last + 1) as nat - 1) as nat == last as nat);
    let len = (1 + gh * gw) * b.cfg.embed_dim;
    assert(0 * len == 0) by (nonlinear_arith);
    assert(0 * len + len == len) by (nonlinear_arith);
}

/// No layer of a list is missing where all are blocks.
proof fn lemma_no_stray(layers: Seq<i32>, depth: int)
    requires
        forall|i: int| 0 <= i < layers.len() ==> 0 <= #[trigger] layers[i] < depth,
    ensures
        stray_layer(layers, depth) is None,
    decreases layers.len(),
{
    if layers.len() > 0 {
        assert(0 <= layers[0] < depth);
        let rest = layers.skip(1);
        assert forall|i: int| 0 <= i < rest.len() implies 0 <= #[trigger] rest[i] < depth by {
            assert(rest[i] == layers[i + 1]);
        }
        lemma_no_stray(rest, depth);
    }
}

} // verus!
