//! Position embeddings of a stored patch grid, resampled to another grid.

use crate::exact::lemma_exact_product;
use crate::index::{lemma_join, lemma_row_within, lemma_split, lemma_within};
use crate::scalar::{from_int, number, one, whole_part, whole_part_of, zero, Analytic, Fixed, Scalar};
use vstd::prelude::*;

verus! {

/// The cubic kernel with slope -3/4.
pub open spec fn cubic_of<T: Analytic>(x: T) -> T {
    let a = x.magnitude_spec();
    if a.less_spec(one()) {
        T::ratio_spec(5, 4).times_spec(a).minus_spec(T::ratio_spec(9, 4)).times_spec(a).times_spec(
            a,
        ).plus_spec(one())
    } else if a.less_spec(T::ratio_spec(2, 1)) {
        T::ratio_spec((-3) as i32, 4).times_spec(
            a.minus_spec(T::ratio_spec(5, 1)).times_spec(a).plus_spec(
                T::ratio_spec(8, 1),
            ).times_spec(a).minus_spec(T::ratio_spec(4, 1)),
        )
    } else {
        zero()
    }
}

/// The cubic kernel with slope -3/4.
pub fn cubic<T: Analytic>(x: T) -> (r: T)
    ensures
        r == cubic_of(x),
{
    let a: T = x.magnitude();
    let u: T = T::ratio(1, 1);
    if a.less(u) {
        T::ratio(5, 4).times(a).minus(T::ratio(9, 4)).times(a).times(a).plus(u)
    } else if a.less(T::ratio(2, 1)) {
        T::ratio(-3, 4).times(
            a.minus(T::ratio(5, 1)).times(a).plus(T::ratio(8, 1)).times(a).minus(T::ratio(4, 1)),
        )
    } else {
        T::ratio(0, 1)
    }
}

/// Where position `o` of a grid of `len` lies in a grid of `m`.
pub open spec fn source_place<T: Scalar>(o: int, len: int, m: int, offset: T) -> T {
    let scale = T::from_count_spec(len as usize).plus_spec(offset).over_spec(
        T::from_count_spec(m as usize),
    );
    T::from_count_spec(o as usize).plus_spec(T::ratio_spec(1, 2)).over_spec(scale).minus_spec(
        T::ratio_spec(1, 2),
    )
}

/// The position just before a place.
pub open spec fn source_index<T: Analytic>(place: T) -> int {
    whole_part(place.rounded_down_spec(), 0x7fff_ffff)
}

/// The weight of neighbour `i` of four of a place.
pub open spec fn source_weight<T: Analytic>(place: T, i: int) -> T {
    cubic_of(
        place.minus_spec(from_int(source_index(place))).minus_spec(
            T::ratio_spec((i - 1) as i32, 1),
        ),
    )
}

/// A position within a grid of `m`.
pub open spec fn within_grid(v: int, m: int) -> int {
    if v < 0 {
        0
    } else if v > m - 1 {
        m - 1
    } else {
        v
    }
}

/// Neighbour `i` of four of a place in a grid of `m`.
pub open spec fn neighbour<T: Analytic>(place: T, i: int, m: int) -> int {
    within_grid(source_index(place) + i - 1, m)
}

/// The first `t` of the sixteen neighbours, weighted and added up; neighbours
/// without weight are left out.
pub open spec fn blended<T: Analytic>(
    pe: Seq<T>,
    embed: int,
    m: int,
    py: T,
    px: T,
    ch: int,
    t: nat,
) -> T
    decreases t,
{
    if t == 0 {
        zero()
    } else {
        let before = blended(pe, embed, m, py, px, ch, (t - 1) as nat);
        let (i, j) = ((t - 1) / 4, (t - 1) % 4);
        let wy = source_weight(py, i);
        let wx = source_weight(px, j);
        if wy.same_spec(zero()) || wx.same_spec(zero()) {
            before
        } else {
            before.plus_spec(
                wy.times_spec(wx).times_spec(
                    pe[(1 + neighbour(py, i, m) * m + neighbour(px, j, m)) * embed + ch],
                ),
            )
        }
    }
}

/// Element `p` of the resampled embeddings.
pub open spec fn embed_at<T: Analytic>(
    pe: Seq<T>,
    embed: int,
    m: int,
    gh: int,
    gw: int,
    offset: T,
    p: int,
) -> T {
    if p < embed {
        pe[p]
    } else {
        let patch = p / embed - 1;
        blended(
            pe,
            embed,
            m,
            source_place(patch / gw, gh, m, offset),
            source_place(patch % gw, gw, m, offset),
            p % embed,
            16,
        )
    }
}

/// The embeddings for a grid of `gh` by `gw` patches, with the first row as it is.
pub open spec fn interpolated<T: Analytic>(
    pe: Seq<T>,
    embed: int,
    m: int,
    gh: int,
    gw: int,
    offset: T,
) -> Seq<T> {
    Seq::new(
        ((1 + gh * gw) * embed) as nat,
        |p: int| embed_at(pe, embed, m, gh, gw, offset, p),
    )
}

/// The four neighbours of a place in one direction, and their weights.
struct Stencil<T> {
    at: [usize; 4],
    weight: [T; 4],
}

impl<T: Analytic> Stencil<T> {
    spec fn is(self, place: T, m: int) -> bool {
        &&& forall|i: int| 0 <= i < 4 ==> #[trigger] self.at[i] == neighbour(place, i, m)
        &&& forall|i: int| 0 <= i < 4 ==> #[trigger] self.weight[i] == source_weight(place, i)
        &&& forall|i: int| 0 <= i < 4 ==> #[trigger] self.at[i] < m
    }
}

fn clamp_index(v: i64, m: usize) -> (r: usize)
    requires
        1 <= m <= i32::MAX,
    ensures
        r == within_grid(v as int, m as int),
        r < m,
{
    if v < 0 {
        0
    } else if v > m as i64 - 1 {
        m - 1
    } else {
        v as usize
    }
}

fn stencil<T: Analytic>(o: usize, len: usize, m: usize, offset: T) -> (s: Stencil<T>)
    requires
        1 <= m <= i32::MAX,
    ensures
        s.is(source_place(o as int, len as int, m as int, offset), m as int),
{
    let half: T = T::ratio(1, 2);
    let scale: T = T::from_count(len).plus(offset).over(T::from_count(m));
    let place: T = T::from_count(o).plus(half).over(scale).minus(half);
    let first: i64 = whole_part_of(place.rounded_down(), 0x7fff_ffff);
    let f: T = place.minus(number(first));
    Stencil {
        at: [
            clamp_index(first - 1, m),
            clamp_index(first, m),
            clamp_index(first + 1, m),
            clamp_index(first + 2, m),
        ],
        weight: [
            cubic(f.minus(T::ratio(-1, 1))),
            cubic(f.minus(T::ratio(0, 1))),
            cubic(f.minus(T::ratio(1, 1))),
            cubic(f.minus(T::ratio(2, 1))),
        ],
    }
}

fn blend_at<T: Analytic>(
    pe: &[T],
    embed: usize,
    m: usize,
    sy: &Stencil<T>,
    sx: &Stencil<T>,
    ch: usize,
    py: Ghost<T>,
    px: Ghost<T>,
) -> (r: T)
    requires
        1 <= m,
        ch < embed,
        (1 + m * m) * embed <= pe.len(),
        sy.is(py@, m as int),
        sx.is(px@, m as int),
    ensures
        r == blended(pe@, embed as int, m as int, py@, px@, ch as int, 16),
{
    let nil: T = T::ratio(0, 1);
    let mut acc: T = nil;
    let mut t: usize = 0;
    while t < 16
        invariant
            t <= 16,
            1 <= m,
            ch < embed,
            (1 + m * m) * embed <= pe.len(),
            sy.is(py@, m as int),
            sx.is(px@, m as int),
            nil == zero::<T>(),
            acc == blended(pe@, embed as int, m as int, py@, px@, ch as int, t as nat),
        decreases 16 - t,
    {
        let i: usize = t / 4;
        let j: usize = t % 4;
        let wy: T = sy.weight[i];
        let wx: T = sx.weight[j];
        assert(sy.at[i as int] < m && sx.at[j as int] < m);
        if !wy.same(nil) && !wx.same(nil) {
            let y: usize = sy.at[i];
            let x: usize = sx.at[j];
            proof {
                lemma_within(y as int, m as int, x as int, m as int);
                let row = 1 + y * m + x;
                lemma_within(row, 1 + m * m, ch as int, embed as int);
                assert(y * m + x < 1 + m * m);
                assert(1 + m * m <= (1 + m * m) * embed) by (nonlinear_arith)
                    requires
                        1 <= embed,
                        0 <= m,
                ;
            }
            let src: T = pe[(1 + y * m + x) * embed + ch];
            acc = acc.plus(wy.times(wx).times(src));
        }
        t = t + 1;
    }
    acc
}

/// Resamples embeddings of `m_grid` by `m_grid` patches, behind one row of their
/// own, to `gh` by `gw` patches. `interp_offset` is added to the grid's sizes.
pub fn interp_pos_embed<T: Analytic>(
    pos_embed: &[T],
    embed: usize,
    m_grid: usize,
    gh: usize,
    gw: usize,
    interp_offset: T,
) -> (out: Vec<T>)
    requires
        m_grid <= i32::MAX,
        gh * gw > 0 ==> 1 <= m_grid,
        (1 + m_grid * m_grid) * embed <= pos_embed.len(),
        (1 + gh * gw) * embed <= usize::MAX,
        gh * gw < usize::MAX,
    ensures
        out@ == interpolated(
            pos_embed@,
            embed as int,
            m_grid as int,
            gh as int,
            gw as int,
            interp_offset,
        ),
{
    let ghost want = interpolated(
        pos_embed@,
        embed as int,
        m_grid as int,
        gh as int,
        gw as int,
        interp_offset,
    );
    proof {
        assert(embed <= (1 + m_grid * m_grid) * embed && (1 + gh * gw) * embed == embed + (gh
            * gw) * embed && 0 <= (gh * gw) * embed) by (nonlinear_arith)
            requires
                0 <= embed,
                0 <= m_grid,
                0 <= gh,
                0 <= gw,
        ;
    }
    let mut out: Vec<T> = Vec::new();
    let mut c: usize = 0;
    while c < embed
        invariant
            c <= embed,
            embed <= pos_embed.len(),
            out.len() == c,
            forall|j: int| 0 <= j < c ==> #[trigger] out[j] == pos_embed[j],
        decreases embed - c,
    {
        out.push(pos_embed[c]);
        c = c + 1;
    }
    let total: usize = gh * gw;
    let mut patch: usize = 0;
    assert(0 * embed == 0) by (nonlinear_arith);
    while patch < total
        invariant
            patch <= total,
            total == gh * gw,
            m_grid <= i32::MAX,
            total > 0 ==> 1 <= m_grid,
            (1 + m_grid * m_grid) * embed <= pos_embed.len(),
            (1 + total) * embed <= usize::MAX,
            want == interpolated(
                pos_embed@,
                embed as int,
                m_grid as int,
                gh as int,
                gw as int,
                interp_offset,
            ),
            out.len() == embed + patch * embed,
            forall|p: int| 0 <= p < embed + patch * embed ==> #[trigger] out[p] == embed_at(
                pos_embed@,
                embed as int,
                m_grid as int,
                gh as int,
                gw as int,
                interp_offset,
                p,
            ),
        decreases total - patch,
    {
        proof {
            assert(gw > 0) by (nonlinear_arith)
                requires
                    0 <= patch < gh * gw,
            ;
        }
        let oy: usize = patch / gw;
        let ox: usize = patch % gw;
        let sy: Stencil<T> = stencil(oy, gh, m_grid, interp_offset);
        let sx: Stencil<T> = stencil(ox, gw, m_grid, interp_offset);
        let ghost py = source_place(oy as int, gh as int, m_grid as int, interp_offset);
        let ghost px = source_place(ox as int, gw as int, m_grid as int, interp_offset);
        let mut ch: usize = 0;
        while ch < embed
            invariant
                ch <= embed,
                patch < total,
                gw > 0,
                1 <= m_grid,
                oy == patch as int / gw as int,
                ox == patch as int % gw as int,
                (1 + m_grid * m_grid) * embed <= pos_embed.len(),
                sy.is(py, m_grid as int),
                sx.is(px, m_grid as int),
                py == source_place(oy as int, gh as int, m_grid as int, interp_offset),
                px == source_place(ox as int, gw as int, m_grid as int, interp_offset),
                out.len() == embed + patch * embed + ch,
                forall|p: int|
                    0 <= p < embed + patch * embed + ch ==> #[trigger] out[p] == embed_at(
                        pos_embed@,
                        embed as int,
                        m_grid as int,
                        gh as int,
                        gw as int,
                        interp_offset,
                        p,
                    ),
            decreases embed - ch,
        {
            let v: T = blend_at(pos_embed, embed, m_grid, &sy, &sx, ch, Ghost(py), Ghost(px));
            proof {
                let p = embed + patch * embed + ch;
                assert(p == (patch + 1) * embed + ch && embed <= p) by (nonlinear_arith)
                    requires
                        p == embed + patch * embed + ch,
                        0 <= patch,
                        0 <= embed,
                        0 <= ch,
                ;
                lemma_split(patch + 1, embed as int, ch as int);
            }
            out.push(v);
            ch = ch + 1;
        }
        assert((patch + 1) * embed == patch * embed + embed) by (nonlinear_arith);
        patch = patch + 1;
    }
    assert(out@ =~= want);
    out
}

// ---- the cache --------------------------------------------------------------

/// Which embeddings a cached result belongs to, and for which grid.
#[derive(Clone, Copy, Debug, PartialEq, Eq, Structural)]
pub struct Key {
    /// Tells stored embeddings apart.
    pub source: usize,
    pub gh: usize,
    pub gw: usize,
}

/// Resampled embeddings by key.
pub struct PosEmbedCache<T> {
    pub keys: Vec<Key>,
    pub values: Vec<Vec<T>>,
}

/// What the first entry under a key holds.
pub open spec fn first_under<T>(keys: Seq<Key>, values: Seq<Vec<T>>, key: Key) -> Option<Seq<T>>
    decreases keys.len(),
{
    if keys.len() == 0 {
        None
    } else if keys[0] == key {
        Some(values[0]@)
    } else {
        first_under(keys.skip(1), values.skip(1), key)
    }
}

impl<T: Analytic> PosEmbedCache<T> {
    pub open spec fn wf(&self) -> bool {
        self.keys.len() == self.values.len()
    }

    /// What is cached under a key.
    pub open spec fn holds(&self, key: Key) -> Option<Seq<T>> {
        first_under(self.keys@, self.values@, key)
    }

    /// What is given for a key whose embeddings would be `fresh`.
    pub open spec fn given(&self, key: Key, fresh: Seq<T>) -> Seq<T> {
        match self.holds(key) {
            Some(v) => v,
            None => fresh,
        }
    }

    pub fn new() -> (r: Self)
        ensures
            r.wf(),
            forall|key: Key| (#[trigger] r.holds(key)) is None,
    {
        PosEmbedCache { keys: Vec::new(), values: Vec::new() }
    }

    fn find(&self, key: Key) -> (r: Option<usize>)
        requires
            self.wf(),
        ensures
            match r {
                Some(i) => i < self.keys.len() && self.holds(key) == Some(self.values[i as int]@),
                None => self.holds(key) is None,
            },
    {
        let mut i: usize = 0;
        assert(self.keys@.skip(0) =~= self.keys@);
        assert(self.values@.skip(0) =~= self.values@);
        while i < self.keys.len()
            invariant
                i <= self.keys.len(),
                self.wf(),
                first_under(self.keys@.skip(i as int), self.values@.skip(i as int), key)
                    == self.holds(key),
            decreases self.keys.len() - i,
        {
            if self.keys[i] == key {
                return Some(i);
            }
            assert(self.keys@.skip(i as int).skip(1) =~= self.keys@.skip(i + 1));
            assert(self.values@.skip(i as int).skip(1) =~= self.values@.skip(i + 1));
            i = i + 1;
        }
        None
    }
}

/// As [`interp_pos_embed`], computed once for each source and grid: a cached
/// result is given as it is.
pub fn interp_pos_embed_cached<T: Analytic>(
    cache: &mut PosEmbedCache<T>,
    source: usize,
    pos_embed: &[T],
    embed: usize,
    m_grid: usize,
    gh: usize,
    gw: usize,
    interp_offset: T,
) -> (out: Vec<T>)
    requires
        old(cache).wf(),
        m_grid <= i32::MAX,
        gh * gw > 0 ==> 1 <= m_grid,
        (1 + m_grid * m_grid) * embed <= pos_embed.len(),
        (1 + gh * gw) * embed <= usize::MAX,
        gh * gw < usize::MAX,
    ensures
        final(cache).wf(),
        ({
            let key = Key { source, gh, gw };
            let fresh = interpolated(
                pos_embed@,
                embed as int,
                m_grid as int,
                gh as int,
                gw as int,
                interp_offset,
            );
            &&& out@ == old(cache).given(key, fresh)
            &&& final(cache).holds(key) == Some(out@)
            &&& forall|other: Key|
                other != key ==> #[trigger] final(cache).holds(other) == old(cache).holds(other)
        }),
{
    let key: Key = Key { source, gh, gw };
    if let Some(i) = cache.find(key) {
        return crate::fast_attn::copy_slice(cache.values[i].as_slice());
    }
    let v: Vec<T> = interp_pos_embed(pos_embed, embed, m_grid, gh, gw, interp_offset);
    let kept: Vec<T> = crate::fast_attn::copy_slice(v.as_slice());
    proof {
        assert forall|other: Key|
            #![trigger cache.holds(other)]
            first_under(cache.keys@.push(key), cache.values@.push(kept), other) == (if other
                == key {
                Some(v@)
            } else {
                cache.holds(other)
            }) by {
            lemma_first_under_push(cache.keys@, cache.values@, key, kept, other);
        }
    }
    let ghost before = *cache;
    cache.keys.push(key);
    cache.values.push(kept);
    proof {
        assert(before.holds(key) is None);
        assert forall|other: Key| other != key implies #[trigger] cache.holds(other)
            == before.holds(other) by {
            assert(before.holds(other) == before.holds(other));
        }
    }
    v
}

/// Forgets everything.
pub fn clear_cache<T: Analytic>(cache: &mut PosEmbedCache<T>)
    ensures
        final(cache).wf(),
        final(cache).keys@ == Seq::<Key>::empty(),
        final(cache).values@ == Seq::<Vec<T>>::empty(),
        forall|key: Key| (#[trigger] final(cache).holds(key)) is None,
{
    cache.keys = Vec::new();
    cache.values = Vec::new();
}

/// A cleared cache gives every embedding fresh, whatever it held before.
pub proof fn law_cleared<T: Analytic>(cache: PosEmbedCache<T>, key: Key, fresh: Seq<T>)
    requires
        cache.keys@ == Seq::<Key>::empty(),
    ensures
        cache.given(key, fresh) == fresh,
{
}

proof fn lemma_first_under_push<T>(
    keys: Seq<Key>,
    values: Seq<Vec<T>>,
    key: Key,
    value: Vec<T>,
    other: Key,
)
    requires
        keys.len() == values.len(),
    ensures
        first_under(keys.push(key), values.push(value), other) == (match first_under(
            keys,
            values,
            other,
        ) {
            Some(v) => Some(v),
            None => if other == key {
                Some(value@)
            } else {
                None
            },
        }),
    decreases keys.len(),
{
    if keys.len() > 0 {
        lemma_first_under_push(keys.skip(1), values.skip(1), key, value, other);
        assert(keys.push(key).skip(1) =~= keys.skip(1).push(key));
        assert(values.push(value).skip(1) =~= values.skip(1).push(value));
    } else {
        assert(keys.push(key).skip(1) =~= Seq::empty());
        assert(values.push(value).skip(1) =~= Seq::empty());
        assert(first_under(keys.push(key).skip(1), values.push(value).skip(1), other) is None);
    }
}

// ---- resampling to the same grid ------------------------------------------------

/// The kernel at whole distances.
proof fn lemma_kernel_at_whole()
    ensures
        cubic_of(Fixed(0)) == Fixed(65536),
        cubic_of(Fixed(65536)) == Fixed(0),
        cubic_of(Fixed((-65536) as i64)) == Fixed(0),
        cubic_of(Fixed((-131072) as i64)) == Fixed(0),
{
    let z = Fixed(0);
    let u = Fixed(65536);
    assert(65536u64 / 1u64 == 65536);
    assert(327680u64 / 4u64 == 81920);
    assert(589824u64 / 4u64 == 147456);
    assert(196608u64 / 4u64 == 49152);
    assert(131072u64 / 1u64 == 131072);
    assert(327680u64 / 1u64 == 327680);
    assert(524288u64 / 1u64 == 524288);
    assert(262144u64 / 1u64 == 262144);
    assert(0u64 / 1u64 == 0);
    lemma_exact_product(Fixed(81920), z, 0);
    lemma_exact_product(Fixed((-147456) as i64), z, 0);
    lemma_exact_product(z, z, 0);
    assert(Fixed::ratio_spec(5, 4) == Fixed(81920));
    assert(Fixed::ratio_spec(9, 4) == Fixed(147456));
    assert(one::<Fixed>() == u);
    assert(zero::<Fixed>() == z);
    assert(cubic_of(z) == u);
    assert(Fixed::ratio_spec((-3) as i32, 4) == Fixed((-49152) as i64));
    assert(Fixed::ratio_spec(5, 1) == Fixed(327680));
    assert(Fixed::ratio_spec(8, 1) == Fixed(524288));
    assert(Fixed::ratio_spec(4, 1) == Fixed(262144));
    assert(Fixed::ratio_spec(2, 1) == Fixed(131072));
    lemma_exact_product(Fixed((-262144) as i64), u, (-262144) as i64);
    lemma_exact_product(Fixed(262144), u, 262144);
    lemma_exact_product(Fixed((-49152) as i64), z, 0);
    assert(cubic_of(u) == z);
}

/// A position of a grid lies at itself in a grid of the same size.
proof fn lemma_same_place(o: int, m: int)
    requires
        0 <= o < m <= i32::MAX,
    ensures
        source_place(o, m, m, zero::<Fixed>()) == Fixed((o * 65536) as i64),
        source_index(Fixed((o * 65536) as i64)) == o,
{
    let (f, h) = (m * 65536, o * 65536);
    assert(0u64 / 1u64 == 0);
    assert(65536u64 / 2u64 == 32768);
    assert(zero::<Fixed>() == Fixed(0));
    assert(Fixed::from_count_spec(m as usize) == Fixed(f as i64));
    assert(Fixed::from_count_spec(o as usize) == Fixed(h as i64));
    assert((f * 65536) / f == 65536) by (nonlinear_arith)
        requires
            f > 0,
    ;
    let scale = Fixed(f as i64).plus_spec(zero()).over_spec(Fixed(f as i64));
    assert(scale == Fixed(65536));
    assert(Fixed::ratio_spec(1, 2) == Fixed(32768));
    assert(((h + 32768) * 65536) / 65536 == h + 32768);
    let place = Fixed(h as i64);
    assert(place.rounded_down_spec() == place);
    assert(h as u64 / 65536 == o);
}

/// The weights of a place that is a position: all of it on that position.
proof fn lemma_whole_weights(o: int, i: int)
    requires
        0 <= o < i32::MAX,
        0 <= i < 4,
    ensures
        source_weight(Fixed((o * 65536) as i64), i) == (if i == 1 {
            Fixed(65536)
        } else {
            Fixed(0)
        }),
{
    lemma_same_place(o, o + 1);
    lemma_kernel_at_whole();
    let place = Fixed((o * 65536) as i64);
    assert(from_int::<Fixed>(o) == place);
    assert(place.minus_spec(from_int(source_index(place))) == Fixed(0));
    assert(0u64 / 1u64 == 0);
    assert(65536u64 / 1u64 == 65536);
    assert(131072u64 / 1u64 == 131072);
    assert(Fixed::ratio_spec((-1) as i32, 1) == Fixed((-65536) as i64));
    assert(Fixed::ratio_spec(0, 1) == Fixed(0));
    assert(Fixed::ratio_spec(1, 1) == Fixed(65536));
    assert(Fixed::ratio_spec(2, 1) == Fixed(131072));
}

/// Sixteen neighbours of which one has all the weight.
proof fn lemma_one_neighbour(pe: Seq<Fixed>, embed: int, m: int, y: int, x: int, ch: int)
    requires
        0 <= y < m <= i32::MAX,
        0 <= x < m,
    ensures
        blended(pe, embed, m, Fixed((y * 65536) as i64), Fixed((x * 65536) as i64), ch, 16)
            == pe[(1 + y * m + x) * embed + ch],
{
    let (py, px) = (Fixed((y * 65536) as i64), Fixed((x * 65536) as i64));
    assert forall|i: int| 0 <= i < 4 implies #[trigger] source_weight(py, i) == (if i == 1 {
        Fixed(65536)
    } else {
        Fixed(0)
    }) by {
        lemma_whole_weights(y, i);
    }
    assert forall|i: int| 0 <= i < 4 implies #[trigger] source_weight(px, i) == (if i == 1 {
        Fixed(65536)
    } else {
        Fixed(0)
    }) by {
        lemma_whole_weights(x, i);
    }
    lemma_same_place(y, m);
    lemma_same_place(x, m);
    assert(0u64 / 1u64 == 0);
    assert(zero::<Fixed>() == Fixed(0));
    let v = pe[(1 + y * m + x) * embed + ch];
    lemma_exact_product(Fixed(65536), Fixed(65536), 65536);
    lemma_exact_product(Fixed(65536), v, v.0);
    let sum = |t: nat| blended(pe, embed, m, py, px, ch, t);
    assert(sum(0) == Fixed(0));
    assert(sum(1) == Fixed(0));
    assert(sum(2) == Fixed(0));
    assert(sum(3) == Fixed(0));
    assert(sum(4) == Fixed(0));
    assert(sum(5) == Fixed(0));
    assert(sum(6) == v);
    assert(sum(7) == v);
    assert(sum(8) == v);
    assert(sum(9) == v);
    assert(sum(10) == v);
    assert(sum(11) == v);
    assert(sum(12) == v);
    assert(sum(13) == v);
    assert(sum(14) == v);
    assert(sum(15) == v);
    assert(sum(16) == v);
}

/// Resampled to its own grid without an offset, an embedding stays as it is.
pub proof fn law_same_grid(pe: Seq<Fixed>, embed: int, m: int)
    requires
        0 < embed,
        1 <= m <= i32::MAX,
        pe.len() == (1 + m * m) * embed,
    ensures
        interpolated(pe, embed, m, m, m, zero()) == pe,
{
    let r = interpolated(pe, embed, m, m, m, zero());
    assert forall|p: int| 0 <= p < pe.len() implies #[trigger] r[p] == pe[p] by {
        lemma_join(p, embed);
        lemma_row_within(p, 1 + m * m, embed);
        if p >= embed {
            let row = p / embed;
            assert(row >= 1) by (nonlinear_arith)
                requires
                    p >= embed,
                    row == p / embed,
                    embed > 0,
            ;
            let patch = row - 1;
            lemma_row_within(patch, m, m);
            lemma_join(patch, m);
            lemma_same_place(patch / m, m);
            lemma_same_place(patch % m, m);
            lemma_one_neighbour(pe, embed, m, patch / m, patch % m, p % embed);
        }
    }
    assert(r =~= pe);
}

} // verus!
