//! The camera: a small network from the camera token to a pose, and the matrices
//! that a pose stands for.

use crate::config::Config;
use crate::error::{Error, Fault, ModelError};
use crate::exact::{lemma_plus, lemma_times_unit, lemma_wrap};
use crate::fast_attn::copy_slice;
use crate::gguf::{outcome, GgufFile, Header, TensorInfo};
use crate::scalar::{one, relu, zero, Circular, Fixed, Scalar};
use crate::tinyblas::linear_of;
use crate::weights::{linear_loaded, load_linear, Linear, LinearData};
use vstd::prelude::*;

verus! {

/// The camera network: two layers, and one each for translation, rotation and
/// field of view.
pub struct CamPose<T> {
    pub bb0: Linear<T>,
    pub bb2: Linear<T>,
    pub fc_t: Linear<T>,
    pub fc_q: Linear<T>,
    pub fc_fov: Linear<T>,
    pub hidden: usize,
}

/// What a [`CamPose`] holds.
pub struct CamPoseData<T> {
    pub bb0: LinearData<T>,
    pub bb2: LinearData<T>,
    pub fc_t: LinearData<T>,
    pub fc_q: LinearData<T>,
    pub fc_fov: LinearData<T>,
    pub hidden: int,
}

impl<T> View for CamPose<T> {
    type V = CamPoseData<T>;

    open spec fn view(&self) -> CamPoseData<T> {
        CamPoseData {
            bb0: self.bb0@,
            bb2: self.bb2@,
            fc_t: self.fc_t@,
            fc_q: self.fc_q@,
            fc_fov: self.fc_fov@,
            hidden: self.hidden as int,
        }
    }
}

/// The width of the camera token.
pub open spec fn token_width<T>(cfg: Config<T>) -> int {
    if cfg.cat_token {
        2 * cfg.embed_dim
    } else {
        cfg.embed_dim as int
    }
}

/// The camera network of a file with `hidden` units.
pub open spec fn layers_loaded<T: Scalar>(
    bytes: Seq<u8>,
    header: Header,
    hidden: usize,
    d: usize,
) -> Result<CamPoseData<T>, Fault> {
    match linear_loaded::<T>(bytes, header, "cam.bb0"@, hidden, d) {
        Err(e) => Err(e),
        Ok(bb0) => match linear_loaded::<T>(bytes, header, "cam.bb2"@, hidden, hidden) {
            Err(e) => Err(e),
            Ok(bb2) => match linear_loaded::<T>(bytes, header, "cam.fc_t"@, 3, hidden) {
                Err(e) => Err(e),
                Ok(fc_t) => match linear_loaded::<T>(bytes, header, "cam.fc_q"@, 4, hidden) {
                    Err(e) => Err(e),
                    Ok(fc_q) => match linear_loaded::<T>(bytes, header, "cam.fc_fov"@, 2, hidden) {
                        Err(e) => Err(e),
                        Ok(fc_fov) => Ok(
                            CamPoseData { bb0, bb2, fc_t, fc_q, fc_fov, hidden: hidden as int },
                        ),
                    },
                },
            },
        },
    }
}

/// The camera network of a file, its hidden width read off its first layer.
pub open spec fn cam_pose_loaded<T: Scalar>(bytes: Seq<u8>, header: Header, d: usize) -> Result<
    CamPoseData<T>,
    Fault,
> {
    let name = "cam.bb0.weight"@;
    if !header.tensors.contains_key(name) {
        Err(Fault::Missing("cam.bb0.weight for pose head"@))
    } else {
        let ne = header.tensors[name].ne;
        if ne.len() != 2 || ne[0] != d {
            Err(Fault::PoseShape { shape: ne, width: d as nat })
        } else if ne[1] > usize::MAX {
            Err(Fault::BadShape(name))
        } else {
            layers_loaded(bytes, header, ne[1] as usize, d)
        }
    }
}

/// The nine numbers of a pose: translation, quaternion, field of view.
pub open spec fn pose_of<T: Scalar>(p: CamPoseData<T>, token: Seq<T>) -> Seq<T> {
    let h = relu_all(linear_of(token, p.bb0.w, p.bb0.b, 1, p.bb0.ins, p.bb0.outs));
    let h2 = relu_all(linear_of(h, p.bb2.w, p.bb2.b, 1, p.bb2.ins, p.bb2.outs));
    linear_of(h2, p.fc_t.w, p.fc_t.b, 1, p.fc_t.ins, p.fc_t.outs) + linear_of(
        h2,
        p.fc_q.w,
        p.fc_q.b,
        1,
        p.fc_q.ins,
        p.fc_q.outs,
    ) + relu_all(linear_of(h2, p.fc_fov.w, p.fc_fov.b, 1, p.fc_fov.ins, p.fc_fov.outs))
}

/// Numbers cut off at zero.
pub open spec fn relu_all<T: Scalar>(v: Seq<T>) -> Seq<T> {
    Seq::new(v.len(), |i: int| relu(v[i]))
}

pub(crate) fn cut_off<T: Scalar>(v: Vec<T>) -> (r: Vec<T>)
    ensures
        r@ == relu_all(v@),
        r.len() == v.len(),
{
    let nil: T = T::ratio(0, 1);
    let mut r: Vec<T> = Vec::new();
    let mut i: usize = 0;
    while i < v.len()
        invariant
            i <= v.len(),
            nil == zero::<T>(),
            r.len() == i,
            forall|j: int| 0 <= j < i ==> #[trigger] r[j] == relu(v[j]),
        decreases v.len() - i,
    {
        r.push(v[i].larger(nil));
        i = i + 1;
    }
    assert(r@ =~= relu_all(v@));
    r
}

fn append<T: Scalar>(a: &mut Vec<T>, b: &[T])
    ensures
        final(a)@ == old(a)@ + b@,
{
    let ghost start = a@;
    let mut i: usize = 0;
    while i < b.len()
        invariant
            i <= b.len(),
            start == old(a)@,
            a@ == start + b@.take(i as int),
        decreases b.len() - i,
    {
        a.push(b[i]);
        assert(a@ =~= start + b@.take(i + 1));
        i = i + 1;
    }
    assert(b@.take(i as int) =~= b@);
}

impl<T: Scalar> CamPose<T> {
    /// The layers fit together, and the token has `d` numbers.
    pub open spec fn wf(&self, d: int) -> bool {
        &&& self.bb0.wf() && self.bb0.ins == d && self.bb0.outs == self.hidden
        &&& self.bb2.wf() && self.bb2.ins == self.hidden && self.bb2.outs == self.hidden
        &&& self.fc_t.wf() && self.fc_t.ins == self.hidden && self.fc_t.outs == 3
        &&& self.fc_q.wf() && self.fc_q.ins == self.hidden && self.fc_q.outs == 4
        &&& self.fc_fov.wf() && self.fc_fov.ins == self.hidden && self.fc_fov.outs == 2
    }

    /// Reads the network from a file.
    pub fn load(cfg: &Config<T>, f: &GgufFile) -> (r: Result<Self, Error>)
        requires
            f.wf(),
            2 * cfg.embed_dim <= usize::MAX,
        ensures
            outcome(r) == cam_pose_loaded::<T>(f.contents(), f@, token_width(*cfg) as usize),
            r matches Ok(p) ==> p.wf(token_width(*cfg)),
    {
        let d: usize = if cfg.cat_token {
            2 * cfg.embed_dim as usize
        } else {
            cfg.embed_dim as usize
        };
        let name: &str = "cam.bb0.weight";
        let info: &TensorInfo = match f.tensor_info(name) {
            None => {
                return Err(
                    Error::Model(ModelError::Missing("cam.bb0.weight for pose head".to_owned())),
                );
            },
            Some(i) => i,
        };
        if info.ne.len() != 2 || info.ne[0] != d as u64 {
            let shape: Vec<u64> = copy_slice(info.ne.as_slice());
            return Err(Error::Model(ModelError::PoseShape { shape, width: d }));
        }
        if info.ne[1] > usize::MAX as u64 {
            return Err(Error::Model(ModelError::BadShape(name.to_owned())));
        }
        let hidden: usize = info.ne[1] as usize;
        let bb0: Linear<T> = match load_linear(f, "cam.bb0", hidden, d) {
            Err(e) => {
                return Err(e);
            },
            Ok(l) => l,
        };
        let bb2: Linear<T> = match load_linear(f, "cam.bb2", hidden, hidden) {
            Err(e) => {
                return Err(e);
            },
            Ok(l) => l,
        };
        let fc_t: Linear<T> = match load_linear(f, "cam.fc_t", 3, hidden) {
            Err(e) => {
                return Err(e);
            },
            Ok(l) => l,
        };
        let fc_q: Linear<T> = match load_linear(f, "cam.fc_q", 4, hidden) {
            Err(e) => {
                return Err(e);
            },
            Ok(l) => l,
        };
        let fc_fov: Linear<T> = match load_linear(f, "cam.fc_fov", 2, hidden) {
            Err(e) => {
                return Err(e);
            },
            Ok(l) => l,
        };
        Ok(CamPose { bb0, bb2, fc_t, fc_q, fc_fov, hidden })
    }

    /// Runs the network: translation, quaternion `x y z w`, and field of view.
    pub fn forward_enc(&self, cam_token: &[T]) -> (r: Vec<T>)
        requires
            self.wf(cam_token.len() as int),
        ensures
            r@ == pose_of(self@, cam_token@),
            r.len() == 9,
    {
        let h: Vec<T> = cut_off(self.bb0.forward(cam_token));
        let h2: Vec<T> = cut_off(self.bb2.forward(h.as_slice()));
        let mut r: Vec<T> = self.fc_t.forward(h2.as_slice());
        let q: Vec<T> = self.fc_q.forward(h2.as_slice());
        let fov: Vec<T> = cut_off(self.fc_fov.forward(h2.as_slice()));
        append(&mut r, q.as_slice());
        append(&mut r, fov.as_slice());
        r
    }

    /// The width of the hidden layers.
    pub fn hidden(&self) -> (r: usize)
        ensures
            r == self.hidden,
    {
        self.hidden
    }
}

/// The rotation of a quaternion `x y z w`.
pub open spec fn pose_rotation<T: Scalar>(p: Seq<T>) -> Seq<T> {
    let (qi, qj, qk, qr) = (p[3], p[4], p[5], p[6]);
    let s = T::ratio_spec(2, 1).over_spec(
        qi.times_spec(qi).plus_spec(qj.times_spec(qj)).plus_spec(qk.times_spec(qk)).plus_spec(
            qr.times_spec(qr),
        ),
    );
    let u = one::<T>();
    seq![
        u.minus_spec(s.times_spec(qj.times_spec(qj).plus_spec(qk.times_spec(qk)))),
        s.times_spec(qi.times_spec(qj).minus_spec(qk.times_spec(qr))),
        s.times_spec(qi.times_spec(qk).plus_spec(qj.times_spec(qr))),
        s.times_spec(qi.times_spec(qj).plus_spec(qk.times_spec(qr))),
        u.minus_spec(s.times_spec(qi.times_spec(qi).plus_spec(qk.times_spec(qk)))),
        s.times_spec(qj.times_spec(qk).minus_spec(qi.times_spec(qr))),
        s.times_spec(qi.times_spec(qk).minus_spec(qj.times_spec(qr))),
        s.times_spec(qj.times_spec(qk).plus_spec(qi.times_spec(qr))),
        u.minus_spec(s.times_spec(qi.times_spec(qi).plus_spec(qj.times_spec(qj)))),
    ]
}

/// World to camera: the transposed rotation, and the translation turned back.
pub open spec fn pose_extrinsics<T: Scalar>(p: Seq<T>) -> Seq<T> {
    let r = pose_rotation(p);
    Seq::new(
        12,
        |i: int|
            {
                let row = i / 4;
                if i % 4 == 3 {
                    r[row].times_spec(p[0]).plus_spec(r[3 + row].times_spec(p[1])).plus_spec(
                        r[6 + row].times_spec(p[2]),
                    ).negated_spec()
                } else {
                    r[3 * (i % 4) + row]
                }
            },
    )
}

/// The focal length of half an image of `size` pixels seen under an angle.
pub open spec fn focal_of<T: Circular>(size: int, fov: T) -> T {
    let two = T::ratio_spec(2, 1);
    T::from_count_spec(size as usize).over_spec(two).over_spec(
        fov.over_spec(two).tangent_spec().larger_spec(T::ratio_spec(1, 1_000_000)),
    )
}

/// The intrinsics of an image of `w` by `h` pixels, with the centre in its middle.
pub open spec fn pose_intrinsics<T: Circular>(p: Seq<T>, w: int, h: int) -> Seq<T> {
    let two = T::ratio_spec(2, 1);
    let o = zero::<T>();
    seq![
        focal_of(w, p[8]),
        o,
        T::from_count_spec(w as usize).over_spec(two),
        o,
        focal_of(h, p[7]),
        T::from_count_spec(h as usize).over_spec(two),
        o,
        o,
        one(),
    ]
}

fn focal<T: Circular>(size: usize, fov: T) -> (r: T)
    ensures
        r == focal_of(size as int, fov),
{
    let two: T = T::ratio(2, 1);
    T::from_count(size).over(two).over(fov.over(two).tangent().larger(T::ratio(1, 1_000_000)))
}

/// The extrinsics and intrinsics of a pose for an image of `w` by `h` pixels.
///
/// Refused where there are fewer than nine numbers.
pub fn decode_pose<T: Circular>(pose_enc: &[T], w: usize, h: usize) -> (r: Result<
    ([T; 12], [T; 9]),
    Error,
>)
    ensures
        match r {
            Ok(m) => {
                &&& pose_enc.len() >= 9
                &&& m.0@ == pose_extrinsics(pose_enc@)
                &&& m.1@ == pose_intrinsics(pose_enc@, w as int, h as int)
            },
            Err(e) => pose_enc.len() < 9 && e@ == (Fault::PoseLength {
                got: pose_enc@.len(),
            }),
        },
{
    if pose_enc.len() < 9 {
        return Err(Error::Model(ModelError::PoseLength { got: pose_enc.len() }));
    }
    let (tx, ty, tz): (T, T, T) = (pose_enc[0], pose_enc[1], pose_enc[2]);
    let (qi, qj, qk, qr): (T, T, T, T) = (pose_enc[3], pose_enc[4], pose_enc[5], pose_enc[6]);
    let s: T = T::ratio(2, 1).over(
        qi.times(qi).plus(qj.times(qj)).plus(qk.times(qk)).plus(qr.times(qr)),
    );
    let u: T = T::ratio(1, 1);
    let r: [T; 9] = [
        u.minus(s.times(qj.times(qj).plus(qk.times(qk)))),
        s.times(qi.times(qj).minus(qk.times(qr))),
        s.times(qi.times(qk).plus(qj.times(qr))),
        s.times(qi.times(qj).plus(qk.times(qr))),
        u.minus(s.times(qi.times(qi).plus(qk.times(qk)))),
        s.times(qj.times(qk).minus(qi.times(qr))),
        s.times(qi.times(qk).minus(qj.times(qr))),
        s.times(qj.times(qk).plus(qi.times(qr))),
        u.minus(s.times(qi.times(qi).plus(qj.times(qj)))),
    ];
    assert(r@ =~= pose_rotation(pose_enc@));
    let ext: [T; 12] = [
        r[0],
        r[3],
        r[6],
        r[0].times(tx).plus(r[3].times(ty)).plus(r[6].times(tz)).negated(),
        r[1],
        r[4],
        r[7],
        r[1].times(tx).plus(r[4].times(ty)).plus(r[7].times(tz)).negated(),
        r[2],
        r[5],
        r[8],
        r[2].times(tx).plus(r[5].times(ty)).plus(r[8].times(tz)).negated(),
    ];
    assert(ext@ =~= pose_extrinsics(pose_enc@));
    let two: T = T::ratio(2, 1);
    let o: T = T::ratio(0, 1);
    let intr: [T; 9] = [
        focal(w, pose_enc[8]),
        o,
        T::from_count(w).over(two),
        o,
        focal(h, pose_enc[7]),
        T::from_count(h).over(two),
        o,
        o,
        u,
    ];
    assert(intr@ =~= pose_intrinsics(pose_enc@, w as int, h as int));
    Ok((ext, intr))
}

/// A camera that is not turned: its rotation is the identity, and it sees the
/// world moved by its own place, the other way round.
pub proof fn law_unturned_camera(p: Seq<Fixed>)
    requires
        p.len() >= 7,
        p[3] == Fixed(0),
        p[4] == Fixed(0),
        p[5] == Fixed(0),
        p[6] == Fixed(65536),
    ensures
        forall|i: int|
            0 <= i < 12 ==> #[trigger] pose_extrinsics(p)[i] == (if i % 4 == 3 {
                p[i / 4].negated_spec()
            } else if i % 4 == i / 4 {
                Fixed(65536)
            } else {
                Fixed(0)
            }),
{
    let (o, u) = (Fixed(0), Fixed(65536));
    let two = Fixed::ratio_spec(2, 1);
    assert((2u64 * 65536) as u64 / 1u64 == 131072);
    assert(two == Fixed(131072));
    assert((1u64 * 65536) as u64 / 1u64 == 65536);
    assert(one::<Fixed>() == u);
    lemma_times_unit(o);
    lemma_times_unit(u);
    lemma_times_unit(two);
    lemma_plus(o, o);
    lemma_plus(o, u);
    lemma_plus(u, o);
    let s = two.over_spec(u);
    lemma_wrap(131072);
    assert((131072int * 65536) / 65536 == 131072);
    assert(s == two);
    let r = pose_rotation(p);
    assert forall|i: int| 0 <= i < 9 implies #[trigger] r[i] == (if i % 4 == 0 {
        u
    } else {
        o
    }) by {}
    lemma_times_unit(p[0]);
    lemma_times_unit(p[1]);
    lemma_times_unit(p[2]);
    lemma_plus(p[0], o);
    lemma_plus(p[1], o);
    lemma_plus(o, p[1]);
    lemma_plus(o, p[2]);
}

} // verus!
