//! Reading the weights of layers by name and shape.

use crate::error::{Error, Fault, ModelError};
use crate::gguf::{outcome, product, tensor_result, GgufFile, Header};
use crate::scalar::Scalar;
use crate::tinyblas::{linear, linear_of, pack_b_nt, packed};
use vstd::prelude::*;
use vstd::string::*;

verus! {

/// The number of elements of a shape.
pub open spec fn shape_size(shape: Seq<usize>) -> nat
    decreases shape.len(),
{
    if shape.len() == 0 {
        1
    } else {
        shape[0] as nat * shape_size(shape.skip(1))
    }
}

/// Stored dimensions, the fastest first, are those of a shape, the slowest first.
pub open spec fn has_shape(ne: Seq<u64>, shape: Seq<usize>) -> bool {
    &&& ne.len() == shape.len()
    &&& forall|i: int| 0 <= i < shape.len() ==> #[trigger] shape[i] == ne[ne.len() - 1 - i]
}

/// What a tensor by name and shape is.
#[verifier::opaque]
pub open spec fn loaded<T: Scalar>(
    bytes: Seq<u8>,
    header: Header,
    name: Seq<char>,
    shape: Seq<usize>,
) -> Result<Seq<T>, Fault> {
    if !header.tensors.contains_key(name) {
        Err(Fault::TensorNotFound(name))
    } else if !has_shape(header.tensors[name].ne, shape) {
        Err(Fault::BadShape(name))
    } else {
        tensor_result(bytes, header, name)
    }
}

proof fn lemma_shape_size(ne: Seq<u64>, shape: Seq<usize>, k: int)
    requires
        has_shape(ne, shape),
        0 <= k <= shape.len(),
    ensures
        product(ne, (ne.len() - k) as nat) == shape_size(shape.skip(k)),
    decreases shape.len() - k,
{
    if k < shape.len() {
        lemma_shape_size(ne, shape, k + 1);
        let rest = shape.skip(k);
        assert(rest.skip(1) =~= shape.skip(k + 1));
        assert(rest[0] == ne[ne.len() - 1 - k]);
        let a = product(ne, (ne.len() - k - 1) as nat);
        let b = rest[0] as nat;
        assert(a * b == b * a) by (nonlinear_arith);
    }
}

/// The sizes of shapes with one, two and four dimensions.
pub proof fn lemma_sizes(shape: Seq<usize>)
    ensures
        shape.len() == 1 ==> shape_size(shape) == shape[0],
        shape.len() == 2 ==> shape_size(shape) == shape[0] * shape[1],
        shape.len() == 4 ==> shape_size(shape) == ((shape[0] * shape[1]) * shape[2]) * shape[3],
{
    reveal_with_fuel(shape_size, 5);
    if shape.len() == 4 {
        let (a, b, c, d) = (shape[0] as int, shape[1] as int, shape[2] as int, shape[3] as int);
        assert(a * (b * (c * (d * 1))) == ((a * b) * c) * d) by (nonlinear_arith);
        assert(shape.skip(1)[0] == shape[1]);
        assert(shape.skip(1).skip(1)[0] == shape[2]);
        assert(shape.skip(1).skip(1).skip(1)[0] == shape[3]);
    } else if shape.len() == 2 {
        let (a, b) = (shape[0] as int, shape[1] as int);
        assert(a * (b * 1) == a * b) by (nonlinear_arith);
        assert(shape.skip(1)[0] == shape[1]);
    } else if shape.len() == 1 {
        let a = shape[0] as int;
        assert(a * 1 == a) by (nonlinear_arith);
    }
}

fn shape_matches(ne: &Vec<u64>, shape: &[usize]) -> (r: bool)
    ensures
        r == has_shape(ne@, shape@),
{
    if ne.len() != shape.len() {
        return false;
    }
    let mut i: usize = 0;
    while i < shape.len()
        invariant
            i <= shape.len(),
            ne.len() == shape.len(),
            forall|j: int| 0 <= j < i ==> #[trigger] shape[j] == ne[ne.len() - 1 - j],
        decreases shape.len() - i,
    {
        if shape[i] as u64 != ne[ne.len() - 1 - i] {
            assert(shape@[i as int] != ne@[ne@.len() - 1 - i]);
            return false;
        }
        i = i + 1;
    }
    true
}

/// Reads a tensor by name and shape, the slowest dimension first.
pub fn load_tensor<T: Scalar>(f: &GgufFile, name: &str, shape: &[usize]) -> (r: Result<
    Vec<T>,
    Error,
>)
    requires
        f.wf(),
    ensures
        outcome(r) == loaded::<T>(f.contents(), f@, name@, shape@),
        r matches Ok(v) ==> v.len() == shape_size(shape@),
{
    reveal(loaded);
    match f.tensor_info(name) {
        None => Err(Error::Model(ModelError::TensorNotFound(name.to_owned()))),
        Some(info) => {
            if !shape_matches(&info.ne, shape) {
                return Err(Error::Model(ModelError::BadShape(name.to_owned())));
            }
            proof {
                lemma_shape_size(info.ne@, shape@, 0);
                assert(shape@.skip(0) =~= shape@);
            }
            f.tensor_f32(name)
        },
    }
}

/// Two texts in a row.
pub fn joined(a: &str, b: &str) -> (s: String)
    ensures
        s@ == a@ + b@,
{
    let mut s: String = a.to_owned();
    s.append(b);
    s
}

/// A layer's weight and bias.
pub struct Pair<T> {
    pub weight: Vec<T>,
    pub bias: Vec<T>,
}

/// What a [`Pair`] holds.
pub struct PairData<T> {
    pub weight: Seq<T>,
    pub bias: Seq<T>,
}

impl<T> View for Pair<T> {
    type V = PairData<T>;

    open spec fn view(&self) -> PairData<T> {
        PairData { weight: self.weight@, bias: self.bias@ }
    }
}

/// The weight and bias of the layer `name`.
#[verifier::opaque]
pub open spec fn pair_loaded<T: Scalar>(
    bytes: Seq<u8>,
    header: Header,
    name: Seq<char>,
    shape: Seq<usize>,
    outs: usize,
) -> Result<PairData<T>, Fault> {
    match loaded::<T>(bytes, header, name + ".weight"@, shape) {
        Err(e) => Err(e),
        Ok(weight) => match loaded::<T>(bytes, header, name + ".bias"@, seq![outs]) {
            Err(e) => Err(e),
            Ok(bias) => Ok(PairData { weight, bias }),
        },
    }
}

/// Reads the weight and bias of the layer `name`.
pub fn load_pair<T: Scalar>(f: &GgufFile, name: &str, shape: &[usize], outs: usize) -> (r: Result<
    Pair<T>,
    Error,
>)
    requires
        f.wf(),
    ensures
        outcome(r) == pair_loaded::<T>(f.contents(), f@, name@, shape@, outs),
        r matches Ok(p) ==> p.weight.len() == shape_size(shape@) && p.bias.len() == outs,
{
    reveal(pair_loaded);
    let weight: Vec<T> = match load_tensor(f, joined(name, ".weight").as_str(), shape) {
        Err(e) => {
            return Err(e);
        },
        Ok(v) => v,
    };
    let one: [usize; 1] = [outs];
    assert(one@ =~= seq![outs]);
    proof {
        lemma_sizes(one@);
    }
    match load_tensor(f, joined(name, ".bias").as_str(), one.as_slice()) {
        Err(e) => Err(e),
        Ok(bias) => Ok(Pair { weight, bias }),
    }
}

/// A linear layer, packed for [`crate::tinyblas`].
pub struct Linear<T> {
    /// `[ins, outs]`.
    pub w: Vec<T>,
    pub b: Vec<T>,
    pub ins: usize,
    pub outs: usize,
}

/// What a [`Linear`] holds.
pub struct LinearData<T> {
    pub w: Seq<T>,
    pub b: Seq<T>,
    pub ins: int,
    pub outs: int,
}

impl<T> View for Linear<T> {
    type V = LinearData<T>;

    open spec fn view(&self) -> LinearData<T> {
        LinearData { w: self.w@, b: self.b@, ins: self.ins as int, outs: self.outs as int }
    }
}

/// The linear layer `name`, with outputs in rows where it is stored.
#[verifier::opaque]
pub open spec fn linear_loaded<T: Scalar>(
    bytes: Seq<u8>,
    header: Header,
    name: Seq<char>,
    outs: usize,
    ins: usize,
) -> Result<LinearData<T>, Fault> {
    match pair_loaded::<T>(bytes, header, name, seq![outs, ins], outs) {
        Err(e) => Err(e),
        Ok(p) => Ok(
            LinearData {
                w: packed(p.weight, ins as int, outs as int),
                b: p.bias,
                ins: ins as int,
                outs: outs as int,
            },
        ),
    }
}

/// Reads a linear layer.
pub fn load_linear<T: Scalar>(f: &GgufFile, name: &str, outs: usize, ins: usize) -> (r: Result<
    Linear<T>,
    Error,
>)
    requires
        f.wf(),
    ensures
        outcome(r) == linear_loaded::<T>(f.contents(), f@, name@, outs, ins),
        r matches Ok(l) ==> l.wf() && l.ins == ins && l.outs == outs,
{
    reveal(linear_loaded);
    let shape: [usize; 2] = [outs, ins];
    assert(shape@ =~= seq![outs, ins]);
    proof {
        lemma_sizes(shape@);
    }
    match load_pair(f, name, shape.as_slice(), outs) {
        Err(e) => Err(e),
        Ok(p) => Ok(
            Linear { w: pack_b_nt(ins, outs, p.weight.as_slice()), b: p.bias, ins, outs },
        ),
    }
}

impl<T: Scalar> Linear<T> {
    pub open spec fn wf(&self) -> bool {
        &&& self.w.len() == self.ins * self.outs
        &&& self.b.len() == self.outs
    }

    /// One row through the layer.
    pub fn forward(&self, x: &[T]) -> (r: Vec<T>)
        requires
            self.wf(),
            x.len() == self.ins,
        ensures
            r@ == linear_of(x@, self.w@, self.b@, 1, self.ins as int, self.outs as int),
            r.len() == self.outs,
    {
        linear(x, self.w.as_slice(), self.b.as_slice(), 1, self.ins, self.outs)
    }
}

} // verus!
