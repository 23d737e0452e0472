//! A reader for the GGUF model container: the metadata table, the tensor table
//! and the tensor data.
//!
//! The grammar is given by the `*_step` spec functions: each takes the bytes and
//! a position and says what is read there and where reading goes on, or which
//! fault ends it. Floating-point values are carried as their bit patterns.

use crate::error::{Error, Fault, GgufError, ModelError};
use crate::kquants::{
    block_bytes, block_bytes_of, block_of, dequantize_q4_k, dequantize_q5_k, dequantize_q6_k,
    dequantize_q8_k, q4_k_value, q5_k_value, q6_k_value, q8_k_value, signed, u16_at, u32_at,
};
use crate::scalar::{zero, Scalar};
use crate::table::Table;
use vstd::prelude::*;
use vstd::utf8::{decode_utf8, valid_utf8};

verus! {

/// "GGUF" in little-endian order.
pub const GGUF_MAGIC: u32 = 0x4655_4747;

/// The types of metadata values.
#[derive(Clone, Copy, Debug, PartialEq, Eq, Structural)]
pub enum GgufValueType {
    U8,
    I8,
    U16,
    I16,
    U32,
    I32,
    F32,
    Bool,
    String,
    Array,
    U64,
    I64,
    F64,
}

/// The value type with the given number in a file.
pub open spec fn value_type_of(v: u32) -> Option<GgufValueType> {
    if v == 0 {
        Some(GgufValueType::U8)
    } else if v == 1 {
        Some(GgufValueType::I8)
    } else if v == 2 {
        Some(GgufValueType::U16)
    } else if v == 3 {
        Some(GgufValueType::I16)
    } else if v == 4 {
        Some(GgufValueType::U32)
    } else if v == 5 {
        Some(GgufValueType::I32)
    } else if v == 6 {
        Some(GgufValueType::F32)
    } else if v == 7 {
        Some(GgufValueType::Bool)
    } else if v == 8 {
        Some(GgufValueType::String)
    } else if v == 9 {
        Some(GgufValueType::Array)
    } else if v == 10 {
        Some(GgufValueType::U64)
    } else if v == 11 {
        Some(GgufValueType::I64)
    } else if v == 12 {
        Some(GgufValueType::F64)
    } else {
        None
    }
}

impl GgufValueType {
    /// The type with number `v`, if there is one.
    pub fn from_u32(v: u32) -> (r: Option<Self>)
        ensures
            r == value_type_of(v),
    {
        match v {
            0 => Some(GgufValueType::U8),
            1 => Some(GgufValueType::I8),
            2 => Some(GgufValueType::U16),
            3 => Some(GgufValueType::I16),
            4 => Some(GgufValueType::U32),
            5 => Some(GgufValueType::I32),
            6 => Some(GgufValueType::F32),
            7 => Some(GgufValueType::Bool),
            8 => Some(GgufValueType::String),
            9 => Some(GgufValueType::Array),
            10 => Some(GgufValueType::U64),
            11 => Some(GgufValueType::I64),
            12 => Some(GgufValueType::F64),
            _ => None,
        }
    }
}

/// A typed metadata array. Floats are bit patterns.
#[derive(Debug)]
pub enum MetaArray {
    U8(Vec<u8>),
    I8(Vec<i8>),
    U32(Vec<u32>),
    I32(Vec<i32>),
    U64(Vec<u64>),
    I64(Vec<i64>),
    F32(Vec<u32>),
    F64(Vec<u64>),
    Bool(Vec<bool>),
    String(Vec<String>),
}

/// A metadata value. Floats are bit patterns.
#[derive(Debug)]
pub enum MetaValue {
    U8(u8),
    I8(i8),
    U16(u16),
    I16(i16),
    U32(u32),
    I32(i32),
    U64(u64),
    I64(i64),
    F32(u32),
    F64(u64),
    Bool(bool),
    String(String),
    Array(MetaArray),
}

/// The contents of a [`MetaArray`].
pub enum ArrayContents {
    U8(Seq<u8>),
    I8(Seq<i8>),
    U32(Seq<u32>),
    I32(Seq<i32>),
    U64(Seq<u64>),
    I64(Seq<i64>),
    F32(Seq<u32>),
    F64(Seq<u64>),
    Bool(Seq<bool>),
    String(Seq<Seq<char>>),
}

/// The contents of a [`MetaValue`].
pub enum Contents {
    U8(u8),
    I8(i8),
    U16(u16),
    I16(i16),
    U32(u32),
    I32(i32),
    U64(u64),
    I64(i64),
    F32(u32),
    F64(u64),
    Bool(bool),
    String(Seq<char>),
    Array(ArrayContents),
}

/// The views of a sequence of values.
pub open spec fn views<T: View>(s: Seq<T>) -> Seq<T::V> {
    s.map_values(|x: T| x@)
}

impl View for MetaArray {
    type V = ArrayContents;

    open spec fn view(&self) -> ArrayContents {
        match *self {
            MetaArray::U8(v) => ArrayContents::U8(v@),
            MetaArray::I8(v) => ArrayContents::I8(v@),
            MetaArray::U32(v) => ArrayContents::U32(v@),
            MetaArray::I32(v) => ArrayContents::I32(v@),
            MetaArray::U64(v) => ArrayContents::U64(v@),
            MetaArray::I64(v) => ArrayContents::I64(v@),
            MetaArray::F32(v) => ArrayContents::F32(v@),
            MetaArray::F64(v) => ArrayContents::F64(v@),
            MetaArray::Bool(v) => ArrayContents::Bool(v@),
            MetaArray::String(v) => ArrayContents::String(views(v@)),
        }
    }
}

impl View for MetaValue {
    type V = Contents;

    open spec fn view(&self) -> Contents {
        match *self {
            MetaValue::U8(v) => Contents::U8(v),
            MetaValue::I8(v) => Contents::I8(v),
            MetaValue::U16(v) => Contents::U16(v),
            MetaValue::I16(v) => Contents::I16(v),
            MetaValue::U32(v) => Contents::U32(v),
            MetaValue::I32(v) => Contents::I32(v),
            MetaValue::U64(v) => Contents::U64(v),
            MetaValue::I64(v) => Contents::I64(v),
            MetaValue::F32(v) => Contents::F32(v),
            MetaValue::F64(v) => Contents::F64(v),
            MetaValue::Bool(v) => Contents::Bool(v),
            MetaValue::String(v) => Contents::String(v@),
            MetaValue::Array(v) => Contents::Array(v@),
        }
    }
}

/// GGUF tensor element types. Tensors of any other type are refused.
#[allow(non_camel_case_types)]
#[derive(Clone, Copy, Debug, PartialEq, Eq, Structural)]
pub enum GgufDType {
    F32,
    F16,
    Q8_0,
    Q4_K,
    Q6_K,
    Q5_K,
    Q8_K,
}

/// The element type with the given number in a file.
pub open spec fn dtype_of(v: u32) -> Option<GgufDType> {
    if v == 0 {
        Some(GgufDType::F32)
    } else if v == 1 {
        Some(GgufDType::F16)
    } else if v == 8 {
        Some(GgufDType::Q8_0)
    } else if v == 12 {
        Some(GgufDType::Q4_K)
    } else if v == 13 {
        Some(GgufDType::Q5_K)
    } else if v == 14 {
        Some(GgufDType::Q6_K)
    } else if v == 15 {
        Some(GgufDType::Q8_K)
    } else {
        None
    }
}

/// Number of elements each block of a type expands to.
pub open spec fn block_size_of(t: GgufDType) -> usize {
    match t {
        GgufDType::F32 | GgufDType::F16 => 1,
        GgufDType::Q8_0 => 32,
        GgufDType::Q4_K | GgufDType::Q6_K | GgufDType::Q5_K | GgufDType::Q8_K => 256,
    }
}

/// Number of bytes each block of a type takes.
pub open spec fn stored_bytes_of(t: GgufDType) -> usize {
    match t {
        GgufDType::F32 => 4,
        GgufDType::F16 => 2,
        GgufDType::Q8_0 => 34,
        _ => block_bytes_of(t),
    }
}

impl GgufDType {
    /// The element type with number `v`, if it is supported.
    pub fn from_u32(v: u32) -> (r: Option<Self>)
        ensures
            r == dtype_of(v),
    {
        match v {
            0 => Some(GgufDType::F32),
            1 => Some(GgufDType::F16),
            8 => Some(GgufDType::Q8_0),
            12 => Some(GgufDType::Q4_K),
            13 => Some(GgufDType::Q5_K),
            14 => Some(GgufDType::Q6_K),
            15 => Some(GgufDType::Q8_K),
            _ => None,
        }
    }

    /// Number of elements each block expands to.
    pub fn block_size(&self) -> (r: usize)
        ensures
            r == block_size_of(*self),
    {
        match self {
            GgufDType::F32 | GgufDType::F16 => 1,
            GgufDType::Q8_0 => 32,
            GgufDType::Q4_K | GgufDType::Q6_K | GgufDType::Q5_K | GgufDType::Q8_K => 256,
        }
    }

    /// Number of bytes each block takes.
    pub fn stored_bytes(&self) -> (r: usize)
        ensures
            r == stored_bytes_of(*self),
    {
        match self {
            GgufDType::F32 => 4,
            GgufDType::F16 => 2,
            GgufDType::Q8_0 => 34,
            _ => block_bytes(*self),
        }
    }
}

/// One tensor: its name, its dimensions with the fastest-varying one first, its
/// element type, and its byte offset into the data section.
#[derive(Debug)]
pub struct TensorInfo {
    pub name: String,
    pub ne: Vec<u64>,
    pub dtype: GgufDType,
    pub offset: u64,
}

/// The contents of a [`TensorInfo`].
pub struct TensorEntry {
    pub name: Seq<char>,
    pub ne: Seq<u64>,
    pub dtype: GgufDType,
    pub offset: u64,
}

impl View for TensorInfo {
    type V = TensorEntry;

    open spec fn view(&self) -> TensorEntry {
        TensorEntry {
            name: self.name@,
            ne: self.ne@,
            dtype: self.dtype,
            offset: self.offset,
        }
    }
}

/// The product of the first `n` dimensions.
pub open spec fn product(ne: Seq<u64>, n: nat) -> nat
    decreases n,
{
    if n == 0 {
        1
    } else {
        product(ne, (n - 1) as nat) * ne[n - 1] as nat
    }
}

/// The number of elements of a tensor with these dimensions.
pub open spec fn elements(ne: Seq<u64>) -> nat {
    product(ne, ne.len())
}

/// The number of elements fits in a `usize`, and no product of leading
/// dimensions leaves the 64-bit range.
pub open spec fn countable(ne: Seq<u64>) -> bool {
    &&& elements(ne) <= usize::MAX
    &&& forall|k: nat| k <= ne.len() ==> #[trigger] product(ne, k) <= u64::MAX
}

impl TensorInfo {
    /// The number of elements, where it fits in a `usize` and no partial
    /// product leaves the 64-bit range.
    fn checked_elems(&self) -> (r: Option<usize>)
        ensures
            match r {
                Some(n) => countable(self.ne@) && n == elements(self.ne@),
                None => !countable(self.ne@),
            },
    {
        let mut acc: u64 = 1;
        let mut i: usize = 0;
        while i < self.ne.len()
            invariant
                i <= self.ne.len(),
                acc == product(self.ne@, i as nat),
                forall|k: nat| k <= i ==> #[trigger] product(self.ne@, k) <= u64::MAX,
            decreases self.ne.len() - i,
        {
            match acc.checked_mul(self.ne[i]) {
                Some(next) => {
                    acc = next;
                },
                None => {
                    assert(product(self.ne@, (i + 1) as nat) > u64::MAX);
                    return None;
                },
            }
            i = i + 1;
        }
        if acc <= usize::MAX as u64 {
            Some(acc as usize)
        } else {
            None
        }
    }

    /// Total number of logical elements.
    pub fn n_elems(&self) -> (r: usize)
        requires
            countable(self.ne@),
        ensures
            r == elements(self.ne@),
    {
        match self.checked_elems() {
            Some(n) => n,
            None => 0,
        }
    }

    /// The dimensions with the slowest-varying one first.
    pub fn candle_shape(&self) -> (r: Vec<usize>)
        requires
            forall|i: int| 0 <= i < self.ne.len() ==> #[trigger] self.ne[i] <= usize::MAX,
        ensures
            r.len() == self.ne.len(),
            forall|i: int|
                0 <= i < r.len() ==> #[trigger] r[i] == self.ne[self.ne.len() - 1 - i],
    {
        let mut r: Vec<usize> = Vec::new();
        let mut i: usize = self.ne.len();
        while i > 0
            invariant
                i <= self.ne.len(),
                r.len() == self.ne.len() - i,
                forall|k: int| 0 <= k < self.ne.len() ==> #[trigger] self.ne[k] <= usize::MAX,
                forall|k: int|
                    0 <= k < r.len() ==> #[trigger] r[k] == self.ne[self.ne.len() - 1 - k],
            decreases i,
        {
            i = i - 1;
            r.push(self.ne[i] as usize);
        }
        r
    }
}

// ---- the grammar --------------------------------------------------------

/// What reading at a position gives, and the position afterwards.
pub struct Step<T> {
    pub value: Result<T, Fault>,
    pub pos: int,
}

pub open spec fn good<T>(value: T, pos: int) -> Step<T> {
    Step { value: Ok(value), pos }
}

pub open spec fn bad<T>(fault: Fault, pos: int) -> Step<T> {
    Step { value: Err(fault), pos }
}

/// The fault of wanting `n` bytes where fewer are left.
pub open spec fn end_of(bytes: Seq<u8>, n: nat) -> Fault {
    Fault::UnexpectedEnd { len: bytes.len(), needed: n }
}

pub open spec fn u8_step(bytes: Seq<u8>, pos: int) -> Step<u8> {
    if pos + 1 <= bytes.len() {
        good(bytes[pos], pos + 1)
    } else {
        bad(end_of(bytes, 1), pos)
    }
}

pub open spec fn i8_step(bytes: Seq<u8>, pos: int) -> Step<i8> {
    match u8_step(bytes, pos).value {
        Ok(v) => good(v as i8, pos + 1),
        Err(e) => bad(e, pos),
    }
}

pub open spec fn u16_step(bytes: Seq<u8>, pos: int) -> Step<u16> {
    if pos + 2 <= bytes.len() {
        good(u16_at(bytes, pos), pos + 2)
    } else {
        bad(end_of(bytes, 2), pos)
    }
}

pub open spec fn i16_step(bytes: Seq<u8>, pos: int) -> Step<i16> {
    match u16_step(bytes, pos).value {
        Ok(v) => good(v as i16, pos + 2),
        Err(e) => bad(e, pos),
    }
}

pub open spec fn u32_step(bytes: Seq<u8>, pos: int) -> Step<u32> {
    if pos + 4 <= bytes.len() {
        good(u32_at(bytes, pos), pos + 4)
    } else {
        bad(end_of(bytes, 4), pos)
    }
}

pub open spec fn i32_step(bytes: Seq<u8>, pos: int) -> Step<i32> {
    match u32_step(bytes, pos).value {
        Ok(v) => good(v as i32, pos + 4),
        Err(e) => bad(e, pos),
    }
}

/// The little-endian 64-bit integer at `at`.
pub open spec fn u64_at(bytes: Seq<u8>, at: int) -> u64 {
    (u32_at(bytes, at) + 0x1_0000_0000 * u32_at(bytes, at + 4)) as u64
}

pub open spec fn u64_step(bytes: Seq<u8>, pos: int) -> Step<u64> {
    if pos + 8 <= bytes.len() {
        good(u64_at(bytes, pos), pos + 8)
    } else {
        bad(end_of(bytes, 8), pos)
    }
}

pub open spec fn i64_step(bytes: Seq<u8>, pos: int) -> Step<i64> {
    match u64_step(bytes, pos).value {
        Ok(v) => good(v as i64, pos + 8),
        Err(e) => bad(e, pos),
    }
}

pub open spec fn bool_step(bytes: Seq<u8>, pos: int) -> Step<bool> {
    match u8_step(bytes, pos).value {
        Ok(v) => good(v != 0, pos + 1),
        Err(e) => bad(e, pos),
    }
}

/// A length in 64 bits and that many bytes of UTF-8.
pub open spec fn string_step(bytes: Seq<u8>, pos: int) -> Step<Seq<char>> {
    match u64_step(bytes, pos).value {
        Err(e) => bad(e, pos),
        Ok(n) => {
            let at = pos + 8;
            if at + n > bytes.len() {
                bad(end_of(bytes, n as nat), at)
            } else if !valid_utf8(bytes.subrange(at, at + n)) {
                bad(Fault::InvalidUtf8, at)
            } else {
                good(decode_utf8(bytes.subrange(at, at + n)), at + n)
            }
        },
    }
}

/// `n` more items after those in `so_far`.
pub open spec fn items_step<T: Item>(so_far: Seq<T::V>, bytes: Seq<u8>, pos: int, n: nat) -> Step<
    Seq<T::V>,
>
    decreases n,
{
    if n == 0 {
        good(so_far, pos)
    } else {
        let first = T::step(bytes, pos);
        match first.value {
            Err(e) => bad(e, first.pos),
            Ok(v) => items_step::<T>(so_far.push(v), bytes, first.pos, (n - 1) as nat),
        }
    }
}

/// An array step with its items wrapped up.
pub open spec fn wrapped<T>(s: Step<Seq<T>>, wrap: spec_fn(Seq<T>) -> ArrayContents) -> Step<
    Contents,
> {
    match s.value {
        Err(e) => bad(e, s.pos),
        Ok(v) => good(Contents::Array(wrap(v)), s.pos),
    }
}

/// The items of an array, after its element type and length.
pub open spec fn array_items_step(bytes: Seq<u8>, pos: int, inner: GgufValueType, n: nat) -> Step<
    Contents,
> {
    match inner {
        GgufValueType::U8 => wrapped(
            items_step::<u8>(seq![], bytes, pos, n),
            |v: Seq<u8>| ArrayContents::U8(v),
        ),
        GgufValueType::I8 => wrapped(
            items_step::<i8>(seq![], bytes, pos, n),
            |v: Seq<i8>| ArrayContents::I8(v),
        ),
        GgufValueType::U16 => wrapped(
            items_step::<u16>(seq![], bytes, pos, n),
            |v: Seq<u16>| ArrayContents::U32(v.map_values(|x: u16| x as u32)),
        ),
        GgufValueType::I16 => wrapped(
            items_step::<i16>(seq![], bytes, pos, n),
            |v: Seq<i16>| ArrayContents::I32(v.map_values(|x: i16| x as i32)),
        ),
        GgufValueType::U32 => wrapped(
            items_step::<u32>(seq![], bytes, pos, n),
            |v: Seq<u32>| ArrayContents::U32(v),
        ),
        GgufValueType::I32 => wrapped(
            items_step::<i32>(seq![], bytes, pos, n),
            |v: Seq<i32>| ArrayContents::I32(v),
        ),
        GgufValueType::U64 => wrapped(
            items_step::<u64>(seq![], bytes, pos, n),
            |v: Seq<u64>| ArrayContents::U64(v),
        ),
        GgufValueType::I64 => wrapped(
            items_step::<i64>(seq![], bytes, pos, n),
            |v: Seq<i64>| ArrayContents::I64(v),
        ),
        GgufValueType::F32 => wrapped(
            items_step::<u32>(seq![], bytes, pos, n),
            |v: Seq<u32>| ArrayContents::F32(v),
        ),
        GgufValueType::F64 => wrapped(
            items_step::<u64>(seq![], bytes, pos, n),
            |v: Seq<u64>| ArrayContents::F64(v),
        ),
        GgufValueType::Bool => wrapped(
            items_step::<bool>(seq![], bytes, pos, n),
            |v: Seq<bool>| ArrayContents::Bool(v),
        ),
        GgufValueType::String => wrapped(
            items_step::<String>(seq![], bytes, pos, n),
            |v: Seq<Seq<char>>| ArrayContents::String(v),
        ),
        GgufValueType::Array => bad(Fault::NestedArray, pos),
    }
}

/// An element type, a length and the items.
pub open spec fn array_step(bytes: Seq<u8>, pos: int) -> Step<Contents> {
    match u32_step(bytes, pos).value {
        Err(e) => bad(e, pos),
        Ok(t) => match value_type_of(t) {
            None => bad(Fault::UnknownInnerType, pos + 4),
            Some(inner) => match u64_step(bytes, pos + 4).value {
                Err(e) => bad(e, pos + 4),
                Ok(n) => array_items_step(bytes, pos + 12, inner, n as nat),
            },
        },
    }
}

/// A single value with its tag put on.
pub open spec fn tagged<T>(s: Step<T>, tag: spec_fn(T) -> Contents) -> Step<Contents> {
    match s.value {
        Err(e) => bad(e, s.pos),
        Ok(v) => good(tag(v), s.pos),
    }
}

/// A value of type `t`.
pub open spec fn value_step(bytes: Seq<u8>, pos: int, t: GgufValueType) -> Step<Contents> {
    match t {
        GgufValueType::U8 => tagged(u8_step(bytes, pos), |v: u8| Contents::U8(v)),
        GgufValueType::I8 => tagged(i8_step(bytes, pos), |v: i8| Contents::I8(v)),
        GgufValueType::U16 => tagged(u16_step(bytes, pos), |v: u16| Contents::U16(v)),
        GgufValueType::I16 => tagged(i16_step(bytes, pos), |v: i16| Contents::I16(v)),
        GgufValueType::U32 => tagged(u32_step(bytes, pos), |v: u32| Contents::U32(v)),
        GgufValueType::I32 => tagged(i32_step(bytes, pos), |v: i32| Contents::I32(v)),
        GgufValueType::U64 => tagged(u64_step(bytes, pos), |v: u64| Contents::U64(v)),
        GgufValueType::I64 => tagged(i64_step(bytes, pos), |v: i64| Contents::I64(v)),
        GgufValueType::F32 => tagged(u32_step(bytes, pos), |v: u32| Contents::F32(v)),
        GgufValueType::F64 => tagged(u64_step(bytes, pos), |v: u64| Contents::F64(v)),
        GgufValueType::Bool => tagged(bool_step(bytes, pos), |v: bool| Contents::Bool(v)),
        GgufValueType::String => tagged(
            string_step(bytes, pos),
            |v: Seq<char>| Contents::String(v),
        ),
        GgufValueType::Array => array_step(bytes, pos),
    }
}

/// A key, a type and a value of that type.
pub open spec fn pair_step(bytes: Seq<u8>, pos: int) -> Step<(Seq<char>, Contents)> {
    let key = string_step(bytes, pos);
    match key.value {
        Err(e) => bad(e, key.pos),
        Ok(k) => match u32_step(bytes, key.pos).value {
            Err(e) => bad(e, key.pos),
            Ok(raw) => match value_type_of(raw) {
                None => bad(Fault::UnknownValueType(k), key.pos + 4),
                Some(t) => {
                    let v = value_step(bytes, key.pos + 4, t);
                    match v.value {
                        Err(e) => bad(e, v.pos),
                        Ok(c) => good((k, c), v.pos),
                    }
                },
            },
        },
    }
}

/// `n` more metadata pairs entered into `so_far`; a later pair replaces an
/// earlier one with the same key.
pub open spec fn meta_step(
    so_far: Map<Seq<char>, Contents>,
    bytes: Seq<u8>,
    pos: int,
    n: nat,
) -> Step<Map<Seq<char>, Contents>>
    decreases n,
{
    if n == 0 {
        good(so_far, pos)
    } else {
        let first = pair_step(bytes, pos);
        match first.value {
            Err(e) => bad(e, first.pos),
            Ok(p) => meta_step(so_far.insert(p.0, p.1), bytes, first.pos, (n - 1) as nat),
        }
    }
}

/// One row of the tensor table.
pub open spec fn tensor_step(bytes: Seq<u8>, pos: int) -> Step<TensorEntry> {
    let name = string_step(bytes, pos);
    match name.value {
        Err(e) => bad(e, name.pos),
        Ok(s) => match u32_step(bytes, name.pos).value {
            Err(e) => bad(e, name.pos),
            Ok(n_dims) => {
                let dims = items_step::<u64>(seq![], bytes, name.pos + 4, n_dims as nat);
                match dims.value {
                    Err(e) => bad(e, dims.pos),
                    Ok(ne) => match u32_step(bytes, dims.pos).value {
                        Err(e) => bad(e, dims.pos),
                        Ok(raw) => match dtype_of(raw) {
                            None => bad(
                                Fault::UnsupportedDType { name: s, dtype: raw },
                                dims.pos + 4,
                            ),
                            Some(dtype) => match u64_step(bytes, dims.pos + 4).value {
                                Err(e) => bad(e, dims.pos + 4),
                                Ok(offset) => good(
                                    TensorEntry { name: s, ne, dtype, offset },
                                    dims.pos + 12,
                                ),
                            },
                        },
                    },
                }
            },
        },
    }
}

/// `n` more rows of the tensor table entered into `so_far` by name.
pub open spec fn tensors_step(
    so_far: Map<Seq<char>, TensorEntry>,
    bytes: Seq<u8>,
    pos: int,
    n: nat,
) -> Step<Map<Seq<char>, TensorEntry>>
    decreases n,
{
    if n == 0 {
        good(so_far, pos)
    } else {
        let first = tensor_step(bytes, pos);
        match first.value {
            Err(e) => bad(e, first.pos),
            Ok(t) => tensors_step(so_far.insert(t.name, t), bytes, first.pos, (n - 1) as nat),
        }
    }
}

/// The parsed header of a model file.
pub struct Header {
    pub meta: Map<Seq<char>, Contents>,
    pub tensors: Map<Seq<char>, TensorEntry>,
    pub data_start: u64,
}

/// `pos` rounded up to a multiple of `align`; `pos` itself where `align` is 0.
pub open spec fn aligned(pos: int, align: int) -> int {
    if align == 0 || pos % align == 0 {
        pos
    } else {
        pos + align - pos % align
    }
}

/// What `general.alignment` says, 32 by default.
pub open spec fn alignment_of(meta: Map<Seq<char>, Contents>) -> u64 {
    if meta.contains_key("general.alignment"@) {
        match meta["general.alignment"@] {
            Contents::U32(x) => x as u64,
            Contents::U64(x) => x,
            _ => 32,
        }
    } else {
        32
    }
}

/// The tables that follow the two counts in a header.
pub open spec fn tables_of(bytes: Seq<u8>, tensor_count: nat, kv_count: nat) -> Result<
    Header,
    Fault,
> {
    let meta = meta_step(Map::empty(), bytes, 24, kv_count);
    match meta.value {
        Err(e) => Err(e),
        Ok(m) => {
            let tensors = tensors_step(Map::empty(), bytes, meta.pos, tensor_count);
            match tensors.value {
                Err(e) => Err(e),
                Ok(t) => {
                    let start = aligned(tensors.pos, alignment_of(m) as int);
                    if start > u64::MAX {
                        Err(Fault::AlignmentOverflow(alignment_of(m)))
                    } else {
                        Ok(Header { meta: m, tensors: t, data_start: start as u64 })
                    }
                },
            }
        },
    }
}

/// The header at the start of a file: magic number, version, tensor count,
/// pair count, metadata pairs, tensor table.
pub open spec fn header_of(bytes: Seq<u8>) -> Result<Header, Fault> {
    match u32_step(bytes, 0).value {
        Err(e) => Err(e),
        Ok(magic) => if magic != GGUF_MAGIC {
            Err(Fault::BadMagic(magic))
        } else {
            match u32_step(bytes, 4).value {
                Err(e) => Err(e),
                Ok(version) => if version != 3 && version != 2 {
                    Err(Fault::UnsupportedVersion(version))
                } else {
                    match u64_step(bytes, 8).value {
                        Err(e) => Err(e),
                        Ok(tensor_count) => match u64_step(bytes, 16).value {
                            Err(e) => Err(e),
                            Ok(kv_count) => tables_of(
                                bytes,
                                tensor_count as nat,
                                kv_count as nat,
                            ),
                        },
                    }
                },
            }
        },
    }
}

// ---- the reader ---------------------------------------------------------

/// A little-endian byte reader over a borrowed slice, with bounds checks.
pub struct Reader<'a> {
    pub buf: &'a [u8],
    pub pos: usize,
}

/// What a read of `T` says of the reader and the result.
pub open spec fn reads<T>(
    before: &Reader,
    after: &Reader,
    value: Result<T, Fault>,
    step: Step<T>,
) -> bool {
    &&& after.buf == before.buf
    &&& after.pos == step.pos
    &&& after.wf()
    &&& value == step.value
}

/// The error as a fault, the value as it is.
pub open spec fn outcome<T: View>(r: Result<T, Error>) -> Result<T::V, Fault> {
    match r {
        Ok(v) => Ok(v@),
        Err(e) => Err(e@),
    }
}

/// `std::str::from_utf8`: the text that the bytes encode, where they are valid
/// UTF-8, and nothing where they are not.
#[verifier::external_body]
fn utf8_text(bytes: &[u8]) -> (r: Option<&str>)
    ensures
        match r {
            Some(s) => valid_utf8(bytes@) && s@ == decode_utf8(bytes@),
            None => !valid_utf8(bytes@),
        },
{
    std::str::from_utf8(bytes).ok()
}

impl<'a> Reader<'a> {
    /// The position lies within the bytes.
    pub open spec fn wf(&self) -> bool {
        self.pos <= self.buf.len()
    }

    /// Starts at the first byte.
    pub fn new(buf: &'a [u8]) -> (r: Self)
        ensures
            r.wf(),
            r.buf == buf,
            r.pos == 0,
    {
        Reader { buf, pos: 0 }
    }

    /// Whether `n` more bytes are there.
    pub fn need(&self, n: u64) -> (r: Result<(), Error>)
        requires
            self.wf(),
        ensures
            match r {
                Ok(_) => self.pos + n <= self.buf.len(),
                Err(e) => self.pos + n > self.buf.len() && e@ == end_of(self.buf@, n as nat),
            },
    {
        if n > (self.buf.len() - self.pos) as u64 {
            Err(Error::Gguf(GgufError::UnexpectedEnd { len: self.buf.len(), needed: n }))
        } else {
            Ok(())
        }
    }

    pub fn u8(&mut self) -> (r: Result<u8, Error>)
        requires
            old(self).wf(),
        ensures
            reads(old(self), final(self), outcome(r), u8_step(old(self).buf@, old(self).pos as int)),
    {
        match self.need(1) {
            Err(e) => Err(e),
            Ok(_) => {
                let v: u8 = self.buf[self.pos];
                self.pos = self.pos + 1;
                Ok(v)
            },
        }
    }

    pub fn i8(&mut self) -> (r: Result<i8, Error>)
        requires
            old(self).wf(),
        ensures
            reads(old(self), final(self), outcome(r), i8_step(old(self).buf@, old(self).pos as int)),
    {
        match self.u8() {
            Err(e) => Err(e),
            Ok(v) => Ok(v as i8),
        }
    }

    pub fn u16(&mut self) -> (r: Result<u16, Error>)
        requires
            old(self).wf(),
        ensures
            reads(old(self), final(self), outcome(r), u16_step(old(self).buf@, old(self).pos as int)),
    {
        match self.need(2) {
            Err(e) => Err(e),
            Ok(_) => {
                let v: u16 = self.buf[self.pos] as u16 + 0x100 * (self.buf[self.pos + 1] as u16);
                self.pos = self.pos + 2;
                Ok(v)
            },
        }
    }

    pub fn i16(&mut self) -> (r: Result<i16, Error>)
        requires
            old(self).wf(),
        ensures
            reads(old(self), final(self), outcome(r), i16_step(old(self).buf@, old(self).pos as int)),
    {
        match self.u16() {
            Err(e) => Err(e),
            Ok(v) => Ok(v as i16),
        }
    }

    /// The 32-bit integer at `at`, which has four bytes.
    fn word(&self, at: usize) -> (v: u32)
        requires
            at + 4 <= self.buf.len(),
        ensures
            v == u32_at(self.buf@, at as int),
    {
        self.buf[at] as u32 + 0x100 * (self.buf[at + 1] as u32) + 0x1_0000 * (self.buf[at
            + 2] as u32) + 0x100_0000 * (self.buf[at + 3] as u32)
    }

    pub fn u32(&mut self) -> (r: Result<u32, Error>)
        requires
            old(self).wf(),
        ensures
            reads(old(self), final(self), outcome(r), u32_step(old(self).buf@, old(self).pos as int)),
    {
        match self.need(4) {
            Err(e) => Err(e),
            Ok(_) => {
                let v: u32 = self.word(self.pos);
                self.pos = self.pos + 4;
                Ok(v)
            },
        }
    }

    pub fn i32(&mut self) -> (r: Result<i32, Error>)
        requires
            old(self).wf(),
        ensures
            reads(old(self), final(self), outcome(r), i32_step(old(self).buf@, old(self).pos as int)),
    {
        match self.u32() {
            Err(e) => Err(e),
            Ok(v) => Ok(v as i32),
        }
    }

    pub fn u64(&mut self) -> (r: Result<u64, Error>)
        requires
            old(self).wf(),
        ensures
            reads(old(self), final(self), outcome(r), u64_step(old(self).buf@, old(self).pos as int)),
    {
        match self.need(8) {
            Err(e) => Err(e),
            Ok(_) => {
                let v: u64 = self.word(self.pos) as u64 + 0x1_0000_0000 * (self.word(
                    self.pos + 4,
                ) as u64);
                self.pos = self.pos + 8;
                Ok(v)
            },
        }
    }

    pub fn i64(&mut self) -> (r: Result<i64, Error>)
        requires
            old(self).wf(),
        ensures
            reads(old(self), final(self), outcome(r), i64_step(old(self).buf@, old(self).pos as int)),
    {
        match self.u64() {
            Err(e) => Err(e),
            Ok(v) => Ok(v as i64),
        }
    }

    pub fn bool(&mut self) -> (r: Result<bool, Error>)
        requires
            old(self).wf(),
        ensures
            reads(old(self), final(self), outcome(r), bool_step(old(self).buf@, old(self).pos as int)),
    {
        match self.u8() {
            Err(e) => Err(e),
            Ok(v) => Ok(v != 0),
        }
    }

    pub fn string(&mut self) -> (r: Result<String, Error>)
        requires
            old(self).wf(),
        ensures
            reads(old(self), final(self), outcome(r), string_step(old(self).buf@, old(self).pos as int)),
    {
        let len: u64 = match self.u64() {
            Err(e) => {
                return Err(e);
            },
            Ok(n) => n,
        };
        match self.need(len) {
            Err(e) => Err(e),
            Ok(_) => {
                let n: usize = len as usize;
                let text: &[u8] = &self.buf[self.pos..self.pos + n];
                match utf8_text(text) {
                    None => Err(Error::Gguf(GgufError::InvalidUtf8)),
                    Some(s) => {
                        self.pos = self.pos + n;
                        Ok(s.to_owned())
                    },
                }
            },
        }
    }
}

/// A type whose values stand one after the other in an array.
pub trait Item: View + Sized {
    /// How one value is read.
    spec fn step(bytes: Seq<u8>, pos: int) -> Step<Self::V>;

    fn read(r: &mut Reader) -> (v: Result<Self, Error>)
        requires
            old(r).wf(),
        ensures
            reads(old(r), final(r), outcome(v), Self::step(old(r).buf@, old(r).pos as int)),
    ;
}

impl Item for u8 {
    open spec fn step(bytes: Seq<u8>, pos: int) -> Step<u8> {
        u8_step(bytes, pos)
    }

    fn read(r: &mut Reader) -> (v: Result<Self, Error>) {
        r.u8()
    }
}

impl Item for i8 {
    open spec fn step(bytes: Seq<u8>, pos: int) -> Step<i8> {
        i8_step(bytes, pos)
    }

    fn read(r: &mut Reader) -> (v: Result<Self, Error>) {
        r.i8()
    }
}

impl Item for u16 {
    open spec fn step(bytes: Seq<u8>, pos: int) -> Step<u16> {
        u16_step(bytes, pos)
    }

    fn read(r: &mut Reader) -> (v: Result<Self, Error>) {
        r.u16()
    }
}

impl Item for i16 {
    open spec fn step(bytes: Seq<u8>, pos: int) -> Step<i16> {
        i16_step(bytes, pos)
    }

    fn read(r: &mut Reader) -> (v: Result<Self, Error>) {
        r.i16()
    }
}

impl Item for u32 {
    open spec fn step(bytes: Seq<u8>, pos: int) -> Step<u32> {
        u32_step(bytes, pos)
    }

    fn read(r: &mut Reader) -> (v: Result<Self, Error>) {
        r.u32()
    }
}

impl Item for i32 {
    open spec fn step(bytes: Seq<u8>, pos: int) -> Step<i32> {
        i32_step(bytes, pos)
    }

    fn read(r: &mut Reader) -> (v: Result<Self, Error>) {
        r.i32()
    }
}

impl Item for u64 {
    open spec fn step(bytes: Seq<u8>, pos: int) -> Step<u64> {
        u64_step(bytes, pos)
    }

    fn read(r: &mut Reader) -> (v: Result<Self, Error>) {
        r.u64()
    }
}

impl Item for i64 {
    open spec fn step(bytes: Seq<u8>, pos: int) -> Step<i64> {
        i64_step(bytes, pos)
    }

    fn read(r: &mut Reader) -> (v: Result<Self, Error>) {
        r.i64()
    }
}

impl Item for bool {
    open spec fn step(bytes: Seq<u8>, pos: int) -> Step<bool> {
        bool_step(bytes, pos)
    }

    fn read(r: &mut Reader) -> (v: Result<Self, Error>) {
        r.bool()
    }
}

impl Item for String {
    open spec fn step(bytes: Seq<u8>, pos: int) -> Step<Seq<char>> {
        string_step(bytes, pos)
    }

    fn read(r: &mut Reader) -> (v: Result<Self, Error>) {
        r.string()
    }
}

/// Reads `count` items.
pub fn read_array<T: Item>(r: &mut Reader, count: u64) -> (v: Result<Vec<T>, Error>)
    requires
        old(r).wf(),
    ensures
        reads(
            old(r),
            final(r),
            match v {
                Ok(items) => Ok(views(items@)),
                Err(e) => Err(e@),
            },
            items_step::<T>(seq![], old(r).buf@, old(r).pos as int, count as nat),
        ),
{
    let mut items: Vec<T> = Vec::new();
    let mut left: u64 = count;
    assert(views(items@) =~= seq![]);
    while left > 0
        invariant
            r.wf(),
            r.buf == old(r).buf,
            items_step::<T>(views(items@), r.buf@, r.pos as int, left as nat) == items_step::<T>(
                seq![],
                old(r).buf@,
                old(r).pos as int,
                count as nat,
            ),
        decreases left,
    {
        match T::read(r) {
            Err(e) => {
                return Err(e);
            },
            Ok(item) => {
                let ghost before = items@;
                items.push(item);
                assert(views(items@) =~= views(before).push(item@));
            },
        }
        left = left - 1;
    }
    Ok(items)
}

/// 16-bit items, each as 32 bits.
fn widen_u16(v: &Vec<u16>) -> (r: Vec<u32>)
    ensures
        r@ == v@.map_values(|x: u16| x as u32),
{
    let mut r: Vec<u32> = Vec::new();
    let mut i: usize = 0;
    while i < v.len()
        invariant
            i <= v.len(),
            r.len() == i,
            forall|k: int| 0 <= k < i ==> #[trigger] r[k] == v[k] as u32,
        decreases v.len() - i,
    {
        r.push(v[i] as u32);
        i = i + 1;
    }
    assert(r@ =~= v@.map_values(|x: u16| x as u32));
    r
}

fn widen_i16(v: &Vec<i16>) -> (r: Vec<i32>)
    ensures
        r@ == v@.map_values(|x: i16| x as i32),
{
    let mut r: Vec<i32> = Vec::new();
    let mut i: usize = 0;
    while i < v.len()
        invariant
            i <= v.len(),
            r.len() == i,
            forall|k: int| 0 <= k < i ==> #[trigger] r[k] == v[k] as i32,
        decreases v.len() - i,
    {
        r.push(v[i] as i32);
        i = i + 1;
    }
    assert(r@ =~= v@.map_values(|x: i16| x as i32));
    r
}

/// Reads `count` items of type `inner`.
fn read_array_items(r: &mut Reader, inner: GgufValueType, count: u64) -> (v: Result<
    MetaValue,
    Error,
>)
    requires
        old(r).wf(),
    ensures
        reads(
            old(r),
            final(r),
            outcome(v),
            array_items_step(old(r).buf@, old(r).pos as int, inner, count as nat),
        ),
{
    match inner {
        GgufValueType::U8 => match read_array::<u8>(r, count) {
            Err(e) => Err(e),
            Ok(v) => {
                assert(views(v@) =~= v@);
                Ok(MetaValue::Array(MetaArray::U8(v)))
            },
        },
        GgufValueType::I8 => match read_array::<i8>(r, count) {
            Err(e) => Err(e),
            Ok(v) => {
                assert(views(v@) =~= v@);
                Ok(MetaValue::Array(MetaArray::I8(v)))
            },
        },
        GgufValueType::U16 => match read_array::<u16>(r, count) {
            Err(e) => Err(e),
            Ok(v) => {
                assert(views(v@) =~= v@);
                Ok(MetaValue::Array(MetaArray::U32(widen_u16(&v))))
            },
        },
        GgufValueType::I16 => match read_array::<i16>(r, count) {
            Err(e) => Err(e),
            Ok(v) => {
                assert(views(v@) =~= v@);
                Ok(MetaValue::Array(MetaArray::I32(widen_i16(&v))))
            },
        },
        GgufValueType::U32 => match read_array::<u32>(r, count) {
            Err(e) => Err(e),
            Ok(v) => {
                assert(views(v@) =~= v@);
                Ok(MetaValue::Array(MetaArray::U32(v)))
            },
        },
        GgufValueType::I32 => match read_array::<i32>(r, count) {
            Err(e) => Err(e),
            Ok(v) => {
                assert(views(v@) =~= v@);
                Ok(MetaValue::Array(MetaArray::I32(v)))
            },
        },
        GgufValueType::U64 => match read_array::<u64>(r, count) {
            Err(e) => Err(e),
            Ok(v) => {
                assert(views(v@) =~= v@);
                Ok(MetaValue::Array(MetaArray::U64(v)))
            },
        },
        GgufValueType::I64 => match read_array::<i64>(r, count) {
            Err(e) => Err(e),
            Ok(v) => {
                assert(views(v@) =~= v@);
                Ok(MetaValue::Array(MetaArray::I64(v)))
            },
        },
        GgufValueType::F32 => match read_array::<u32>(r, count) {
            Err(e) => Err(e),
            Ok(v) => {
                assert(views(v@) =~= v@);
                Ok(MetaValue::Array(MetaArray::F32(v)))
            },
        },
        GgufValueType::F64 => match read_array::<u64>(r, count) {
            Err(e) => Err(e),
            Ok(v) => {
                assert(views(v@) =~= v@);
                Ok(MetaValue::Array(MetaArray::F64(v)))
            },
        },
        GgufValueType::Bool => match read_array::<bool>(r, count) {
            Err(e) => Err(e),
            Ok(v) => {
                assert(views(v@) =~= v@);
                Ok(MetaValue::Array(MetaArray::Bool(v)))
            },
        },
        GgufValueType::String => match read_array::<String>(r, count) {
            Err(e) => Err(e),
            Ok(v) => Ok(MetaValue::Array(MetaArray::String(v))),
        },
        GgufValueType::Array => Err(Error::Gguf(GgufError::NestedArray)),
    }
}

/// Reads an array: its element type, its length, its items.
fn read_array_value(r: &mut Reader) -> (v: Result<MetaValue, Error>)
    requires
        old(r).wf(),
    ensures
        reads(old(r), final(r), outcome(v), array_step(old(r).buf@, old(r).pos as int)),
{
    let raw: u32 = match r.u32() {
        Err(e) => {
            return Err(e);
        },
        Ok(t) => t,
    };
    match GgufValueType::from_u32(raw) {
        None => Err(Error::Gguf(GgufError::UnknownInnerType)),
        Some(inner) => match r.u64() {
            Err(e) => Err(e),
            Ok(count) => read_array_items(r, inner, count),
        },
    }
}

/// Reads a value of type `t`.
pub fn read_value(r: &mut Reader, t: GgufValueType) -> (v: Result<MetaValue, Error>)
    requires
        old(r).wf(),
    ensures
        reads(old(r), final(r), outcome(v), value_step(old(r).buf@, old(r).pos as int, t)),
{
    match t {
        GgufValueType::U8 => match r.u8() {
            Err(e) => Err(e),
            Ok(v) => Ok(MetaValue::U8(v)),
        },
        GgufValueType::I8 => match r.i8() {
            Err(e) => Err(e),
            Ok(v) => Ok(MetaValue::I8(v)),
        },
        GgufValueType::U16 => match r.u16() {
            Err(e) => Err(e),
            Ok(v) => Ok(MetaValue::U16(v)),
        },
        GgufValueType::I16 => match r.i16() {
            Err(e) => Err(e),
            Ok(v) => Ok(MetaValue::I16(v)),
        },
        GgufValueType::U32 => match r.u32() {
            Err(e) => Err(e),
            Ok(v) => Ok(MetaValue::U32(v)),
        },
        GgufValueType::I32 => match r.i32() {
            Err(e) => Err(e),
            Ok(v) => Ok(MetaValue::I32(v)),
        },
        GgufValueType::U64 => match r.u64() {
            Err(e) => Err(e),
            Ok(v) => Ok(MetaValue::U64(v)),
        },
        GgufValueType::I64 => match r.i64() {
            Err(e) => Err(e),
            Ok(v) => Ok(MetaValue::I64(v)),
        },
        GgufValueType::F32 => match r.u32() {
            Err(e) => Err(e),
            Ok(v) => Ok(MetaValue::F32(v)),
        },
        GgufValueType::F64 => match r.u64() {
            Err(e) => Err(e),
            Ok(v) => Ok(MetaValue::F64(v)),
        },
        GgufValueType::Bool => match r.bool() {
            Err(e) => Err(e),
            Ok(v) => Ok(MetaValue::Bool(v)),
        },
        GgufValueType::String => match r.string() {
            Err(e) => Err(e),
            Ok(v) => Ok(MetaValue::String(v)),
        },
        GgufValueType::Array => read_array_value(r),
    }
}

/// Reads the metadata table of `count` pairs.
fn read_meta(r: &mut Reader, count: u64) -> (v: Result<Table<MetaValue>, Error>)
    requires
        old(r).wf(),
    ensures
        reads(
            old(r),
            final(r),
            outcome(v),
            meta_step(Map::empty(), old(r).buf@, old(r).pos as int, count as nat),
        ),
        v is Ok ==> v->Ok_0.wf(),
{
    let mut meta: Table<MetaValue> = Table::new();
    let mut left: u64 = count;
    while left > 0
        invariant
            r.wf(),
            r.buf == old(r).buf,
            meta.wf(),
            meta_step(meta@, r.buf@, r.pos as int, left as nat) == meta_step(
                Map::empty(),
                old(r).buf@,
                old(r).pos as int,
                count as nat,
            ),
        decreases left,
    {
        let key: String = match r.string() {
            Err(e) => {
                return Err(e);
            },
            Ok(k) => k,
        };
        let raw: u32 = match r.u32() {
            Err(e) => {
                return Err(e);
            },
            Ok(t) => t,
        };
        match GgufValueType::from_u32(raw) {
            None => {
                return Err(Error::Gguf(GgufError::UnknownValueType(key)));
            },
            Some(t) => match read_value(r, t) {
                Err(e) => {
                    return Err(e);
                },
                Ok(value) => {
                    meta.insert(key, value);
                },
            },
        }
        left = left - 1;
    }
    Ok(meta)
}

/// Reads one row of the tensor table.
fn read_tensor(r: &mut Reader) -> (v: Result<TensorInfo, Error>)
    requires
        old(r).wf(),
    ensures
        reads(old(r), final(r), outcome(v), tensor_step(old(r).buf@, old(r).pos as int)),
{
    let name: String = match r.string() {
        Err(e) => {
            return Err(e);
        },
        Ok(k) => k,
    };
    let n_dims: u32 = match r.u32() {
        Err(e) => {
            return Err(e);
        },
        Ok(n) => n,
    };
    let ne: Vec<u64> = match read_array::<u64>(r, n_dims as u64) {
        Err(e) => {
            return Err(e);
        },
        Ok(v) => v,
    };
    assert(views(ne@) =~= ne@);
    let raw: u32 = match r.u32() {
        Err(e) => {
            return Err(e);
        },
        Ok(t) => t,
    };
    match GgufDType::from_u32(raw) {
        None => Err(Error::Gguf(GgufError::UnsupportedDType { name, dtype: raw })),
        Some(dtype) => match r.u64() {
            Err(e) => Err(e),
            Ok(offset) => Ok(TensorInfo { name, ne, dtype, offset }),
        },
    }
}

/// Reads the tensor table of `count` rows.
fn read_tensors(r: &mut Reader, count: u64) -> (v: Result<Table<TensorInfo>, Error>)
    requires
        old(r).wf(),
    ensures
        reads(
            old(r),
            final(r),
            outcome(v),
            tensors_step(Map::empty(), old(r).buf@, old(r).pos as int, count as nat),
        ),
        v is Ok ==> v->Ok_0.wf(),
{
    let mut tensors: Table<TensorInfo> = Table::new();
    let mut left: u64 = count;
    while left > 0
        invariant
            r.wf(),
            r.buf == old(r).buf,
            tensors.wf(),
            tensors_step(tensors@, r.buf@, r.pos as int, left as nat) == tensors_step(
                Map::empty(),
                old(r).buf@,
                old(r).pos as int,
                count as nat,
            ),
        decreases left,
    {
        match read_tensor(r) {
            Err(e) => {
                return Err(e);
            },
            Ok(info) => {
                let name: String = info.name.clone();
                tensors.insert(name, info);
            },
        }
        left = left - 1;
    }
    Ok(tensors)
}

/// `pos` rounded up to a multiple of `align`; `pos` itself where `align` is 0.
pub fn align_up(pos: u64, align: u64) -> (r: u64)
    requires
        aligned(pos as int, align as int) <= u64::MAX,
    ensures
        r == aligned(pos as int, align as int),
{
    if align == 0 {
        return pos;
    }
    let rem: u64 = pos % align;
    if rem == 0 {
        pos
    } else {
        pos + (align - rem)
    }
}

/// The first `n` bytes of the data.
pub fn take(raw: &[u8], n: u64) -> (r: Result<&[u8], Error>)
    ensures
        match r {
            Ok(bytes) => n <= raw.len() && bytes@ == raw@.subrange(0, n as int),
            Err(e) => n > raw.len() && e@ == (Fault::Truncated { needed: n as nat }),
        },
{
    if n <= raw.len() as u64 {
        Ok(&raw[0..n as usize])
    } else {
        Err(Error::Gguf(GgufError::Truncated { needed: n }))
    }
}

// ---- the file -----------------------------------------------------------

/// An opened model file: its metadata, its tensor table and its bytes.
pub struct GgufFile<'a> {
    meta: Table<MetaValue>,
    tensors: Table<TensorInfo>,
    data_start: u64,
    bytes: &'a [u8],
}

impl<'a> View for GgufFile<'a> {
    type V = Header;

    closed spec fn view(&self) -> Header {
        Header { meta: self.meta@, tensors: self.tensors@, data_start: self.data_start }
    }
}

/// Element `i` of a tensor of type `t`, stored from `data` on.
pub open spec fn stored_value<T: Scalar>(t: GgufDType, data: Seq<u8>, i: int) -> T {
    match t {
        GgufDType::F32 => T::from_bits_spec(u32_at(data, 4 * i)),
        GgufDType::F16 => T::from_half_bits_spec(u16_at(data, 2 * i)),
        GgufDType::Q8_0 => T::from_half_bits_spec(u16_at(data, 34 * (i / 32))).times_spec(
            T::ratio_spec(signed(data[34 * (i / 32) + 2 + i % 32]), 1),
        ),
        GgufDType::Q4_K => q4_k_value(block_of(data, 144, i / 256), i % 256),
        GgufDType::Q5_K => q5_k_value(block_of(data, 176, i / 256), i % 256),
        GgufDType::Q6_K => q6_k_value(block_of(data, 210, i / 256), i % 256),
        GgufDType::Q8_K => q8_k_value(block_of(data, 292, i / 256), i % 256),
    }
}

/// Bytes that the whole blocks of a tensor take.
pub open spec fn tensor_bytes(t: TensorEntry) -> int {
    (elements(t.ne) / block_size_of(t.dtype) as nat) * stored_bytes_of(t.dtype)
}

/// The elements of tensor `t`: those of whole blocks as stored, zeros after.
pub open spec fn tensor_values<T: Scalar>(bytes: Seq<u8>, header: Header, t: TensorEntry) -> Seq<
    T,
> {
    let n = elements(t.ne);
    let whole = (n / block_size_of(t.dtype) as nat) * block_size_of(t.dtype);
    let start = header.data_start + t.offset;
    Seq::new(
        n,
        |i: int|
            if i < whole {
                stored_value(t.dtype, bytes.subrange(start, start + tensor_bytes(t)), i)
            } else {
                zero()
            },
    )
}

/// What decoding a tensor by name gives.
pub open spec fn tensor_result<T: Scalar>(bytes: Seq<u8>, header: Header, name: Seq<char>) -> Result<
    Seq<T>,
    Fault,
> {
    if !header.tensors.contains_key(name) {
        Err(Fault::TensorNotFound(name))
    } else {
        let t = header.tensors[name];
        if !countable(t.ne) || tensor_bytes(t) > u64::MAX {
            Err(Fault::Oversized(name))
        } else if header.data_start + t.offset + tensor_bytes(t) > bytes.len() {
            Err(Fault::Truncated { needed: tensor_bytes(t) as nat })
        } else {
            Ok(tensor_values(bytes, header, t))
        }
    }
}

impl<'a> GgufFile<'a> {
    /// The tables hold each name once.
    pub closed spec fn wf(&self) -> bool {
        self.meta.wf() && self.tensors.wf()
    }

    /// The whole file.
    pub closed spec fn contents(&self) -> Seq<u8> {
        self.bytes@
    }

    /// Parses the header of a model file. Tensor data is not decoded until
    /// [`Self::tensor_f32`] is called.
    pub fn open(bytes: &'a [u8]) -> (r: Result<Self, Error>)
        ensures
            outcome(r) == header_of(bytes@),
            r is Ok ==> r->Ok_0.wf() && r->Ok_0.contents() == bytes@,
    {
        let mut r: Reader = Reader::new(bytes);
        let magic: u32 = match r.u32() {
            Err(e) => {
                return Err(e);
            },
            Ok(v) => v,
        };
        if magic != GGUF_MAGIC {
            return Err(Error::Gguf(GgufError::BadMagic(magic)));
        }
        let version: u32 = match r.u32() {
            Err(e) => {
                return Err(e);
            },
            Ok(v) => v,
        };
        if version != 3 && version != 2 {
            return Err(Error::Gguf(GgufError::UnsupportedVersion(version)));
        }
        let tensor_count: u64 = match r.u64() {
            Err(e) => {
                return Err(e);
            },
            Ok(v) => v,
        };
        let kv_count: u64 = match r.u64() {
            Err(e) => {
                return Err(e);
            },
            Ok(v) => v,
        };
        let meta: Table<MetaValue> = match read_meta(&mut r, kv_count) {
            Err(e) => {
                return Err(e);
            },
            Ok(m) => m,
        };
        let tensors: Table<TensorInfo> = match read_tensors(&mut r, tensor_count) {
            Err(e) => {
                return Err(e);
            },
            Ok(t) => t,
        };
        let alignment: u64 = match meta.get("general.alignment") {
            Some(MetaValue::U32(x)) => *x as u64,
            Some(MetaValue::U64(x)) => *x,
            _ => 32,
        };
        assert(alignment == alignment_of(meta@));
        let pos: u64 = r.pos as u64;
        if alignment != 0 && pos % alignment != 0 && alignment - pos % alignment > u64::MAX - pos {
            return Err(Error::Gguf(GgufError::AlignmentOverflow(alignment)));
        }
        let data_start: u64 = align_up(pos, alignment);
        Ok(GgufFile { meta, tensors, data_start, bytes })
    }

    /// Look up a metadata value by key.
    pub fn meta(&self, key: &str) -> (r: Option<&MetaValue>)
        requires
            self.wf(),
        ensures
            match r {
                Some(v) => self@.meta.contains_key(key@) && v@ == self@.meta[key@],
                None => !self@.meta.contains_key(key@),
            },
    {
        self.meta.get(key)
    }

    /// Look up a tensor's info by name.
    pub fn tensor_info(&self, name: &str) -> (r: Option<&TensorInfo>)
        requires
            self.wf(),
        ensures
            match r {
                Some(v) => self@.tensors.contains_key(name@) && v@ == self@.tensors[name@],
                None => !self@.tensors.contains_key(name@),
            },
    {
        self.tensors.get(name)
    }

    /// All `(key, value)` metadata pairs, each key once.
    pub fn meta_iter(&self) -> (r: Vec<(&String, &MetaValue)>)
        requires
            self.wf(),
        ensures
            forall|i: int|
                0 <= i < r.len() ==> self@.meta.contains_key(#[trigger] r[i].0@) && r[i].1@
                    == self@.meta[r[i].0@],
            forall|i: int, j: int| 0 <= i < j < r.len() ==> #[trigger] r[i].0@ != #[trigger] r[j].0@,
            forall|k: Seq<char>| #[trigger]
                self@.meta.contains_key(k) ==> exists|i: int|
                    0 <= i < r.len() && #[trigger] r[i].0@ == k,
    {
        let mut out: Vec<(&String, &MetaValue)> = Vec::new();
        let n: usize = self.meta.len();
        let mut i: usize = 0;
        while i < n
            invariant
                self.wf(),
                n == self.meta.names().len(),
                i <= n,
                out.len() == i,
                forall|k: int|
                    0 <= k < i ==> #[trigger] out[k].0@ == self.meta.names()[k]
                        && self@.meta.contains_key(out[k].0@) && out[k].1@
                        == self@.meta[out[k].0@],
            decreases n - i,
        {
            out.push(self.meta.entry(i));
            i = i + 1;
        }
        proof {
            self.meta.lemma_names();
            assert forall|k: Seq<char>| #[trigger] self@.meta.contains_key(k) implies exists|i: int|
                0 <= i < out.len() && #[trigger] out[i].0@ == k by {
                assert(self.meta.names().contains(k));
                let i = choose|i: int| 0 <= i < n && self.meta.names()[i] == k;
                assert(out[i].0@ == k);
            }
        }
        out
    }

    /// Names of all tensors in the file, each once.
    pub fn tensor_names(&self) -> (r: Vec<&String>)
        requires
            self.wf(),
        ensures
            forall|i: int|
                0 <= i < r.len() ==> self@.tensors.contains_key(#[trigger] r[i]@),
            forall|i: int, j: int| 0 <= i < j < r.len() ==> #[trigger] r[i]@ != #[trigger] r[j]@,
            forall|k: Seq<char>| #[trigger]
                self@.tensors.contains_key(k) ==> exists|i: int|
                    0 <= i < r.len() && #[trigger] r[i]@ == k,
    {
        let mut out: Vec<&String> = Vec::new();
        let n: usize = self.tensors.len();
        let mut i: usize = 0;
        while i < n
            invariant
                self.wf(),
                n == self.tensors.names().len(),
                i <= n,
                out.len() == i,
                forall|k: int|
                    0 <= k < i ==> #[trigger] out[k]@ == self.tensors.names()[k]
                        && self@.tensors.contains_key(out[k]@),
            decreases n - i,
        {
            out.push(self.tensors.entry(i).0);
            i = i + 1;
        }
        proof {
            self.tensors.lemma_names();
            assert forall|k: Seq<char>| #[trigger]
                self@.tensors.contains_key(k) implies exists|i: int|
                0 <= i < out.len() && #[trigger] out[i]@ == k by {
                assert(self.tensors.names().contains(k));
                let i = choose|i: int| 0 <= i < n && self.tensors.names()[i] == k;
                assert(out[i]@ == k);
            }
        }
        out
    }

    /// Decode a tensor, expanding quantized blocks. The elements come in
    /// storage order, with the fastest-varying dimension first.
    pub fn tensor_f32<T: Scalar>(&self, name: &str) -> (r: Result<Vec<T>, Error>)
        requires
            self.wf(),
        ensures
            outcome(r) == tensor_result::<T>(self.contents(), self@, name@),
            r is Ok ==> r->Ok_0.len() == elements(self@.tensors[name@].ne),
    {
        let info: &TensorInfo = match self.tensors.get(name) {
            None => {
                return Err(Error::Model(ModelError::TensorNotFound(name.to_owned())));
            },
            Some(t) => t,
        };
        let n: usize = match info.checked_elems() {
            None => {
                return Err(Error::Gguf(GgufError::Oversized(name.to_owned())));
            },
            Some(n) => n,
        };
        let n_blocks: usize = n / info.dtype.block_size();
        let needed: u64 = match (n_blocks as u64).checked_mul(info.dtype.stored_bytes() as u64) {
            None => {
                return Err(Error::Gguf(GgufError::Oversized(name.to_owned())));
            },
            Some(b) => b,
        };
        let len: u64 = self.bytes.len() as u64;
        if self.data_start > len || info.offset > len - self.data_start || needed > len
            - self.data_start - info.offset {
            return Err(Error::Gguf(GgufError::Truncated { needed }));
        }
        let start: usize = (self.data_start + info.offset) as usize;
        let data: &[u8] = &self.bytes[start..start + needed as usize];
        let out: Vec<T> = decode_blocks(info.dtype, data, n, n_blocks);
        assert(out@ =~= tensor_values(self.contents(), self@, info@));
        Ok(out)
    }
}

/// The `n` elements of which the first come from `n_blocks` blocks of `data`;
/// the others are zero.
fn decode_blocks<T: Scalar>(dtype: GgufDType, data: &[u8], n: usize, n_blocks: usize) -> (out: Vec<
    T,
>)
    requires
        n_blocks == n / block_size_of(dtype),
        data.len() == n_blocks * stored_bytes_of(dtype),
    ensures
        out.len() == n,
        forall|i: int|
            0 <= i < n_blocks * block_size_of(dtype) ==> #[trigger] out[i] == stored_value::<T>(
                dtype,
                data@,
                i,
            ),
        forall|i: int| n_blocks * block_size_of(dtype) <= i < n ==> #[trigger] out[i] == zero::<T>(),
{
    let mut out: Vec<T> = Vec::new();
    let fill: T = T::ratio(0, 1);
    let mut i: usize = 0;
    while i < n
        invariant
            i <= n,
            out.len() == i,
            fill == zero::<T>(),
            forall|k: int| 0 <= k < i ==> #[trigger] out[k] == zero::<T>(),
        decreases n - i,
    {
        out.push(fill);
        i = i + 1;
    }
    match dtype {
        GgufDType::F32 => {
            let src: Vec<u32> = cast_bytes(data);
            let mut i: usize = 0;
            while i < n
                invariant
                    i <= n,
                    out.len() == n,
                    src.len() == n,
                    forall|k: int| 0 <= k < n ==> #[trigger] src[k] == u32_at(data@, k * 4),
                    forall|k: int|
                        0 <= k < i ==> #[trigger] out[k] == T::from_bits_spec(
                            u32_at(data@, 4 * k),
                        ),
                decreases n - i,
            {
                out[i] = T::from_bits(src[i]);
                i = i + 1;
            }
        },
        GgufDType::F16 => {
            let src: Vec<u16> = cast_bytes(data);
            let mut i: usize = 0;
            while i < n
                invariant
                    i <= n,
                    out.len() == n,
                    src.len() == n,
                    forall|k: int| 0 <= k < n ==> #[trigger] src[k] == u16_at(data@, k * 2),
                    forall|k: int|
                        0 <= k < i ==> #[trigger] out[k] == T::from_half_bits_spec(
                            u16_at(data@, 2 * k),
                        ),
                decreases n - i,
            {
                out[i] = T::from_half_bits(src[i]);
                i = i + 1;
            }
        },
        GgufDType::Q8_0 => {
            assert(n_blocks == n / 32);
            let whole: usize = n_blocks * 32;
            let mut i: usize = 0;
            while i < whole
                invariant
                    i <= whole <= n,
                    whole == n_blocks * 32,
                    out.len() == n,
                    data.len() == 34 * n_blocks,
                    forall|k: int|
                        0 <= k < i ==> #[trigger] out[k] == stored_value::<T>(
                            GgufDType::Q8_0,
                            data@,
                            k,
                        ),
                    forall|k: int| i <= k < n ==> #[trigger] out[k] == zero::<T>(),
                decreases whole - i,
            {
                let base: usize = 34 * (i / 32);
                let scale: T = T::from_half_bits(
                    data[base] as u16 + 0x100 * (data[base + 1] as u16),
                );
                let byte: u8 = data[base + 2 + i % 32];
                let q: i32 = if byte < 128 {
                    byte as i32
                } else {
                    byte as i32 - 256
                };
                out[i] = scale.times(T::ratio(q, 1));
                i = i + 1;
            }
        },
        GgufDType::Q4_K => {
            assert(n_blocks == n / 256);
            dequantize_q4_k(data, n_blocks, &mut out)
        },
        GgufDType::Q5_K => {
            assert(n_blocks == n / 256);
            dequantize_q5_k(data, n_blocks, &mut out)
        },
        GgufDType::Q6_K => {
            assert(n_blocks == n / 256);
            dequantize_q6_k(data, n_blocks, &mut out)
        },
        GgufDType::Q8_K => {
            assert(n_blocks == n / 256);
            dequantize_q8_k(data, n_blocks, &mut out)
        },
    }
    out
}

/// A plain fixed-width value that stands in the data in little-endian order.
pub trait Pod: Copy {
    /// How many bytes it takes.
    spec fn size() -> nat;

    /// The value whose bytes start at `at`.
    spec fn stored(bytes: Seq<u8>, at: int) -> Self;

    fn width() -> (r: usize)
        ensures
            r == Self::size(),
            r > 0,
    ;

    fn load(bytes: &[u8], at: usize) -> (r: Self)
        requires
            at + Self::size() <= bytes.len(),
        ensures
            r == Self::stored(bytes@, at as int),
    ;
}

impl Pod for u32 {
    open spec fn size() -> nat {
        4
    }

    open spec fn stored(bytes: Seq<u8>, at: int) -> Self {
        u32_at(bytes, at)
    }

    fn width() -> (r: usize) {
        4
    }

    fn load(bytes: &[u8], at: usize) -> (r: Self) {
        bytes[at] as u32 + 0x100 * (bytes[at + 1] as u32) + 0x1_0000 * (bytes[at + 2] as u32)
            + 0x100_0000 * (bytes[at + 3] as u32)
    }
}

impl Pod for u16 {
    open spec fn size() -> nat {
        2
    }

    open spec fn stored(bytes: Seq<u8>, at: int) -> Self {
        u16_at(bytes, at)
    }

    fn width() -> (r: usize) {
        2
    }

    fn load(bytes: &[u8], at: usize) -> (r: Self) {
        bytes[at] as u16 + 0x100 * (bytes[at + 1] as u16)
    }
}

/// The whole values that the bytes hold, one after the other.
pub fn cast_slice<P: Pod>(b: &[u8]) -> (r: Vec<P>)
    ensures
        r.len() == b.len() as nat / P::size(),
        forall|i: int|
            0 <= i < r.len() ==> #[trigger] r[i] == P::stored(b@, i * P::size()),
{
    let width: usize = P::width();
    let n: usize = b.len() / width;
    let mut out: Vec<P> = Vec::new();
    let mut i: usize = 0;
    while i < n
        invariant
            width == P::size(),
            width > 0,
            n == b.len() as nat / width as nat,
            i <= n,
            out.len() == i,
            forall|k: int| 0 <= k < i ==> #[trigger] out[k] == P::stored(b@, k * P::size()),
        decreases n - i,
    {
        assert(i * width + width <= b.len()) by (nonlinear_arith)
            requires
                i + 1 <= b.len() / width,
                width > 0,
        ;
        out.push(P::load(b, i * width));
        i = i + 1;
    }
    out
}

/// The values that a tensor's bytes hold.
pub fn cast_bytes<P: Pod>(b: &[u8]) -> (r: Vec<P>)
    ensures
        r.len() == b.len() as nat / P::size(),
        forall|i: int|
            0 <= i < r.len() ==> #[trigger] r[i] == P::stored(b@, i * P::size()),
{
    cast_slice(b)
}

/// Rounding up gives a multiple of the alignment, and the nearest one.
pub proof fn law_aligned(pos: int, align: int)
    requires
        pos >= 0,
        align > 0,
    ensures
        aligned(pos, align) % align == 0,
        pos <= aligned(pos, align) < pos + align,
        aligned(aligned(pos, align), align) == aligned(pos, align),
{
    let q = pos / align;
    assert(pos == q * align + pos % align && 0 <= pos % align < align) by (nonlinear_arith)
        requires
            align > 0,
            q == pos / align,
    ;
    if pos % align != 0 {
        assert(aligned(pos, align) == (q + 1) * align) by (nonlinear_arith)
            requires
                aligned(pos, align) == pos + align - pos % align,
                pos == q * align + pos % align,
        ;
        assert(((q + 1) * align) % align == 0) by (nonlinear_arith)
            requires
                align > 0,
        ;
    }
}

/// A header's metadata holds, under each key, the value of its last pair: one
/// more pair with the key replaces what was read before and touches no other.
pub proof fn law_last_pair_wins(
    so_far: Map<Seq<char>, Contents>,
    bytes: Seq<u8>,
    pos: int,
    other: Seq<char>,
)
    requires
        pair_step(bytes, pos).value is Ok,
    ensures
        ({
            let pair = pair_step(bytes, pos).value->Ok_0;
            let read = meta_step(so_far, bytes, pos, 1);
            &&& read.value is Ok
            &&& read.value->Ok_0.contains_key(pair.0)
            &&& read.value->Ok_0[pair.0] == pair.1
            &&& other != pair.0 ==> read.value->Ok_0.contains_key(other)
                == so_far.contains_key(other)
            &&& other != pair.0 && so_far.contains_key(other) ==> read.value->Ok_0[other]
                == so_far[other]
        }),
{
    reveal_with_fuel(meta_step, 2);
}

/// Reading a table of pairs in two parts is reading it at once.
pub proof fn law_meta_in_parts(
    so_far: Map<Seq<char>, Contents>,
    bytes: Seq<u8>,
    pos: int,
    first: nat,
    rest: nat,
)
    requires
        meta_step(so_far, bytes, pos, first).value is Ok,
    ensures
        ({
            let head = meta_step(so_far, bytes, pos, first);
            meta_step(so_far, bytes, pos, first + rest) == meta_step(
                head.value->Ok_0,
                bytes,
                head.pos,
                rest,
            )
        }),
    decreases first,
{
    if first > 0 {
        let pair = pair_step(bytes, pos);
        let p = pair.value->Ok_0;
        law_meta_in_parts(
            so_far.insert(p.0, p.1),
            bytes,
            pair.pos,
            (first - 1) as nat,
            rest,
        );
    }
}

} // verus!
