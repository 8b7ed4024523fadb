//! Reader for GGUF headers: the key/value metadata table and the tensor
//! descriptors that precede the tensor-data section.
//!
//! Only little-endian GGUF versions 2 and 3 are read. Tensor payloads are not
//! decoded. Floating-point metadata keeps its IEEE-754 bit pattern.

use vstd::prelude::*;
use vstd::bytes::{spec_u16_from_le_bytes, spec_u32_from_le_bytes, spec_u64_from_le_bytes, u16_from_le_bytes, u32_from_le_bytes, u64_from_le_bytes};
use vstd::utf8::{decode_utf8, valid_utf8};

use crate::text::string_from_utf8;

verus! {

/// The magic number `"GGUF"`, read as a little-endian `u32`.
pub const GGUF_MAGIC: u32 = 0x4655_4747;

/// Tensor-data alignment when the metadata declares none.
pub const DEFAULT_ALIGNMENT: u64 = 32;

/// Errors met while reading a GGUF header.
#[derive(Debug)]
pub enum GgufError {
    /// The file could not be opened or mapped.
    Io(String),
    /// The data does not start with the `GGUF` magic bytes.
    BadMagic,
    /// The GGUF version is not 2 or 3.
    UnsupportedVersion(u32),
    /// A read ran past the end of the data.
    UnexpectedEof,
    /// A metadata value used an unknown type tag.
    UnknownValueType(u32),
    /// A string field was not valid UTF-8.
    InvalidUtf8,
    /// A declared count or shape is implausible.
    Malformed(String),
}

/// A GGUF metadata value. Floats are held as their bit patterns.
#[derive(Debug)]
pub enum GgufValue {
    U8(u8),
    I8(i8),
    U16(u16),
    I16(i16),
    U32(u32),
    I32(i32),
    /// A 32-bit float, as its IEEE-754 bits.
    F32(u32),
    Bool(bool),
    String(String),
    U64(u64),
    I64(i64),
    /// A 64-bit float, as its IEEE-754 bits.
    F64(u64),
    Array(Vec<GgufValue>),
}

/// The mathematical content of a [`GgufValue`].
pub enum GgufV {
    U8(u8),
    I8(i8),
    U16(u16),
    I16(i16),
    U32(u32),
    I32(i32),
    F32(u32),
    Bool(bool),
    Str(Seq<char>),
    U64(u64),
    I64(i64),
    F64(u64),
    Array(Seq<GgufV>),
}

/// The content of a value.
pub open spec fn value_model(v: GgufValue) -> GgufV
    decreases v,
{
    match v {
        GgufValue::U8(x) => GgufV::U8(x),
        GgufValue::I8(x) => GgufV::I8(x),
        GgufValue::U16(x) => GgufV::U16(x),
        GgufValue::I16(x) => GgufV::I16(x),
        GgufValue::U32(x) => GgufV::U32(x),
        GgufValue::I32(x) => GgufV::I32(x),
        GgufValue::F32(x) => GgufV::F32(x),
        GgufValue::Bool(x) => GgufV::Bool(x),
        GgufValue::String(s) => GgufV::Str(s@),
        GgufValue::U64(x) => GgufV::U64(x),
        GgufValue::I64(x) => GgufV::I64(x),
        GgufValue::F64(x) => GgufV::F64(x),
        GgufValue::Array(a) => {
            proof {
                assert(decreases_to!(a => a@));
            }
            GgufV::Array(values_model(a@))
        },
    }
}

/// The contents of a sequence of values.
pub open spec fn values_model(s: Seq<GgufValue>) -> Seq<GgufV>
    decreases s,
{
    if s.len() == 0 {
        Seq::empty()
    } else {
        values_model(s.drop_last()).push(value_model(s.last()))
    }
}

/// The `(key, content)` pairs of a metadata table.
pub open spec fn entries_model(s: Seq<(String, GgufValue)>) -> Seq<(Seq<char>, GgufV)> {
    Seq::new(s.len(), |i: int| (s[i].0@, value_model(s[i].1)))
}

pub proof fn lemma_values_model(s: Seq<GgufValue>)
    ensures
        values_model(s).len() == s.len(),
        forall|i: int| 0 <= i < s.len() ==> #[trigger] values_model(s)[i] == value_model(s[i]),
    decreases s.len(),
{
    if s.len() > 0 {
        lemma_values_model(s.drop_last());
    }
}

impl View for GgufValue {
    type V = GgufV;

    open spec fn view(&self) -> GgufV {
        value_model(*self)
    }
}

/// The value as an unsigned integer, if it is one that fits.
pub open spec fn as_u64_of(v: GgufV) -> Option<u64> {
    match v {
        GgufV::U8(x) => Some(x as u64),
        GgufV::U16(x) => Some(x as u64),
        GgufV::U32(x) => Some(x as u64),
        GgufV::U64(x) => Some(x),
        GgufV::I8(x) => if x >= 0 { Some(x as u64) } else { None },
        GgufV::I16(x) => if x >= 0 { Some(x as u64) } else { None },
        GgufV::I32(x) => if x >= 0 { Some(x as u64) } else { None },
        GgufV::I64(x) => if x >= 0 { Some(x as u64) } else { None },
        _ => None,
    }
}

/// The value as a signed integer, if it is one that fits.
pub open spec fn as_i64_of(v: GgufV) -> Option<i64> {
    match v {
        GgufV::U8(x) => Some(x as i64),
        GgufV::U16(x) => Some(x as i64),
        GgufV::U32(x) => Some(x as i64),
        GgufV::U64(x) => if x <= i64::MAX { Some(x as i64) } else { None },
        GgufV::I8(x) => Some(x as i64),
        GgufV::I16(x) => Some(x as i64),
        GgufV::I32(x) => Some(x as i64),
        GgufV::I64(x) => Some(x),
        _ => None,
    }
}

impl GgufValue {
    /// The text, if this is a string.
    pub fn as_str(&self) -> (r: Option<&str>)
        ensures
            r is Some <==> self is String,
            r matches Some(s) ==> self@ == GgufV::Str(s@),
    {
        match self {
            GgufValue::String(s) => Some(s.as_str()),
            _ => None,
        }
    }

    /// Any integer variant as `u64`, if it is not negative.
    pub fn as_u64(&self) -> (r: Option<u64>)
        ensures
            r == as_u64_of(self@),
    {
        match self {
            GgufValue::U8(v) => Some(*v as u64),
            GgufValue::U16(v) => Some(*v as u64),
            GgufValue::U32(v) => Some(*v as u64),
            GgufValue::U64(v) => Some(*v),
            GgufValue::I8(v) => if *v >= 0 { Some(*v as u64) } else { None },
            GgufValue::I16(v) => if *v >= 0 { Some(*v as u64) } else { None },
            GgufValue::I32(v) => if *v >= 0 { Some(*v as u64) } else { None },
            GgufValue::I64(v) => if *v >= 0 { Some(*v as u64) } else { None },
            _ => None,
        }
    }

    /// Any integer variant as `i64`, if it fits.
    pub fn as_i64(&self) -> (r: Option<i64>)
        ensures
            r == as_i64_of(self@),
    {
        match self {
            GgufValue::U8(v) => Some(*v as i64),
            GgufValue::U16(v) => Some(*v as i64),
            GgufValue::U32(v) => Some(*v as i64),
            GgufValue::U64(v) => if *v <= i64::MAX as u64 { Some(*v as i64) } else { None },
            GgufValue::I8(v) => Some(*v as i64),
            GgufValue::I16(v) => Some(*v as i64),
            GgufValue::I32(v) => Some(*v as i64),
            GgufValue::I64(v) => Some(*v),
            _ => None,
        }
    }

    /// The flag, if this is a boolean.
    pub fn as_bool(&self) -> (r: Option<bool>)
        ensures
            r is Some <==> self is Bool,
            r matches Some(b) ==> self@ == GgufV::Bool(b),
    {
        match self {
            GgufValue::Bool(b) => Some(*b),
            _ => None,
        }
    }

    /// The elements, if this is an array.
    pub fn as_array(&self) -> (r: Option<&[GgufValue]>)
        ensures
            r is Some <==> self is Array,
            r matches Some(a) ==> self@ == GgufV::Array(values_model(a@)),
    {
        match self {
            GgufValue::Array(v) => Some(v.as_slice()),
            _ => None,
        }
    }
}

/// A ggml tensor element type tag.
#[allow(non_camel_case_types)]
#[derive(Debug, Clone, Copy, PartialEq, Eq, Structural)]
pub enum GgmlType {
    F32,
    F16,
    Q4_0,
    Q4_1,
    Q5_0,
    Q5_1,
    Q8_0,
    Q8_1,
    Q2_K,
    Q3_K,
    Q4_K,
    Q5_K,
    Q6_K,
    Q8_K,
    I8,
    I16,
    I32,
    I64,
    F64,
    BF16,
    /// A tag this reader does not name, kept as it was.
    Unknown(u32),
}

/// The type named by a raw ggml tag.
pub open spec fn ggml_type_of(v: u32) -> GgmlType {
    if v == 0 { GgmlType::F32 }
    else if v == 1 { GgmlType::F16 }
    else if v == 2 { GgmlType::Q4_0 }
    else if v == 3 { GgmlType::Q4_1 }
    else if v == 6 { GgmlType::Q5_0 }
    else if v == 7 { GgmlType::Q5_1 }
    else if v == 8 { GgmlType::Q8_0 }
    else if v == 9 { GgmlType::Q8_1 }
    else if v == 10 { GgmlType::Q2_K }
    else if v == 11 { GgmlType::Q3_K }
    else if v == 12 { GgmlType::Q4_K }
    else if v == 13 { GgmlType::Q5_K }
    else if v == 14 { GgmlType::Q6_K }
    else if v == 15 { GgmlType::Q8_K }
    else if v == 24 { GgmlType::I8 }
    else if v == 25 { GgmlType::I16 }
    else if v == 26 { GgmlType::I32 }
    else if v == 27 { GgmlType::I64 }
    else if v == 28 { GgmlType::F64 }
    else if v == 30 { GgmlType::BF16 }
    else { GgmlType::Unknown(v) }
}

/// The ggml type tags of the GGUF format: 0 is F32, 1 is F16, 2 and 3 are
/// Q4_0 and Q4_1, 6 to 9 are Q5_0, Q5_1, Q8_0 and Q8_1, 10 to 15 are the
/// K-quants Q2_K to Q8_K, 24 to 28 are I8, I16, I32, I64 and F64, and 30 is
/// BF16; every other tag is kept as an unknown type, and no two tags name
/// the same type.
pub proof fn lemma_ggml_type_table(v: u32, w: u32)
    ensures
        ggml_type_of(0) == GgmlType::F32,
        ggml_type_of(1) == GgmlType::F16,
        ggml_type_of(2) == GgmlType::Q4_0,
        ggml_type_of(3) == GgmlType::Q4_1,
        ggml_type_of(6) == GgmlType::Q5_0,
        ggml_type_of(7) == GgmlType::Q5_1,
        ggml_type_of(8) == GgmlType::Q8_0,
        ggml_type_of(9) == GgmlType::Q8_1,
        ggml_type_of(10) == GgmlType::Q2_K,
        ggml_type_of(11) == GgmlType::Q3_K,
        ggml_type_of(12) == GgmlType::Q4_K,
        ggml_type_of(13) == GgmlType::Q5_K,
        ggml_type_of(14) == GgmlType::Q6_K,
        ggml_type_of(15) == GgmlType::Q8_K,
        ggml_type_of(24) == GgmlType::I8,
        ggml_type_of(25) == GgmlType::I16,
        ggml_type_of(26) == GgmlType::I32,
        ggml_type_of(27) == GgmlType::I64,
        ggml_type_of(28) == GgmlType::F64,
        ggml_type_of(30) == GgmlType::BF16,
        (v <= 3 || (6 <= v <= 15) || (24 <= v <= 28) || v == 30) <==> !(ggml_type_of(v) is Unknown),
        ggml_type_of(v) is Unknown ==> ggml_type_of(v) == GgmlType::Unknown(v),
        ggml_type_of(v) == ggml_type_of(w) ==> v == w,
{
}

impl GgmlType {
    /// Maps a raw ggml type tag to a [`GgmlType`].
    pub fn from_u32(v: u32) -> (t: GgmlType)
        ensures
            t == ggml_type_of(v),
    {
        match v {
            0 => GgmlType::F32,
            1 => GgmlType::F16,
            2 => GgmlType::Q4_0,
            3 => GgmlType::Q4_1,
            6 => GgmlType::Q5_0,
            7 => GgmlType::Q5_1,
            8 => GgmlType::Q8_0,
            9 => GgmlType::Q8_1,
            10 => GgmlType::Q2_K,
            11 => GgmlType::Q3_K,
            12 => GgmlType::Q4_K,
            13 => GgmlType::Q5_K,
            14 => GgmlType::Q6_K,
            15 => GgmlType::Q8_K,
            24 => GgmlType::I8,
            25 => GgmlType::I16,
            26 => GgmlType::I32,
            27 => GgmlType::I64,
            28 => GgmlType::F64,
            30 => GgmlType::BF16,
            other => GgmlType::Unknown(other),
        }
    }
}

/// One tensor descriptor of a GGUF header.
#[derive(Debug, Clone)]
pub struct GgufTensorInfo {
    /// Tensor name.
    pub name: String,
    /// Dimensions, fastest-moving axis first.
    pub dimensions: Vec<u64>,
    /// Element or quantization type.
    pub ggml_type: GgmlType,
    /// Offset of the tensor inside the tensor-data section.
    pub offset: u64,
}

/// The content of a tensor descriptor.
pub struct TensorDesc {
    pub name: Seq<char>,
    pub dimensions: Seq<u64>,
    pub ggml_type: GgmlType,
    pub offset: u64,
}

pub open spec fn tensor_model(t: GgufTensorInfo) -> TensorDesc {
    TensorDesc { name: t.name@, dimensions: t.dimensions@, ggml_type: t.ggml_type, offset: t.offset }
}

pub open spec fn tensors_model(s: Seq<GgufTensorInfo>) -> Seq<TensorDesc> {
    Seq::new(s.len(), |i: int| tensor_model(s[i]))
}

/// Why a header is refused.
pub enum GgufFault {
    Eof,
    UnknownType(u32),
    Utf8,
    NestedArray,
    CountTooLarge,
    TooManyDims,
    BadMagic,
    Version(u32),
}

/// `e` is the error that reports `f`.
pub open spec fn reports(e: GgufError, f: GgufFault) -> bool {
    match f {
        GgufFault::Eof => e is UnexpectedEof,
        GgufFault::UnknownType(t) => e matches GgufError::UnknownValueType(u) && u == t,
        GgufFault::Utf8 => e is InvalidUtf8,
        GgufFault::NestedArray => e matches GgufError::Malformed(m) && m@ == "nested arrays are not allowed"@,
        GgufFault::CountTooLarge => e matches GgufError::Malformed(m) && m@
            == "declared tensor/metadata count exceeds file size"@,
        GgufFault::TooManyDims => e matches GgufError::Malformed(m) && m@ == "tensor has too many dimensions"@,
        GgufFault::BadMagic => e is BadMagic,
        GgufFault::Version(v) => e matches GgufError::UnsupportedVersion(u) && u == v,
    }
}

/// The little-endian integers stored at `p`, when the data reaches that far.
pub open spec fn read_u16(b: Seq<u8>, p: int) -> Option<u16> {
    if 0 <= p && p + 2 <= b.len() { Some(spec_u16_from_le_bytes(b.subrange(p, p + 2))) } else { None }
}

pub open spec fn read_u32(b: Seq<u8>, p: int) -> Option<u32> {
    if 0 <= p && p + 4 <= b.len() { Some(spec_u32_from_le_bytes(b.subrange(p, p + 4))) } else { None }
}

pub open spec fn read_u64(b: Seq<u8>, p: int) -> Option<u64> {
    if 0 <= p && p + 8 <= b.len() { Some(spec_u64_from_le_bytes(b.subrange(p, p + 8))) } else { None }
}

/// A length-prefixed UTF-8 string at `p`, and the position after it.
pub open spec fn string_at(b: Seq<u8>, p: int) -> Result<(Seq<char>, int), GgufFault> {
    match read_u64(b, p) {
        None => Err(GgufFault::Eof),
        Some(n) => {
            if p + 8 + n > b.len() {
                Err(GgufFault::Eof)
            } else {
                let raw = b.subrange(p + 8, p + 8 + n);
                if valid_utf8(raw) {
                    Ok((decode_utf8(raw), p + 8 + n))
                } else {
                    Err(GgufFault::Utf8)
                }
            }
        },
    }
}

/// A value of a non-array type `ty` at `p`.
pub open spec fn scalar_at(b: Seq<u8>, p: int, ty: u32) -> Result<(GgufV, int), GgufFault> {
    if ty == 0 || ty == 1 || ty == 7 {
        if 0 <= p < b.len() {
            let x = b[p];
            Ok((if ty == 0 { GgufV::U8(x) } else if ty == 1 { GgufV::I8(x as i8) } else { GgufV::Bool(x != 0) }, p + 1))
        } else {
            Err(GgufFault::Eof)
        }
    } else if ty == 2 || ty == 3 {
        match read_u16(b, p) {
            None => Err(GgufFault::Eof),
            Some(x) => Ok((if ty == 2 { GgufV::U16(x) } else { GgufV::I16(x as i16) }, p + 2)),
        }
    } else if ty == 4 || ty == 5 || ty == 6 {
        match read_u32(b, p) {
            None => Err(GgufFault::Eof),
            Some(x) => Ok((if ty == 4 { GgufV::U32(x) } else if ty == 5 { GgufV::I32(x as i32) } else { GgufV::F32(x) }, p + 4)),
        }
    } else if ty == 8 {
        match string_at(b, p) {
            Err(e) => Err(e),
            Ok((s, q)) => Ok((GgufV::Str(s), q)),
        }
    } else if ty == 10 || ty == 11 || ty == 12 {
        match read_u64(b, p) {
            None => Err(GgufFault::Eof),
            Some(x) => Ok((if ty == 10 { GgufV::U64(x) } else if ty == 11 { GgufV::I64(x as i64) } else { GgufV::F64(x) }, p + 8)),
        }
    } else {
        Err(GgufFault::UnknownType(ty))
    }
}

/// `n` more values of type `ty` from `p`, after those already read in `acc`.
pub open spec fn items_at(b: Seq<u8>, p: int, ty: u32, n: nat, acc: Seq<GgufV>) -> Result<(Seq<GgufV>, int), GgufFault>
    decreases n,
{
    if n == 0 {
        Ok((acc, p))
    } else {
        match scalar_at(b, p, ty) {
            Err(e) => Err(e),
            Ok((v, q)) => items_at(b, q, ty, (n - 1) as nat, acc.push(v)),
        }
    }
}

/// A value of type `ty` at `p`; arrays hold values of one non-array type.
pub open spec fn value_at(b: Seq<u8>, p: int, ty: u32) -> Result<(GgufV, int), GgufFault> {
    if ty == 9 {
        match read_u32(b, p) {
            None => Err(GgufFault::Eof),
            Some(et) => {
                if et == 9 {
                    Err(GgufFault::NestedArray)
                } else {
                    match read_u64(b, p + 4) {
                        None => Err(GgufFault::Eof),
                        Some(n) => match items_at(b, p + 12, et, n as nat, Seq::empty()) {
                            Err(e) => Err(e),
                            Ok((vs, q)) => Ok((GgufV::Array(vs), q)),
                        },
                    }
                }
            },
        }
    } else {
        scalar_at(b, p, ty)
    }
}

/// One metadata entry (key, type tag, value) at `p`.
pub open spec fn entry_at(b: Seq<u8>, p: int) -> Result<((Seq<char>, GgufV), int), GgufFault> {
    match string_at(b, p) {
        Err(e) => Err(e),
        Ok((k, q)) => match read_u32(b, q) {
            None => Err(GgufFault::Eof),
            Some(ty) => match value_at(b, q + 4, ty) {
                Err(e) => Err(e),
                Ok((v, r)) => Ok(((k, v), r)),
            },
        },
    }
}

/// `n` more metadata entries from `p`, after those in `acc`.
pub open spec fn entries_at(b: Seq<u8>, p: int, n: nat, acc: Seq<(Seq<char>, GgufV)>) -> Result<(Seq<(Seq<char>, GgufV)>, int), GgufFault>
    decreases n,
{
    if n == 0 {
        Ok((acc, p))
    } else {
        match entry_at(b, p) {
            Err(e) => Err(e),
            Ok((kv, q)) => entries_at(b, q, (n - 1) as nat, acc.push(kv)),
        }
    }
}

/// `n` more dimensions from `p`, after those in `acc`.
pub open spec fn dims_at(b: Seq<u8>, p: int, n: nat, acc: Seq<u64>) -> Option<(Seq<u64>, int)>
    decreases n,
{
    if n == 0 {
        Some((acc, p))
    } else {
        match read_u64(b, p) {
            None => None,
            Some(d) => dims_at(b, p + 8, (n - 1) as nat, acc.push(d)),
        }
    }
}

/// One tensor descriptor at `p`; a rank above `limit` is refused.
pub open spec fn tensor_at(b: Seq<u8>, p: int, limit: int) -> Result<(TensorDesc, int), GgufFault> {
    match string_at(b, p) {
        Err(e) => Err(e),
        Ok((name, q)) => match read_u32(b, q) {
            None => Err(GgufFault::Eof),
            Some(nd) => {
                if nd > limit {
                    Err(GgufFault::TooManyDims)
                } else {
                    match dims_at(b, q + 4, nd as nat, Seq::empty()) {
                        None => Err(GgufFault::Eof),
                        Some((dims, r)) => match read_u32(b, r) {
                            None => Err(GgufFault::Eof),
                            Some(t) => match read_u64(b, r + 4) {
                                None => Err(GgufFault::Eof),
                                Some(off) => Ok((
                                    TensorDesc { name, dimensions: dims, ggml_type: ggml_type_of(t), offset: off },
                                    r + 12,
                                )),
                            },
                        },
                    }
                }
            },
        },
    }
}

/// `n` more tensor descriptors from `p`, after those in `acc`.
pub open spec fn tensors_at(b: Seq<u8>, p: int, n: nat, limit: int, acc: Seq<TensorDesc>) -> Result<(Seq<TensorDesc>, int), GgufFault>
    decreases n,
{
    if n == 0 {
        Ok((acc, p))
    } else {
        match tensor_at(b, p, limit) {
            Err(e) => Err(e),
            Ok((t, q)) => tensors_at(b, q, (n - 1) as nat, limit, acc.push(t)),
        }
    }
}

/// Index of the first entry of `md` whose key is `key`, looking from `i` on.
pub open spec fn first_key<V>(md: Seq<(Seq<char>, V)>, key: Seq<char>, i: int) -> Option<int>
    decreases md.len() - i,
{
    if i < 0 || i >= md.len() {
        None
    } else if md[i].0 == key {
        Some(i)
    } else {
        first_key(md, key, i + 1)
    }
}

/// The alignment that the metadata declares: the first `general.alignment`
/// entry, when it holds a non-zero unsigned integer, else 32.
pub open spec fn alignment_of(md: Seq<(Seq<char>, GgufV)>) -> u64 {
    match first_key(md, "general.alignment"@, 0) {
        Some(i) => match as_u64_of(md[i].1) {
            Some(a) => if a != 0 { a } else { DEFAULT_ALIGNMENT },
            None => DEFAULT_ALIGNMENT,
        },
        None => DEFAULT_ALIGNMENT,
    }
}

/// `p` rounded up to a multiple of `a`.
pub open spec fn align_up(p: int, a: int) -> int {
    if p % a == 0 { p } else { p - p % a + a }
}

/// What a GGUF header holds.
pub struct GgufHeader {
    pub version: u32,
    pub metadata: Seq<(Seq<char>, GgufV)>,
    pub tensors: Seq<TensorDesc>,
    pub alignment: u64,
    pub data_offset: int,
}

/// The header read from `b`, or why it is refused.
pub open spec fn gguf_header(b: Seq<u8>) -> Result<GgufHeader, GgufFault> {
    match read_u32(b, 0) {
        None => Err(GgufFault::Eof),
        Some(magic) => if magic != GGUF_MAGIC {
            Err(GgufFault::BadMagic)
        } else {
            match read_u32(b, 4) {
                None => Err(GgufFault::Eof),
                Some(version) => if version != 2 && version != 3 {
                    Err(GgufFault::Version(version))
                } else {
                    match (read_u64(b, 8), read_u64(b, 16)) {
                        (Some(tc), Some(kc)) => if tc > b.len() || kc > b.len() {
                            Err(GgufFault::CountTooLarge)
                        } else {
                            gguf_body(b, version, tc as nat, kc as nat)
                        },
                        _ => Err(GgufFault::Eof),
                    }
                },
            }
        },
    }
}

/// The metadata and tensor tables after the fixed 24-byte prefix.
pub open spec fn gguf_body(b: Seq<u8>, version: u32, tc: nat, kc: nat) -> Result<GgufHeader, GgufFault> {
    match entries_at(b, 24, kc, Seq::empty()) {
        Err(e) => Err(e),
        Ok((md, p)) => match tensors_at(b, p, tc, b.len() as int, Seq::empty()) {
            Err(e) => Err(e),
            Ok((ts, q)) => {
                let a = alignment_of(md);
                Ok(GgufHeader { version, metadata: md, tensors: ts, alignment: a, data_offset: align_up(q, a as int) })
            },
        },
    }
}

fn take_u16(b: &[u8], p: usize) -> (r: Option<u16>)
    ensures
        r == read_u16(b@, p as int),
        r is Some <==> p + 2 <= b.len(),
{
    if p <= b.len() && b.len() - p >= 2 {
        let s = &b[p..p + 2];
        assert(s@ == b@.subrange(p as int, p + 2));
        Some(u16_from_le_bytes(s))
    } else {
        None
    }
}

fn take_u32(b: &[u8], p: usize) -> (r: Option<u32>)
    ensures
        r == read_u32(b@, p as int),
        r is Some <==> p + 4 <= b.len(),
{
    if p <= b.len() && b.len() - p >= 4 {
        let s = &b[p..p + 4];
        assert(s@ == b@.subrange(p as int, p + 4));
        Some(u32_from_le_bytes(s))
    } else {
        None
    }
}

fn take_u64(b: &[u8], p: usize) -> (r: Option<u64>)
    ensures
        r == read_u64(b@, p as int),
        r is Some <==> p + 8 <= b.len(),
{
    if p <= b.len() && b.len() - p >= 8 {
        let s = &b[p..p + 8];
        assert(s@ == b@.subrange(p as int, p + 8));
        Some(u64_from_le_bytes(s))
    } else {
        None
    }
}

fn read_string(b: &[u8], p: usize) -> (r: Result<(String, usize), GgufError>)
    ensures
        r is Ok <==> string_at(b@, p as int) is Ok,
        r matches Ok((s, q)) ==> string_at(b@, p as int) == Ok::<(Seq<char>, int), GgufFault>((s@, q as int)),
        r matches Err(e) ==> string_at(b@, p as int) matches Err(f) && reports(e, f),
        r matches Ok((_, q)) ==> q <= b.len(),
{
    let n = match take_u64(b, p) {
        None => return Err(GgufError::UnexpectedEof),
        Some(n) => n,
    };
    let q = p + 8;
    if n > (b.len() - q) as u64 {
        return Err(GgufError::UnexpectedEof);
    }
    let end = q + n as usize;
    let raw = vstd::slice::slice_to_vec(&b[q..end]);
    assert(raw@ == b@.subrange(q as int, end as int));
    match string_from_utf8(raw) {
        Some(s) => Ok((s, end)),
        None => Err(GgufError::InvalidUtf8),
    }
}

fn read_scalar(b: &[u8], p: usize, ty: u32) -> (r: Result<(GgufValue, usize), GgufError>)
    ensures
        r is Ok <==> scalar_at(b@, p as int, ty) is Ok,
        r matches Ok((v, q)) ==> scalar_at(b@, p as int, ty) == Ok::<(GgufV, int), GgufFault>((v@, q as int)),
        r matches Err(e) ==> scalar_at(b@, p as int, ty) matches Err(f) && reports(e, f),
        r matches Ok((_, q)) ==> q <= b.len(),
{
    if ty == 0 || ty == 1 || ty == 7 {
        if p < b.len() {
            let x = b[p];
            let v = if ty == 0 {
                GgufValue::U8(x)
            } else if ty == 1 {
                GgufValue::I8(x as i8)
            } else {
                GgufValue::Bool(x != 0)
            };
            Ok((v, p + 1))
        } else {
            Err(GgufError::UnexpectedEof)
        }
    } else if ty == 2 || ty == 3 {
        match take_u16(b, p) {
            None => Err(GgufError::UnexpectedEof),
            Some(x) => Ok((if ty == 2 { GgufValue::U16(x) } else { GgufValue::I16(x as i16) }, p + 2)),
        }
    } else if ty == 4 || ty == 5 || ty == 6 {
        match take_u32(b, p) {
            None => Err(GgufError::UnexpectedEof),
            Some(x) => Ok((
                if ty == 4 {
                    GgufValue::U32(x)
                } else if ty == 5 {
                    GgufValue::I32(x as i32)
                } else {
                    GgufValue::F32(x)
                },
                p + 4,
            )),
        }
    } else if ty == 8 {
        let (s, q) = read_string(b, p)?;
        Ok((GgufValue::String(s), q))
    } else if ty == 10 || ty == 11 || ty == 12 {
        match take_u64(b, p) {
            None => Err(GgufError::UnexpectedEof),
            Some(x) => Ok((
                if ty == 10 {
                    GgufValue::U64(x)
                } else if ty == 11 {
                    GgufValue::I64(x as i64)
                } else {
                    GgufValue::F64(x)
                },
                p + 8,
            )),
        }
    } else {
        Err(GgufError::UnknownValueType(ty))
    }
}

fn read_value(b: &[u8], p: usize, ty: u32) -> (r: Result<(GgufValue, usize), GgufError>)
    ensures
        r is Ok <==> value_at(b@, p as int, ty) is Ok,
        r matches Ok((v, q)) ==> value_at(b@, p as int, ty) == Ok::<(GgufV, int), GgufFault>((v@, q as int)),
        r matches Err(e) ==> value_at(b@, p as int, ty) matches Err(f) && reports(e, f),
        r matches Ok((_, q)) ==> q <= b.len(),
{
    if ty != 9 {
        return read_scalar(b, p, ty);
    }
    let et = match take_u32(b, p) {
        None => return Err(GgufError::UnexpectedEof),
        Some(t) => t,
    };
    if et == 9 {
        return Err(GgufError::Malformed("nested arrays are not allowed".to_owned()));
    }
    let n = match take_u64(b, p + 4) {
        None => return Err(GgufError::UnexpectedEof),
        Some(n) => n,
    };
    let mut items: Vec<GgufValue> = Vec::new();
    let mut pos = p + 12;
    let mut i: u64 = 0;
    proof {
        assert(values_model(items@) =~= Seq::<GgufV>::empty());
    }
    while i < n
        invariant
            i <= n,
            ty == 9,
            et != 9,
            pos <= b.len(),
            read_u32(b@, p as int) == Some(et),
            read_u64(b@, p + 4) == Some(n),
            items_at(b@, p + 12, et, n as nat, Seq::empty()) == items_at(
                b@,
                pos as int,
                et,
                (n - i) as nat,
                values_model(items@),
            ),
        decreases n - i,
    {
        let (v, q) = read_scalar(b, pos, et)?;
        let ghost before = items@;
        items.push(v);
        proof {
            assert(items@.drop_last() =~= before);
        }
        pos = q;
        i = i + 1;
    }
    Ok((GgufValue::Array(items), pos))
}

fn read_entry(b: &[u8], p: usize) -> (r: Result<((String, GgufValue), usize), GgufError>)
    ensures
        r is Ok <==> entry_at(b@, p as int) is Ok,
        r matches Ok((kv, q)) ==> entry_at(b@, p as int) == Ok::<((Seq<char>, GgufV), int), GgufFault>(
            ((kv.0@, kv.1@), q as int),
        ),
        r matches Err(e) ==> entry_at(b@, p as int) matches Err(f) && reports(e, f),
        r matches Ok((_, q)) ==> q <= b.len(),
{
    let (key, q) = read_string(b, p)?;
    let ty = match take_u32(b, q) {
        None => return Err(GgufError::UnexpectedEof),
        Some(t) => t,
    };
    let (value, r) = read_value(b, q + 4, ty)?;
    Ok(((key, value), r))
}

fn read_dims(b: &[u8], p: usize, n: u32) -> (r: Option<(Vec<u64>, usize)>)
    requires
        p <= b.len(),
    ensures
        r is Some <==> dims_at(b@, p as int, n as nat, Seq::empty()) is Some,
        r matches Some((d, q)) ==> dims_at(b@, p as int, n as nat, Seq::empty()) == Some((d@, q as int)),
        r matches Some((_, q)) ==> q <= b.len(),
{
    let mut dims: Vec<u64> = Vec::new();
    let mut pos = p;
    let mut k: u32 = 0;
    while k < n
        invariant
            k <= n,
            p <= pos <= b.len(),
            dims_at(b@, p as int, n as nat, Seq::empty()) == dims_at(b@, pos as int, (n - k) as nat, dims@),
        decreases n - k,
    {
        let d = match take_u64(b, pos) {
            None => return None,
            Some(d) => d,
        };
        dims.push(d);
        pos = pos + 8;
        k = k + 1;
    }
    Some((dims, pos))
}

fn read_tensor(b: &[u8], p: usize, limit: u64) -> (r: Result<(GgufTensorInfo, usize), GgufError>)
    ensures
        r is Ok <==> tensor_at(b@, p as int, limit as int) is Ok,
        r matches Ok((t, q)) ==> tensor_at(b@, p as int, limit as int) == Ok::<(TensorDesc, int), GgufFault>(
            (tensor_model(t), q as int),
        ),
        r matches Err(e) ==> tensor_at(b@, p as int, limit as int) matches Err(f) && reports(e, f),
        r matches Ok((_, q)) ==> q <= b.len(),
{
    let (name, q) = read_string(b, p)?;
    let nd = match take_u32(b, q) {
        None => return Err(GgufError::UnexpectedEof),
        Some(n) => n,
    };
    if nd as u64 > limit {
        return Err(GgufError::Malformed("tensor has too many dimensions".to_owned()));
    }
    let (dimensions, r) = match read_dims(b, q + 4, nd) {
        None => return Err(GgufError::UnexpectedEof),
        Some(x) => x,
    };
    let t = match take_u32(b, r) {
        None => return Err(GgufError::UnexpectedEof),
        Some(t) => t,
    };
    let offset = match take_u64(b, r + 4) {
        None => return Err(GgufError::UnexpectedEof),
        Some(o) => o,
    };
    let info = GgufTensorInfo { name, dimensions, ggml_type: GgmlType::from_u32(t), offset };
    Ok((info, r + 12))
}

/// Index of the first entry of `md` whose key is `key`.
fn find_entry(md: &Vec<(String, GgufValue)>, key: &str) -> (r: Option<usize>)
    ensures
        r is Some <==> first_key(entries_model(md@), key@, 0) is Some,
        r matches Some(i) ==> first_key(entries_model(md@), key@, 0) == Some(i as int) && i < md.len(),
{
    let k = key.to_owned();
    let mut i: usize = 0;
    while i < md.len()
        invariant
            i <= md.len(),
            k@ == key@,
            first_key(entries_model(md@), key@, 0) == first_key(entries_model(md@), key@, i as int),
        decreases md.len() - i,
    {
        if md[i].0 == k {
            return Some(i);
        }
        i = i + 1;
    }
    None
}

/// `align_up(p, a)` is the least multiple of `a` that is not below `p`.
pub proof fn lemma_align_up(p: int, a: int)
    requires
        0 <= p,
        0 < a,
    ensures
        align_up(p, a) % a == 0,
        p <= align_up(p, a) < p + a,
{
    let q = p / a;
    let r = p % a;
    assert(p == a * q + r && 0 <= r < a) by (nonlinear_arith)
        requires
            0 < a,
            q == p / a,
            r == p % a,
    ;
    if r != 0 {
        assert((p - r + a) % a == 0) by (nonlinear_arith)
            requires
                0 < a,
                p == a * q + r,
        {
            assert(p - r + a == a * (q + 1));
        }
    }
}

/// Index of the first descriptor of `ts` named `name`, looking from `i` on.
pub open spec fn first_named(ts: Seq<TensorDesc>, name: Seq<char>, i: int) -> Option<int>
    decreases ts.len() - i,
{
    if i < 0 || i >= ts.len() {
        None
    } else if ts[i].name == name {
        Some(i)
    } else {
        first_named(ts, name, i + 1)
    }
}

/// A parsed GGUF header: version, metadata table and tensor descriptors.
pub struct GgufFile {
    version: u32,
    metadata: Vec<(String, GgufValue)>,
    tensors: Vec<GgufTensorInfo>,
    alignment: u64,
    tensor_data_offset: u64,
}

impl GgufFile {
    /// What the file's header holds.
    pub closed spec fn header(&self) -> GgufHeader {
        GgufHeader {
            version: self.version,
            metadata: entries_model(self.metadata@),
            tensors: tensors_model(self.tensors@),
            alignment: self.alignment,
            data_offset: self.tensor_data_offset as int,
        }
    }

    /// Parses the GGUF header at the start of `bytes`.
    pub fn parse(bytes: &[u8]) -> (r: Result<GgufFile, GgufError>)
        requires
            bytes@.len() <= isize::MAX,
        ensures
            r is Ok <==> gguf_header(bytes@) is Ok,
            r matches Ok(f) ==> gguf_header(bytes@) == Ok::<GgufHeader, GgufFault>(f.header()),
            r matches Err(e) ==> gguf_header(bytes@) matches Err(x) && reports(e, x),
    {
        let magic = match take_u32(bytes, 0) {
            None => return Err(GgufError::UnexpectedEof),
            Some(m) => m,
        };
        if magic != GGUF_MAGIC {
            return Err(GgufError::BadMagic);
        }
        let version = match take_u32(bytes, 4) {
            None => return Err(GgufError::UnexpectedEof),
            Some(v) => v,
        };
        if version != 2 && version != 3 {
            return Err(GgufError::UnsupportedVersion(version));
        }
        let tc = match take_u64(bytes, 8) {
            None => return Err(GgufError::UnexpectedEof),
            Some(n) => n,
        };
        let kc = match take_u64(bytes, 16) {
            None => return Err(GgufError::UnexpectedEof),
            Some(n) => n,
        };
        let max = bytes.len() as u64;
        if tc > max || kc > max {
            return Err(GgufError::Malformed("declared tensor/metadata count exceeds file size".to_owned()));
        }
        assert(gguf_header(bytes@) == gguf_body(bytes@, version, tc as nat, kc as nat));
        let mut metadata: Vec<(String, GgufValue)> = Vec::new();
        let mut pos: usize = 24;
        let mut i: u64 = 0;
        proof {
            assert(entries_model(metadata@) =~= Seq::<(Seq<char>, GgufV)>::empty());
        }
        while i < kc
            invariant
                i <= kc,
                pos <= bytes.len(),
                gguf_header(bytes@) == gguf_body(bytes@, version, tc as nat, kc as nat),
                entries_at(bytes@, 24, kc as nat, Seq::empty()) == entries_at(
                    bytes@,
                    pos as int,
                    (kc - i) as nat,
                    entries_model(metadata@),
                ),
            decreases kc - i,
        {
            let (kv, q) = read_entry(bytes, pos)?;
            let ghost before = metadata@;
            metadata.push(kv);
            proof {
                assert(entries_model(metadata@) =~= entries_model(before).push((kv.0@, kv.1@)));
            }
            pos = q;
            i = i + 1;
        }
        let ghost md_end = pos as int;
        let mut tensors: Vec<GgufTensorInfo> = Vec::new();
        let mut j: u64 = 0;
        proof {
            assert(tensors_model(tensors@) =~= Seq::<TensorDesc>::empty());
        }
        while j < tc
            invariant
                j <= tc,
                pos <= bytes.len(),
                max == bytes.len(),
                gguf_header(bytes@) == gguf_body(bytes@, version, tc as nat, kc as nat),
                entries_at(bytes@, 24, kc as nat, Seq::empty()) == Ok::<(Seq<(Seq<char>, GgufV)>, int), GgufFault>(
                    (entries_model(metadata@), md_end),
                ),
                tensors_at(bytes@, md_end, tc as nat, bytes.len() as int, Seq::empty()) == tensors_at(
                    bytes@,
                    pos as int,
                    (tc - j) as nat,
                    bytes.len() as int,
                    tensors_model(tensors@),
                ),
            decreases tc - j,
        {
            let (t, q) = read_tensor(bytes, pos, max)?;
            let ghost before = tensors@;
            tensors.push(t);
            proof {
                assert(tensors_model(tensors@) =~= tensors_model(before).push(tensor_model(t)));
            }
            pos = q;
            j = j + 1;
        }
        let mut alignment = DEFAULT_ALIGNMENT;
        match find_entry(&metadata, "general.alignment") {
            Some(k) => {
                match metadata[k].1.as_u64() {
                    Some(a) => {
                        if a != 0 {
                            alignment = a;
                        }
                    },
                    None => {},
                }
            },
            None => {},
        }
        assert(alignment == alignment_of(entries_model(metadata@)));
        let p = pos as u64;
        let rem = p % alignment;
        let offset = if rem == 0 {
            p
        } else {
            proof {
                lemma_align_up(p as int, alignment as int);
                assert(rem <= p && (p - rem > 0 ==> p - rem >= alignment)) by (nonlinear_arith)
                    requires
                        alignment > 0,
                        rem == p % alignment,
                ;
                assert(p <= isize::MAX);
            }
            p - rem + alignment
        };
        let f = GgufFile { version, metadata, tensors, alignment, tensor_data_offset: offset };
        proof {
            assert(f.header().data_offset == align_up(pos as int, alignment as int));
        }
        Ok(f)
    }

    /// The GGUF format version (2 or 3).
    pub fn version(&self) -> (v: u32)
        ensures
            v == self.header().version,
    {
        self.version
    }

    /// The tensor-data alignment (`general.alignment`, default 32).
    pub fn alignment(&self) -> (a: u64)
        ensures
            a == self.header().alignment,
    {
        self.alignment
    }

    /// Absolute byte offset where the tensor-data section begins.
    pub fn tensor_data_offset(&self) -> (o: u64)
        ensures
            o == self.header().data_offset,
    {
        self.tensor_data_offset
    }

    /// All metadata entries, in file order.
    pub fn metadata(&self) -> (m: &[(String, GgufValue)])
        ensures
            entries_model(m@) == self.header().metadata,
    {
        self.metadata.as_slice()
    }

    /// The value of the first metadata entry whose key is `key`.
    pub fn get(&self, key: &str) -> (r: Option<&GgufValue>)
        ensures
            r is Some <==> first_key(self.header().metadata, key@, 0) is Some,
            r matches Some(v) ==> first_key(self.header().metadata, key@, 0) matches Some(i)
                && v@ == self.header().metadata[i].1,
    {
        match find_entry(&self.metadata, key) {
            Some(i) => Some(&self.metadata[i].1),
            None => None,
        }
    }

    /// The text of `general.architecture`, when it is a string.
    pub fn architecture(&self) -> (r: Option<&str>)
        ensures
            r is Some <==> (first_key(self.header().metadata, "general.architecture"@, 0) matches Some(i)
                && self.header().metadata[i].1 is Str),
            r matches Some(s) ==> first_key(self.header().metadata, "general.architecture"@, 0) matches Some(i)
                && self.header().metadata[i].1 == GgufV::Str(s@),
    {
        match self.get("general.architecture") {
            Some(v) => v.as_str(),
            None => None,
        }
    }

    /// All tensor descriptors, in file order.
    pub fn tensors(&self) -> (t: &[GgufTensorInfo])
        ensures
            tensors_model(t@) == self.header().tensors,
    {
        self.tensors.as_slice()
    }

    /// The first tensor descriptor named `name`.
    pub fn tensor(&self, name: &str) -> (r: Option<&GgufTensorInfo>)
        ensures
            r is Some <==> first_named(self.header().tensors, name@, 0) is Some,
            r matches Some(t) ==> first_named(self.header().tensors, name@, 0) matches Some(i)
                && tensor_model(*t) == self.header().tensors[i],
    {
        let n = name.to_owned();
        let mut i: usize = 0;
        while i < self.tensors.len()
            invariant
                i <= self.tensors.len(),
                n@ == name@,
                first_named(self.header().tensors, name@, 0) == first_named(self.header().tensors, name@, i as int),
            decreases self.tensors.len() - i,
        {
            if self.tensors[i].name == n {
                return Some(&self.tensors[i]);
            }
            i = i + 1;
        }
        None
    }

    /// Number of tensors described by the header.
    pub fn len(&self) -> (n: usize)
        ensures
            n == self.header().tensors.len(),
    {
        self.tensors.len()
    }

    /// Whether the header describes no tensors.
    pub fn is_empty(&self) -> (b: bool)
        ensures
            b == (self.header().tensors.len() == 0),
    {
        self.tensors.len() == 0
    }
}

/// A header that is read has a non-zero alignment, and its tensor data
/// starts at the first multiple of that alignment past the descriptors.
pub proof fn lemma_data_offset_aligned(b: Seq<u8>)
    requires
        gguf_header(b) is Ok,
    ensures
        gguf_header(b)->Ok_0.alignment > 0,
        gguf_header(b)->Ok_0.data_offset % (gguf_header(b)->Ok_0.alignment as int) == 0,
        gguf_header(b)->Ok_0.data_offset >= 24,
{
    let tc = read_u64(b, 8)->Some_0;
    let kc = read_u64(b, 16)->Some_0;
    lemma_entries_advance(b, 24, kc as nat, Seq::empty());
    let (md, p) = entries_at(b, 24, kc as nat, Seq::empty())->Ok_0;
    lemma_tensors_advance(b, p, tc as nat, b.len() as int, Seq::empty());
    let (ts, q) = tensors_at(b, p, tc as nat, b.len() as int, Seq::empty())->Ok_0;
    lemma_align_up(q, alignment_of(md) as int);
}

/// The offset just past the tensor descriptor table, when the metadata and
/// tensor tables can be read.
pub open spec fn tables_end(b: Seq<u8>) -> Option<int> {
    match (read_u64(b, 8), read_u64(b, 16)) {
        (Some(tc), Some(kc)) => match entries_at(b, 24, kc as nat, Seq::empty()) {
            Ok((md, p)) => match tensors_at(b, p, tc as nat, b.len() as int, Seq::empty()) {
                Ok((ts, q)) => Some(q),
                Err(_) => None,
            },
            Err(_) => None,
        },
        _ => None,
    }
}

/// What reading a GGUF header promises: a wrong magic number is refused as
/// such, so is a version other than 2 or 3, and a header that is read has
/// an alignment of at least 1 (`general.alignment` when it is a nonzero
/// integer, else 32) and its data starts at the end of the descriptor table
/// rounded up to that alignment.
pub proof fn lemma_gguf_header_outcomes(b: Seq<u8>)
    ensures
        (read_u32(b, 0) is Some && read_u32(b, 0)->Some_0 != GGUF_MAGIC) ==> gguf_header(b) == Err::<GgufHeader, GgufFault>(GgufFault::BadMagic),
        (read_u32(b, 0) == Some(GGUF_MAGIC) && read_u32(b, 4) is Some && read_u32(b, 4)->Some_0 != 2 && read_u32(b, 4)->Some_0 != 3)
            ==> gguf_header(b) == Err::<GgufHeader, GgufFault>(GgufFault::Version(read_u32(b, 4)->Some_0)),
        gguf_header(b) matches Ok(h) ==> {
            &&& h.alignment >= 1
            &&& h.alignment == alignment_of(h.metadata)
            &&& tables_end(b) is Some
            &&& h.data_offset == align_up(tables_end(b)->Some_0, h.alignment as int)
            &&& h.data_offset % (h.alignment as int) == 0
        },
{
    if gguf_header(b) is Ok {
        lemma_data_offset_aligned(b);
    }
}

proof fn lemma_items_advance(b: Seq<u8>, p: int, ty: u32, n: nat, acc: Seq<GgufV>)
    ensures
        items_at(b, p, ty, n, acc) matches Ok((_, q)) ==> q >= p,
    decreases n,
{
    if n > 0 {
        if let Ok((v, q)) = scalar_at(b, p, ty) {
            lemma_items_advance(b, q, ty, (n - 1) as nat, acc.push(v));
        }
    }
}

proof fn lemma_entries_advance(b: Seq<u8>, p: int, n: nat, acc: Seq<(Seq<char>, GgufV)>)
    ensures
        entries_at(b, p, n, acc) matches Ok((_, q)) ==> q >= p,
    decreases n,
{
    if n > 0 {
        if let Ok((k, q1)) = string_at(b, p) {
            if let Some(ty) = read_u32(b, q1) {
                if ty == 9 {
                    if let (Some(et), Some(m)) = (read_u32(b, q1 + 4), read_u64(b, q1 + 8)) {
                        lemma_items_advance(b, q1 + 16, et, m as nat, Seq::empty());
                    }
                }
            }
        }
        if let Ok((kv, q)) = entry_at(b, p) {
            lemma_entries_advance(b, q, (n - 1) as nat, acc.push(kv));
        }
    }
}

proof fn lemma_dims_advance(b: Seq<u8>, p: int, n: nat, acc: Seq<u64>)
    ensures
        dims_at(b, p, n, acc) matches Some((_, q)) ==> q >= p,
    decreases n,
{
    if n > 0 {
        if let Some(d) = read_u64(b, p) {
            lemma_dims_advance(b, p + 8, (n - 1) as nat, acc.push(d));
        }
    }
}

proof fn lemma_tensors_advance(b: Seq<u8>, p: int, n: nat, limit: int, acc: Seq<TensorDesc>)
    ensures
        tensors_at(b, p, n, limit, acc) matches Ok((_, q)) ==> q >= p,
    decreases n,
{
    if n > 0 {
        if let Ok((name, q1)) = string_at(b, p) {
            if let Some(nd) = read_u32(b, q1) {
                lemma_dims_advance(b, q1 + 4, nd as nat, Seq::empty());
            }
        }
        if let Ok((t, q)) = tensor_at(b, p, limit) {
            lemma_tensors_advance(b, q, (n - 1) as nat, limit, acc.push(t));
        }
    }
}

} // verus!
