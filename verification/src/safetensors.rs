//! The safetensors container: element types, header validation, tensor
//! views, and the builder that frames a header and data section.

use vstd::prelude::*;
use vstd::bytes::{spec_u64_from_le_bytes, spec_u64_to_le_bytes, u64_from_le_bytes, u64_to_le_bytes};

use crate::json::{
    array_model, clone_members, lemma_array_model, lemma_members_model, member, members_model, Json,
    JsonValue,
};
use crate::json_serde::{json_from_slice, json_of_bytes};
use crate::text::chars_of;

verus! {


/// The tensor element types understood by this crate.
#[derive(Debug, Clone, Copy, PartialEq, Eq, Structural, Hash)]
pub enum Dtype {
    /// 16-bit floating point.
    F16,
    /// 32-bit floating point.
    F32,
    /// 64-bit floating point.
    F64,
    /// 16-bit brain floating point.
    BF16,
    /// Signed 8-bit integer.
    I8,
    /// Signed 16-bit integer.
    I16,
    /// Signed 32-bit integer.
    I32,
    /// Signed 64-bit integer.
    I64,
    /// Unsigned 8-bit integer.
    U8,
    /// Unsigned 16-bit integer.
    U16,
    /// Unsigned 32-bit integer.
    U32,
    /// Unsigned 64-bit integer.
    U64,
    /// Boolean, one byte per element.
    BOOL,
    /// 8-bit floating point, `e4m3` layout.
    F8E4M3,
    /// 8-bit floating point, `e5m2` layout.
    F8E5M2,
}

/// Bytes per element of `d`.
pub open spec fn dtype_size(d: Dtype) -> nat {
    match d {
        Dtype::F16 | Dtype::BF16 | Dtype::I16 | Dtype::U16 => 2,
        Dtype::F32 | Dtype::I32 | Dtype::U32 => 4,
        Dtype::F64 | Dtype::I64 | Dtype::U64 => 8,
        Dtype::I8 | Dtype::U8 | Dtype::BOOL | Dtype::F8E4M3 | Dtype::F8E5M2 => 1,
    }
}

/// The header name of `d`.
pub open spec fn dtype_name(d: Dtype) -> Seq<char> {
    match d {
        Dtype::F16 => "F16"@,
        Dtype::F32 => "F32"@,
        Dtype::F64 => "F64"@,
        Dtype::BF16 => "BF16"@,
        Dtype::I8 => "I8"@,
        Dtype::I16 => "I16"@,
        Dtype::I32 => "I32"@,
        Dtype::I64 => "I64"@,
        Dtype::U8 => "U8"@,
        Dtype::U16 => "U16"@,
        Dtype::U32 => "U32"@,
        Dtype::U64 => "U64"@,
        Dtype::BOOL => "BOOL"@,
        Dtype::F8E4M3 => "F8_E4M3"@,
        Dtype::F8E5M2 => "F8_E5M2"@,
    }
}

impl Dtype {
    /// Number of bytes occupied by a single element of this dtype.
    pub fn size_bytes(&self) -> (n: usize)
        ensures
            n == dtype_size(*self),
    {
        match self {
            Dtype::F16 | Dtype::BF16 | Dtype::I16 | Dtype::U16 => 2,
            Dtype::F32 | Dtype::I32 | Dtype::U32 => 4,
            Dtype::F64 | Dtype::I64 | Dtype::U64 => 8,
            Dtype::I8 | Dtype::U8 | Dtype::BOOL | Dtype::F8E4M3 | Dtype::F8E5M2 => 1,
        }
    }

    /// The upper-case name of this dtype as it appears in a safetensors header.
    pub fn as_str(&self) -> (s: &'static str)
        ensures
            s@ == dtype_name(*self),
    {
        match self {
            Dtype::F16 => "F16",
            Dtype::F32 => "F32",
            Dtype::F64 => "F64",
            Dtype::BF16 => "BF16",
            Dtype::I8 => "I8",
            Dtype::I16 => "I16",
            Dtype::I32 => "I32",
            Dtype::I64 => "I64",
            Dtype::U8 => "U8",
            Dtype::U16 => "U16",
            Dtype::U32 => "U32",
            Dtype::U64 => "U64",
            Dtype::BOOL => "BOOL",
            Dtype::F8E4M3 => "F8_E4M3",
            Dtype::F8E5M2 => "F8_E5M2",
        }
    }
}


/// The dtype whose header name is `s`, if any.
pub open spec fn dtype_named(s: Seq<char>) -> Option<Dtype> {
    if s == "F16"@ {
        Some(Dtype::F16)
    } else if s == "F32"@ {
        Some(Dtype::F32)
    } else if s == "F64"@ {
        Some(Dtype::F64)
    } else if s == "BF16"@ {
        Some(Dtype::BF16)
    } else if s == "I8"@ {
        Some(Dtype::I8)
    } else if s == "I16"@ {
        Some(Dtype::I16)
    } else if s == "I32"@ {
        Some(Dtype::I32)
    } else if s == "I64"@ {
        Some(Dtype::I64)
    } else if s == "U8"@ {
        Some(Dtype::U8)
    } else if s == "U16"@ {
        Some(Dtype::U16)
    } else if s == "U32"@ {
        Some(Dtype::U32)
    } else if s == "U64"@ {
        Some(Dtype::U64)
    } else if s == "BOOL"@ {
        Some(Dtype::BOOL)
    } else if s == "F8_E4M3"@ {
        Some(Dtype::F8E4M3)
    } else if s == "F8_E5M2"@ {
        Some(Dtype::F8E5M2)
    } else {
        None
    }
}

fn str_eq(a: &str, b: &str) -> (r: bool)
    ensures
        r == (a@ == b@),
{
    a.to_owned() == b.to_owned()
}

impl Dtype {
    /// The dtype a safetensors header names with `name` (e.g. `"F32"`,
    /// `"F8_E4M3"`), if it is one this crate understands.
    pub fn from_name(name: &str) -> (r: Option<Dtype>)
        ensures
            r == dtype_named(name@),
    {
        if str_eq(name, "F16") {
            Some(Dtype::F16)
        } else if str_eq(name, "F32") {
            Some(Dtype::F32)
        } else if str_eq(name, "F64") {
            Some(Dtype::F64)
        } else if str_eq(name, "BF16") {
            Some(Dtype::BF16)
        } else if str_eq(name, "I8") {
            Some(Dtype::I8)
        } else if str_eq(name, "I16") {
            Some(Dtype::I16)
        } else if str_eq(name, "I32") {
            Some(Dtype::I32)
        } else if str_eq(name, "I64") {
            Some(Dtype::I64)
        } else if str_eq(name, "U8") {
            Some(Dtype::U8)
        } else if str_eq(name, "U16") {
            Some(Dtype::U16)
        } else if str_eq(name, "U32") {
            Some(Dtype::U32)
        } else if str_eq(name, "U64") {
            Some(Dtype::U64)
        } else if str_eq(name, "BOOL") {
            Some(Dtype::BOOL)
        } else if str_eq(name, "F8_E4M3") {
            Some(Dtype::F8E4M3)
        } else if str_eq(name, "F8_E5M2") {
            Some(Dtype::F8E5M2)
        } else {
            None
        }
    }
}

/// Reading a dtype's header name gives the dtype back.
pub proof fn lemma_dtype_name_round_trip(d: Dtype)
    ensures
        dtype_named(dtype_name(d)) == Some(d),
{
    reveal_strlit("F16");
    assert("F16"@.len() == 3 && "F16"@[0] == 'F' && "F16"@[1] == '1' && "F16"@[2] == '6');
    reveal_strlit("F32");
    assert("F32"@.len() == 3 && "F32"@[0] == 'F' && "F32"@[1] == '3' && "F32"@[2] == '2');
    reveal_strlit("F64");
    assert("F64"@.len() == 3 && "F64"@[0] == 'F' && "F64"@[1] == '6' && "F64"@[2] == '4');
    reveal_strlit("BF16");
    assert("BF16"@.len() == 4 && "BF16"@[0] == 'B' && "BF16"@[1] == 'F' && "BF16"@[2] == '1' && "BF16"@[3] == '6');
    reveal_strlit("I8");
    assert("I8"@.len() == 2 && "I8"@[0] == 'I' && "I8"@[1] == '8');
    reveal_strlit("I16");
    assert("I16"@.len() == 3 && "I16"@[0] == 'I' && "I16"@[1] == '1' && "I16"@[2] == '6');
    reveal_strlit("I32");
    assert("I32"@.len() == 3 && "I32"@[0] == 'I' && "I32"@[1] == '3' && "I32"@[2] == '2');
    reveal_strlit("I64");
    assert("I64"@.len() == 3 && "I64"@[0] == 'I' && "I64"@[1] == '6' && "I64"@[2] == '4');
    reveal_strlit("U8");
    assert("U8"@.len() == 2 && "U8"@[0] == 'U' && "U8"@[1] == '8');
    reveal_strlit("U16");
    assert("U16"@.len() == 3 && "U16"@[0] == 'U' && "U16"@[1] == '1' && "U16"@[2] == '6');
    reveal_strlit("U32");
    assert("U32"@.len() == 3 && "U32"@[0] == 'U' && "U32"@[1] == '3' && "U32"@[2] == '2');
    reveal_strlit("U64");
    assert("U64"@.len() == 3 && "U64"@[0] == 'U' && "U64"@[1] == '6' && "U64"@[2] == '4');
    reveal_strlit("BOOL");
    assert("BOOL"@.len() == 4 && "BOOL"@[0] == 'B' && "BOOL"@[1] == 'O' && "BOOL"@[2] == 'O' && "BOOL"@[3] == 'L');
    reveal_strlit("F8_E4M3");
    assert("F8_E4M3"@.len() == 7 && "F8_E4M3"@[0] == 'F' && "F8_E4M3"@[1] == '8' && "F8_E4M3"@[2] == '_' && "F8_E4M3"@[3] == 'E' && "F8_E4M3"@[4] == '4' && "F8_E4M3"@[5] == 'M' && "F8_E4M3"@[6] == '3');
    reveal_strlit("F8_E5M2");
    assert("F8_E5M2"@.len() == 7 && "F8_E5M2"@[0] == 'F' && "F8_E5M2"@[1] == '8' && "F8_E5M2"@[2] == '_' && "F8_E5M2"@[3] == 'E' && "F8_E5M2"@[4] == '5' && "F8_E5M2"@[5] == 'M' && "F8_E5M2"@[6] == '2');
}

/// Errors that can occur while reading or writing safetensors data.
#[derive(Debug)]
pub enum SafetensorsError {
    /// An I/O error, most commonly from opening or mapping a file.
    Io(String),
    /// The header is not valid JSON.
    Json(String),
    /// The 8-byte header-length prefix or the header itself is malformed.
    InvalidHeader(String),
    /// A requested tensor name does not exist.
    TensorNotFound(String),
    /// A tensor's byte buffer does not match its declared shape/dtype.
    BadDataLength { name: String, expected: usize, actual: usize },
    /// A dtype name in the header is not supported by this crate.
    UnsupportedDtype(String),
}

/// Reads the 8-byte little-endian header length and returns the offset just
/// past the header (where the data section starts).
pub open spec fn header_end_spec(bytes: Seq<u8>) -> Option<nat> {
    if bytes.len() < 8 {
        None
    } else {
        let n = spec_u64_from_le_bytes(bytes.subrange(0, 8));
        if 8 + n > usize::MAX || 8 + n > bytes.len() {
            None
        } else {
            Some((8 + n) as nat)
        }
    }
}

/// Checks the length prefix of a safetensors file and returns where its
/// JSON header ends.
pub fn parse_header_prefix(bytes: &[u8]) -> (r: Result<usize, SafetensorsError>)
    ensures
        match header_end_spec(bytes@) {
            Some(e) => r == Ok::<usize, SafetensorsError>(e as usize),
            None => r matches Err(SafetensorsError::InvalidHeader(_)),
        },
{
    if bytes.len() < 8 {
        return Err(SafetensorsError::InvalidHeader(
            "file is smaller than the 8-byte length prefix".to_owned(),
        ));
    }
    let prefix = &bytes[0..8];
    assert(prefix@ == bytes@.subrange(0, 8));
    let header_len = u64_from_le_bytes(prefix);
    if header_len as u128 + 8 > usize::MAX as u128 {
        return Err(SafetensorsError::InvalidHeader("header length overflows usize".to_owned()));
    }
    let header_end = header_len as usize + 8;
    if bytes.len() < header_end {
        return Err(SafetensorsError::InvalidHeader(
            "declared header length exceeds file size".to_owned(),
        ));
    }
    Ok(header_end)
}

/// Where one tensor lives in a safetensors file.
#[derive(Debug)]
pub struct TensorInfo {
    /// Element type.
    pub dtype: Dtype,
    /// Shape, most-significant dimension first.
    pub shape: Vec<usize>,
    /// Start of the tensor's bytes, relative to the data section.
    pub start: usize,
    /// End (exclusive) of the tensor's bytes, relative to the data section.
    pub end: usize,
}

/// The product of `dims`, computed left to right, or `None` as soon as a
/// partial product exceeds `usize::MAX`.
pub open spec fn checked_product(dims: Seq<usize>) -> Option<nat>
    decreases dims.len(),
{
    if dims.len() == 0 {
        Some(1)
    } else {
        match checked_product(dims.drop_last()) {
            None => None,
            Some(p) => if p * dims.last() <= usize::MAX {
                Some((p * dims.last()) as nat)
            } else {
                None
            },
        }
    }
}

/// Why a header was rejected: malformed, or naming an unknown dtype.
pub enum HeaderFault {
    Invalid,
    Unsupported(Seq<char>),
}

/// The dimensions of a JSON shape array, when every element is a `u64`.
pub open spec fn shape_values(a: Seq<Json>) -> Option<Seq<usize>>
    decreases a.len(),
{
    if a.len() == 0 {
        Some(Seq::empty())
    } else {
        match (shape_values(a.drop_last()), a.last().as_u64()) {
            (Some(p), Some(n)) => Some(p.push(n as usize)),
            _ => None,
        }
    }
}

/// What one tensor entry of a header describes: `(dtype, shape, start, end)`.
pub open spec fn entry_info(v: Json) -> Result<(Dtype, Seq<usize>, usize, usize), HeaderFault> {
    match v {
        Json::Object(t) => match member(t, "dtype"@) {
            Some(Json::Str(ds)) => match dtype_named(ds) {
                None => Err(HeaderFault::Unsupported(ds)),
                Some(dtype) => match member(t, "shape"@) {
                    Some(Json::Array(sv)) => match shape_values(sv) {
                        None => Err(HeaderFault::Invalid),
                        Some(shape) => match member(t, "data_offsets"@) {
                            Some(Json::Array(ov)) => if ov.len() != 2 {
                                Err(HeaderFault::Invalid)
                            } else {
                                match (ov[0].as_u64(), ov[1].as_u64()) {
                                    (Some(a), Some(b)) => Ok(
                                        (dtype, shape, a as usize, b as usize),
                                    ),
                                    _ => Err(HeaderFault::Invalid),
                                }
                            },
                            _ => Err(HeaderFault::Invalid),
                        },
                    },
                    _ => Err(HeaderFault::Invalid),
                },
            },
            _ => Err(HeaderFault::Invalid),
        },
        _ => Err(HeaderFault::Invalid),
    }
}

/// The tensor entries of a header's members, in order, skipping
/// `__metadata__`; the first malformed entry decides the fault.
pub open spec fn header_entries(m: Seq<(Seq<char>, Json)>) -> Result<
    Seq<(Seq<char>, (Dtype, Seq<usize>, usize, usize))>,
    HeaderFault,
>
    decreases m.len(),
{
    if m.len() == 0 {
        Ok(Seq::empty())
    } else {
        match header_entries(m.drop_last()) {
            Err(f) => Err(f),
            Ok(prev) => if m.last().0 == "__metadata__"@ {
                Ok(prev)
            } else {
                match entry_info(m.last().1) {
                    Err(f) => Err(f),
                    Ok(info) => Ok(prev.push((m.last().0, info))),
                }
            },
        }
    }
}

/// A tensor entry's span is consistent with its dtype and shape and lies
/// within a file of `file_len` bytes whose data section starts at `base`.
pub open spec fn span_ok(info: (Dtype, Seq<usize>, usize, usize), base: nat, file_len: nat) -> bool {
    let (dtype, shape, start, end) = info;
    &&& start <= end
    &&& checked_product(shape) is Some
    &&& dtype_size(dtype) * checked_product(shape).unwrap() <= usize::MAX
    &&& end - start == dtype_size(dtype) * checked_product(shape).unwrap()
    &&& base + end <= file_len
}

/// The `__metadata__` table: the last such member, when it is an object.
pub open spec fn header_metadata(m: Seq<(Seq<char>, Json)>) -> Seq<(Seq<char>, Json)>
    decreases m.len(),
{
    if m.len() == 0 {
        Seq::empty()
    } else if m.last().0 == "__metadata__"@ {
        match m.last().1 {
            Json::Object(t) => t,
            _ => header_metadata(m.drop_last()),
        }
    } else {
        header_metadata(m.drop_last())
    }
}

/// The model of one `(name, info)` tensor entry.
pub open spec fn entry_model(t: (String, TensorInfo)) -> (Seq<char>, (Dtype, Seq<usize>, usize, usize)) {
    (t.0@, (t.1.dtype, t.1.shape@, t.1.start, t.1.end))
}

/// The product of `dims` (left to right), or `None` on overflow.
pub fn checked_numel(dims: &Vec<usize>) -> (r: Option<usize>)
    ensures
        match checked_product(dims@) {
            Some(p) => r == Some(p as usize),
            None => r is None,
        },
{
    let mut acc: usize = 1;
    let mut i: usize = 0;
    while i < dims.len()
        invariant
            i <= dims.len(),
            checked_product(dims@.take(i as int)) == Some(acc as nat),
        decreases dims.len() - i,
    {
        proof {
            assert(dims@.take(i + 1).drop_last() =~= dims@.take(i as int));
        }
        match acc.checked_mul(dims[i]) {
            None => {
                proof {
                    lemma_checked_product_none_prefix(dims@, i + 1);
                }
                return None;
            },
            Some(p) => {
                acc = p;
            },
        }
        i = i + 1;
    }
    proof {
        assert(dims@.take(dims@.len() as int) =~= dims@);
    }
    Some(acc)
}

proof fn lemma_checked_product_none_prefix(dims: Seq<usize>, k: int)
    requires
        0 <= k <= dims.len(),
        checked_product(dims.take(k)) is None,
    ensures
        checked_product(dims) is None,
    decreases dims.len() - k,
{
    if k < dims.len() {
        assert(dims.take(k + 1).drop_last() =~= dims.take(k));
        lemma_checked_product_none_prefix(dims, k + 1);
    } else {
        assert(dims.take(k) =~= dims);
    }
}

fn shape_from(a: &Vec<JsonValue>) -> (r: Option<Vec<usize>>)
    ensures
        match shape_values(array_model(a@)) {
            Some(sh) => r matches Some(v) && v@ == sh,
            None => r is None,
        },
{
    let ghost am = array_model(a@);
    proof {
        lemma_array_model(a@);
    }
    let mut out: Vec<usize> = Vec::new();
    let mut i: usize = 0;
    while i < a.len()
        invariant
            i <= a.len(),
            am == array_model(a@),
            am.len() == a@.len(),
            forall|k: int| 0 <= k < a@.len() ==> #[trigger] am[k] == a@[k]@,
            shape_values(am.take(i as int)) == Some(out@),
        decreases a.len() - i,
    {
        proof {
            assert(am.take(i + 1).drop_last() =~= am.take(i as int));
            assert(am.take(i + 1).last() == am[i as int]);
        }
        match a[i].as_u64() {
            None => {
                proof {
                    lemma_shape_values_none_prefix(am, i + 1);
                }
                return None;
            },
            Some(n) => {
                out.push(n as usize);
            },
        }
        i = i + 1;
    }
    proof {
        assert(am.take(am.len() as int) =~= am);
    }
    Some(out)
}

proof fn lemma_shape_values_none_prefix(a: Seq<Json>, k: int)
    requires
        0 <= k <= a.len(),
        shape_values(a.take(k)) is None,
    ensures
        shape_values(a) is None,
    decreases a.len() - k,
{
    if k < a.len() {
        assert(a.take(k + 1).drop_last() =~= a.take(k));
        lemma_shape_values_none_prefix(a, k + 1);
    } else {
        assert(a.take(k) =~= a);
    }
}

fn invalid(msg: &str) -> (e: SafetensorsError)
    ensures
        e matches SafetensorsError::InvalidHeader(m) && m@ == msg@,
{
    SafetensorsError::InvalidHeader(msg.to_owned())
}

/// Reads one tensor entry of a header.
fn entry_to_info(v: &JsonValue) -> (r: Result<TensorInfo, SafetensorsError>)
    ensures
        match entry_info(v@) {
            Ok(info) => r matches Ok(t) && (t.dtype, t.shape@, t.start, t.end) == info,
            Err(HeaderFault::Invalid) => r matches Err(SafetensorsError::InvalidHeader(_)),
            Err(HeaderFault::Unsupported(n)) => r matches Err(SafetensorsError::UnsupportedDtype(t))
                && t@ == n,
        },
{
    if v.as_object().is_none() {
        return Err(invalid("tensor entry is not an object"));
    }
    let dtype_str = match v.get("dtype") {
        Some(JsonValue::String(ds)) => ds,
        _ => {
            return Err(invalid("tensor entry is missing dtype"));
        },
    };
    let dtype = match Dtype::from_name(dtype_str.as_str()) {
        Some(d) => d,
        None => {
            return Err(SafetensorsError::UnsupportedDtype(dtype_str.clone()));
        },
    };
    let shape = match v.get("shape") {
        Some(JsonValue::Array(sv)) => match shape_from(sv) {
            Some(sh) => sh,
            None => {
                return Err(invalid("tensor entry has non-integer shape"));
            },
        },
        _ => {
            return Err(invalid("tensor entry is missing shape"));
        },
    };
    let offsets = match v.get("data_offsets") {
        Some(JsonValue::Array(ov)) => ov,
        _ => {
            return Err(invalid("tensor entry is missing data_offsets"));
        },
    };
    proof {
        lemma_array_model(offsets@);
    }
    if offsets.len() != 2 {
        return Err(invalid("data_offsets must have exactly two elements"));
    }
    let start = match offsets[0].as_u64() {
        Some(n) => n as usize,
        None => {
            return Err(invalid("tensor entry has a bad offset"));
        },
    };
    let end = match offsets[1].as_u64() {
        Some(n) => n as usize,
        None => {
            return Err(invalid("tensor entry has a bad offset"));
        },
    };
    Ok(TensorInfo { dtype, shape, start, end })
}

/// A parsed safetensors header: where each tensor's bytes live in a file of
/// `file_len` bytes, plus the `__metadata__` table.
pub struct SafetensorsFile {
    data_base: usize,
    file_len: usize,
    tensors: Vec<(String, TensorInfo)>,
    metadata: Vec<(String, JsonValue)>,
}

impl SafetensorsFile {
    /// Every tensor's span is consistent with its dtype and shape and lies
    /// inside the file.
    pub closed spec fn wf(&self) -> bool {
        &&& self.data_base <= self.file_len
        &&& forall|i: int|
            0 <= i < self.tensors@.len() ==> span_ok(
                #[trigger] entry_model(self.tensors@[i]).1,
                self.data_base as nat,
                self.file_len as nat,
            )
    }

    /// The tensor entries, in header order.
    pub closed spec fn entries(&self) -> Seq<(Seq<char>, (Dtype, Seq<usize>, usize, usize))> {
        self.tensors@.map_values(|t: (String, TensorInfo)| entry_model(t))
    }

    /// Offset of the data section.
    pub closed spec fn data_base_spec(&self) -> usize {
        self.data_base
    }

    /// Length of the file the header was read from.
    pub closed spec fn file_len_spec(&self) -> usize {
        self.file_len
    }

    /// The `__metadata__` members.
    pub closed spec fn metadata_spec(&self) -> Seq<(Seq<char>, Json)> {
        members_model(self.metadata@)
    }
}

/// What checking the header document `d` gives, for a file of `file_len`
/// bytes whose JSON header ends at `header_end`: the file's tensors and
/// metadata when every entry is well formed and its bytes lie in the file,
/// and otherwise the error of the first fault.
pub open spec fn header_outcome(d: Json, header_end: nat, file_len: nat, r: Result<SafetensorsFile, SafetensorsError>) -> bool {
    match d {
        Json::Object(m) => match header_entries(m) {
            Err(HeaderFault::Invalid) => r matches Err(SafetensorsError::InvalidHeader(_)),
            Err(HeaderFault::Unsupported(n)) => r matches Err(SafetensorsError::UnsupportedDtype(t)) && t@ == n,
            Ok(es) => if forall|i: int| 0 <= i < es.len() ==> span_ok(#[trigger] es[i].1, header_end, file_len) {
                r matches Ok(f) && f.wf() && f.entries() == es && f.data_base_spec() == header_end
                    && f.file_len_spec() == file_len && f.metadata_spec() == header_metadata(m)
            } else {
                r matches Err(SafetensorsError::InvalidHeader(_))
            },
        },
        _ => r matches Err(SafetensorsError::InvalidHeader(_)),
    }
}

/// Validates a parsed header document against the file it came from, whose
/// JSON header ends at `header_end` and which is `file_len` bytes long.
pub fn check_header(doc: &JsonValue, header_end: usize, file_len: usize) -> (r: Result<
    SafetensorsFile,
    SafetensorsError,
>)
    requires
        header_end <= file_len,
    ensures
        header_outcome(doc@, header_end as nat, file_len as nat, r),
{
    let m = match doc.as_object() {
        Some(m) => m,
        None => {
            return Err(invalid("header is not a JSON object"));
        },
    };
    let ghost mm = members_model(m@);
    proof {
        lemma_members_model(m@);
    }
    let mut tensors: Vec<(String, TensorInfo)> = Vec::new();
    let mut metadata: Vec<(String, JsonValue)> = Vec::new();
    let mut i: usize = 0;
    while i < m.len()
        invariant
            i <= m.len(),
            doc@ == Json::Object(mm),
            mm == members_model(m@),
            mm.len() == m@.len(),
            forall|k: int| 0 <= k < m@.len() ==> #[trigger] mm[k] == (m@[k].0@, m@[k].1@),
            header_entries(mm.take(i as int)) matches Ok(es) && es == tensors@.map_values(
                |t: (String, TensorInfo)| entry_model(t),
            ),
            members_model(metadata@) == header_metadata(mm.take(i as int)),
        decreases m.len() - i,
    {
        proof {
            assert(mm.take(i + 1).drop_last() =~= mm.take(i as int));
            assert(mm.take(i + 1).last() == mm[i as int]);
        }
        let key = &m[i].0;
        let val = &m[i].1;
        if str_eq(key.as_str(), "__metadata__") {
            if let JsonValue::Object(md) = val {
                metadata = clone_members(md);
            }
            proof {
                assert(tensors@.map_values(|t: (String, TensorInfo)| entry_model(t))
                    =~= tensors@.map_values(|t: (String, TensorInfo)| entry_model(t)));
            }
        } else {
            match entry_to_info(val) {
                Err(e) => {
                    proof {
                        lemma_header_entries_err_prefix(mm, i + 1);
                    }
                    return Err(e);
                },
                Ok(info) => {
                    let ghost before = tensors@;
                    tensors.push((key.clone(), info));
                    proof {
                        assert(tensors@.map_values(|t: (String, TensorInfo)| entry_model(t))
                            =~= before.map_values(|t: (String, TensorInfo)| entry_model(t)).push(
                            entry_model(tensors@.last()),
                        ));
                    }
                },
            }
        }
        i = i + 1;
    }
    proof {
        assert(mm.take(mm.len() as int) =~= mm);
    }
    let ghost es = tensors@.map_values(|t: (String, TensorInfo)| entry_model(t));
    let data_base = header_end;
    match check_spans(&tensors, data_base, file_len) {
        Err(e) => {
            proof {
                let j = choose|j: int|
                    0 <= j < tensors@.len() && !span_ok(
                        #[trigger] entry_model(tensors@[j]).1,
                        data_base as nat,
                        file_len as nat,
                    );
                assert(es[j].1 == entry_model(tensors@[j]).1);
            }
            return Err(e);
        },
        Ok(()) => {},
    }
    proof {
        assert forall|i: int| 0 <= i < es.len() implies span_ok(
            #[trigger] es[i].1,
            header_end as nat,
            file_len as nat,
        ) by {
            assert(es[i].1 == entry_model(tensors@[i]).1);
        }
    }
    Ok(SafetensorsFile { data_base, file_len, tensors, metadata })
}

/// Reads the header of a safetensors image held in `bytes`: the length
/// prefix, the JSON header (read by `serde_json`), and the checks of every
/// tensor entry against the file.
pub fn parse_header(bytes: &[u8]) -> (r: Result<SafetensorsFile, SafetensorsError>)
    ensures
        match header_end_spec(bytes@) {
            None => r matches Err(SafetensorsError::InvalidHeader(_)),
            Some(e) => match json_of_bytes(bytes@.subrange(8, e as int)) {
                None => r matches Err(SafetensorsError::Json(_)),
                Some(d) => header_outcome(d, e, bytes@.len(), r),
            },
        },
        r matches Ok(f) ==> {
            &&& header_end_spec(bytes@) == Some(f.data_base_spec() as nat)
            &&& f.data_base_spec() <= bytes@.len()
            &&& f.file_len_spec() == bytes@.len()
            &&& forall|i: int| 0 <= i < f.entries().len() ==> span_ok(#[trigger] f.entries()[i].1, f.data_base_spec() as nat, bytes@.len())
        },
{
    let header_end = parse_header_prefix(bytes)?;
    let doc = match json_from_slice(&bytes[8..header_end]) {
        Ok(d) => d,
        Err(msg) => {
            return Err(SafetensorsError::Json(msg));
        },
    };
    check_header(&doc, header_end, bytes.len())
}

/// Checks every tensor's span against its dtype and shape and the file size.
fn check_spans(tensors: &Vec<(String, TensorInfo)>, data_base: usize, file_len: usize) -> (r: Result<
    (),
    SafetensorsError,
>)
    requires
        data_base <= file_len,
    ensures
        r is Ok <==> forall|j: int|
            0 <= j < tensors@.len() ==> span_ok(
                #[trigger] entry_model(tensors@[j]).1,
                data_base as nat,
                file_len as nat,
            ),
        r is Err ==> r matches Err(SafetensorsError::InvalidHeader(_)),
{
    let mut k: usize = 0;
    while k < tensors.len()
        invariant
            k <= tensors.len(),
            data_base <= file_len,
            forall|j: int|
                0 <= j < k ==> span_ok(
                    #[trigger] entry_model(tensors@[j]).1,
                    data_base as nat,
                    file_len as nat,
                ),
        decreases tensors.len() - k,
    {
        let info = &tensors[k].1;
        assert(entry_model(tensors@[k as int]).1 == (info.dtype, info.shape@, info.start, info.end));
        if info.start > info.end {
            return Err(invalid("tensor has start > end"));
        }
        let numel = match checked_numel(&info.shape) {
            Some(n) => n,
            None => {
                return Err(invalid("tensor element count overflows usize"));
            },
        };
        let expected = match info.dtype.size_bytes().checked_mul(numel) {
            Some(n) => n,
            None => {
                return Err(invalid("tensor byte size overflows usize"));
            },
        };
        let span = info.end - info.start;
        if span != expected {
            return Err(invalid("tensor span does not match its shape and dtype"));
        }
        let abs_end = match data_base.checked_add(info.end) {
            Some(n) => n,
            None => {
                return Err(invalid("tensor offset overflows usize"));
            },
        };
        if abs_end > file_len {
            return Err(invalid("tensor data_offsets exceed file size"));
        }
        k = k + 1;
    }
    Ok(())
}

proof fn lemma_header_entries_err_prefix(m: Seq<(Seq<char>, Json)>, k: int)
    requires
        0 <= k <= m.len(),
        header_entries(m.take(k)) is Err,
    ensures
        header_entries(m) == header_entries(m.take(k)),
    decreases m.len() - k,
{
    if k < m.len() {
        assert(m.take(k + 1).drop_last() =~= m.take(k));
        lemma_header_entries_err_prefix(m, k + 1);
    } else {
        assert(m.take(k) =~= m);
    }
}

/// A view of one tensor's bytes inside the file they were read from.
pub struct TensorView<'a> {
    /// Element type.
    pub dtype: Dtype,
    /// Shape, most-significant dimension first.
    pub shape: Vec<usize>,
    /// The raw little-endian element bytes.
    pub data: &'a [u8],
}

impl<'a> TensorView<'a> {
    /// Number of elements: the product of the shape.
    pub fn numel(&self) -> (n: usize)
        requires
            checked_product(self.shape@) is Some,
        ensures
            n == checked_product(self.shape@).unwrap(),
    {
        match checked_numel(&self.shape) {
            Some(n) => n,
            None => 0,
        }
    }

    /// Checks that the bytes can be read as `f32` elements and returns the
    /// element count. Boolean tensors, and bytes that are not a whole number
    /// of elements, are refused as unsupported; otherwise the data must hold
    /// exactly `numel` elements of the dtype, and 8-bit float tensors are
    /// refused.
    pub fn check_f32_conversion(&self) -> (r: Result<usize, SafetensorsError>)
        requires
            checked_product(self.shape@) is Some,
            dtype_size(self.dtype) * checked_product(self.shape@).unwrap() <= usize::MAX,
        ensures
            ({
                let n = checked_product(self.shape@).unwrap();
                let expected = dtype_size(self.dtype) * n;
                if self.dtype is BOOL {
                    r matches Err(SafetensorsError::UnsupportedDtype(_))
                } else if self.data@.len() % dtype_size(self.dtype) != 0 {
                    r matches Err(SafetensorsError::UnsupportedDtype(_))
                } else if self.data@.len() != expected {
                    r matches Err(SafetensorsError::BadDataLength { name, expected: e, actual })
                        && name@ == "<view>"@ && e == expected && actual == self.data@.len()
                } else if self.dtype is F8E4M3 || self.dtype is F8E5M2 {
                    r matches Err(SafetensorsError::UnsupportedDtype(_))
                } else {
                    r == Ok::<usize, SafetensorsError>(n as usize)
                }
            }),
    {
        let n = self.numel();
        let size = self.dtype.size_bytes();
        let expected = size * n;
        if let Dtype::BOOL = self.dtype {
            return Err(SafetensorsError::UnsupportedDtype(
                "BOOL -> f32 conversion is not supported".to_owned(),
            ));
        }
        if self.data.len() % size != 0 {
            return Err(SafetensorsError::UnsupportedDtype(
                "byte length is not a whole number of elements".to_owned(),
            ));
        }
        if self.data.len() != expected {
            return Err(SafetensorsError::BadDataLength {
                name: "<view>".to_owned(),
                expected,
                actual: self.data.len(),
            });
        }
        match self.dtype {
            Dtype::F8E4M3 => Err(SafetensorsError::UnsupportedDtype(
                "F8_E4M3 -> f32 conversion is not supported".to_owned(),
            )),
            Dtype::F8E5M2 => Err(SafetensorsError::UnsupportedDtype(
                "F8_E5M2 -> f32 conversion is not supported".to_owned(),
            )),
            _ => Ok(n),
        }
    }
}

/// Index of the first entry of `es` named `name`, looking from `i` on.
pub open spec fn first_entry<V>(es: Seq<(Seq<char>, V)>, name: Seq<char>, i: int) -> Option<int>
    decreases es.len() - i,
{
    if i < 0 || i >= es.len() {
        None
    } else if es[i].0 == name {
        Some(i)
    } else {
        first_entry(es, name, i + 1)
    }
}

proof fn lemma_first_entry_finds<V>(es: Seq<(Seq<char>, V)>, k: int, i: int)
    requires
        0 <= k <= i < es.len(),
    ensures
        first_entry(es, es[i].0, k) matches Some(j) && k <= j <= i && es[j].0 == es[i].0,
    decreases i - k,
{
    if es[k].0 != es[i].0 {
        lemma_first_entry_finds(es, k + 1, i);
    }
}

/// Every name a file lists can be looked up: on a file read by
/// [`parse_header`], `get_tensor` gives a view for each name of
/// `tensor_names`.
pub proof fn lemma_listed_names_found(f: SafetensorsFile, i: int)
    requires
        0 <= i < f.entries().len(),
    ensures
        first_entry(f.entries(), f.entries()[i].0, 0) is Some,
{
    lemma_first_entry_finds(f.entries(), 0, i);
}

impl SafetensorsFile {
    /// The tensor names, in header order.
    pub fn tensor_names(&self) -> (r: Vec<&str>)
        ensures
            r@.len() == self.entries().len(),
            forall|i: int| 0 <= i < r@.len() ==> #[trigger] r@[i]@ == self.entries()[i].0,
    {
        let mut out: Vec<&str> = Vec::new();
        let mut i: usize = 0;
        while i < self.tensors.len()
            invariant
                i <= self.tensors.len(),
                out@.len() == i,
                forall|k: int| 0 <= k < i ==> #[trigger] out@[k]@ == self.entries()[k].0,
            decreases self.tensors.len() - i,
        {
            out.push(self.tensors[i].0.as_str());
            i = i + 1;
        }
        out
    }

    /// The first tensor named `name`, viewed inside `bytes`, the file that
    /// the header was read from.
    pub fn get_tensor<'a>(&self, bytes: &'a [u8], name: &str) -> (r: Option<TensorView<'a>>)
        requires
            self.wf(),
            bytes@.len() == self.file_len_spec(),
        ensures
            r is Some <==> first_entry(self.entries(), name@, 0) is Some,
            r matches Some(v) ==> first_entry(self.entries(), name@, 0) matches Some(i) && ({
                let (dtype, shape, start, end) = self.entries()[i].1;
                &&& v.dtype == dtype
                &&& v.shape@ == shape
                &&& v.data@ == bytes@.subrange(
                    self.data_base_spec() + start,
                    self.data_base_spec() + end,
                )
            }),
    {
        let n = name.to_owned();
        let mut i: usize = 0;
        while i < self.tensors.len()
            invariant
                i <= self.tensors.len(),
                n@ == name@,
                self.wf(),
                bytes@.len() == self.file_len_spec(),
                first_entry(self.entries(), name@, 0) == first_entry(self.entries(), name@, i as int),
            decreases self.tensors.len() - i,
        {
            if self.tensors[i].0 == n {
                let info = &self.tensors[i].1;
                proof {
                    assert(span_ok(entry_model(self.tensors@[i as int]).1, self.data_base as nat, self.file_len as nat));
                }
                let data = &bytes[self.data_base + info.start..self.data_base + info.end];
                return Some(TensorView { dtype: info.dtype, shape: info.shape.clone(), data });
            }
            i = i + 1;
        }
        None
    }

    /// The `__metadata__` members of the header.
    pub fn metadata(&self) -> (m: &Vec<(String, JsonValue)>)
        ensures
            members_model(m@) == self.metadata_spec(),
    {
        &self.metadata
    }

    /// Number of tensors in the file.
    pub fn len(&self) -> (n: usize)
        ensures
            n == self.entries().len(),
    {
        self.tensors.len()
    }

    /// Whether the file holds no tensors.
    pub fn is_empty(&self) -> (b: bool)
        ensures
            b == (self.entries().len() == 0),
    {
        self.tensors.len() == 0
    }
}

impl SafetensorsFile {
    /// Each entry of a well-formed file has a consistent, in-bounds span.
    pub proof fn lemma_entry_span(&self, j: int)
        requires
            self.wf(),
            0 <= j < self.entries().len(),
        ensures
            span_ok(self.entries()[j].1, self.data_base_spec() as nat, self.file_len_spec() as nat),
            self.data_base_spec() <= self.file_len_spec(),
    {
        assert(span_ok(entry_model(self.tensors@[j]).1, self.data_base as nat, self.file_len as nat));
    }
}

} // verus!
