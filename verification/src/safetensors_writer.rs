//! Assembling safetensors files: the header document of a set of tensors and
//! the byte layout around its serialised JSON text.

use vstd::prelude::*;
use vstd::bytes::{spec_u64_to_le_bytes, u64_to_le_bytes};

use crate::gguf::{align_up, lemma_align_up};
use crate::json_serde::{json_bytes_of, json_to_vec, u64_numbers, u64_numbers_all, u64_numbers_members};
use crate::json::{all_digits, clone_members, digit_val, digits_value, is_digit, lemma_members_model, member, members_model, Json, JsonValue};
use crate::safetensors::{
    header_end_spec, checked_numel, checked_product, dtype_name, dtype_size, entry_info, header_entries, header_metadata,
    lemma_dtype_name_round_trip, shape_values, span_ok, Dtype, HeaderFault, SafetensorsError,
};
use crate::text::{decimal, digit_char, push_decimal};

verus! {

/// Bytes that a tensor of `dtype` and `shape` occupies, when that fits in a
/// `usize`.
pub open spec fn tensor_bytes(dtype: Dtype, shape: Seq<usize>) -> Option<nat> {
    match checked_product(shape) {
        None => None,
        Some(n) => if dtype_size(dtype) * n <= usize::MAX {
            Some(dtype_size(dtype) * n)
        } else {
            None
        },
    }
}

/// A registered tensor: `(name, dtype, shape, bytes)`.
pub type TensorEntry = (Seq<char>, Dtype, Seq<usize>, Seq<u8>);

/// Total number of data bytes of `ts`.
pub open spec fn total_len(ts: Seq<TensorEntry>) -> nat
    decreases ts.len(),
{
    if ts.len() == 0 {
        0
    } else {
        total_len(ts.drop_last()) + ts.last().3.len()
    }
}

/// Offset in the data section of tensor `i` of `ts`.
pub open spec fn data_offset(ts: Seq<TensorEntry>, i: int) -> nat {
    total_len(ts.take(i))
}

/// The concatenated data bytes of `ts`, in order.
pub open spec fn data_section(ts: Seq<TensorEntry>) -> Seq<u8>
    decreases ts.len(),
{
    if ts.len() == 0 {
        Seq::empty()
    } else {
        data_section(ts.drop_last()) + ts.last().3
    }
}

/// A JSON number written in decimal.
pub open spec fn number(n: nat) -> Json {
    Json::Number(decimal(n))
}

/// The header entry of one tensor whose bytes span `start..end`.
pub open spec fn tensor_doc(dtype: Dtype, shape: Seq<usize>, start: nat, end: nat) -> Json {
    Json::Object(
        seq![
            ("dtype"@, Json::Str(dtype_name(dtype))),
            ("shape"@, Json::Array(shape.map_values(|d: usize| number(d as nat)))),
            ("data_offsets"@, Json::Array(seq![number(start), number(end)])),
        ],
    )
}

/// The header members of `ts`, laid out one after another.
pub open spec fn tensor_members(ts: Seq<TensorEntry>) -> Seq<(Seq<char>, Json)> {
    Seq::new(
        ts.len(),
        |i: int| (ts[i].0, tensor_doc(ts[i].1, ts[i].2, data_offset(ts, i), data_offset(ts, i + 1))),
    )
}

/// The header document of a file holding `ts`, with the `__metadata__`
/// table `md` when that is not empty.
pub open spec fn header_doc(ts: Seq<TensorEntry>, md: Seq<(Seq<char>, Json)>) -> Json {
    if md.len() == 0 {
        Json::Object(tensor_members(ts))
    } else {
        Json::Object(tensor_members(ts).push(("__metadata__"@, Json::Object(md))))
    }
}

/// `n` spaces.
pub open spec fn spaces(n: nat) -> Seq<u8> {
    Seq::new(n, |i: int| 0x20u8)
}

/// The serialised header `json`, padded with spaces to a multiple of eight
/// bytes and preceded by its padded length as a little-endian `u64`.
pub open spec fn prefixed_header(json: Seq<u8>) -> Seq<u8> {
    let padded = align_up(json.len() as int, 8);
    spec_u64_to_le_bytes(padded as u64) + json + spaces((padded - json.len()) as nat)
}

/// `md` with `key` set to `v`: replaced in place, or appended.
pub open spec fn set_member(md: Seq<(Seq<char>, Json)>, key: Seq<char>, v: Json) -> Seq<(Seq<char>, Json)> {
    match crate::safetensors::first_entry(md, key, 0) {
        Some(i) => md.update(i, (key, v)),
        None => md.push((key, v)),
    }
}

/// `ts` with the first tensor named `t.0` replaced by `t`, or with `t`
/// appended.
pub open spec fn set_tensor(ts: Seq<TensorEntry>, t: TensorEntry) -> Seq<TensorEntry> {
    match first_named(ts, t.0, 0) {
        Some(i) => ts.update(i, t),
        None => ts.push(t),
    }
}

/// Index of the first tensor of `ts` named `name`, looking from `i` on.
pub open spec fn first_named(ts: Seq<TensorEntry>, name: Seq<char>, i: int) -> Option<int>
    decreases ts.len() - i,
{
    if i < 0 || i >= ts.len() {
        None
    } else if ts[i].0 == name {
        Some(i)
    } else {
        first_named(ts, name, i + 1)
    }
}

/// Accumulates tensors and metadata and lays them out as a safetensors file.
#[derive(Debug)]
pub struct SafetensorsBuilder {
    tensors: Vec<(String, Dtype, Vec<usize>, Vec<u8>)>,
    metadata: Vec<(String, JsonValue)>,
}

pub open spec fn entry_of(t: (String, Dtype, Vec<usize>, Vec<u8>)) -> TensorEntry {
    (t.0@, t.1, t.2@, t.3@)
}

impl SafetensorsBuilder {
    /// The registered tensors, in order.
    pub closed spec fn tensors_spec(&self) -> Seq<TensorEntry> {
        self.tensors@.map_values(|t: (String, Dtype, Vec<usize>, Vec<u8>)| entry_of(t))
    }

    /// The `__metadata__` table.
    pub closed spec fn metadata_spec(&self) -> Seq<(Seq<char>, Json)> {
        members_model(self.metadata@)
    }

    /// Every tensor's bytes match its dtype and shape, and all the data
    /// fits in memory.
    pub open spec fn wf(&self) -> bool {
        &&& forall|i: int|
            0 <= i < self.tensors_spec().len() ==> tensor_bytes(
                #[trigger] self.tensors_spec()[i].1,
                self.tensors_spec()[i].2,
            ) == Some(self.tensors_spec()[i].3.len())
        &&& total_len(self.tensors_spec()) <= usize::MAX
    }

    /// An empty builder.
    pub fn new() -> (b: Self)
        ensures
            b.wf(),
            b.tensors_spec() == Seq::<TensorEntry>::empty(),
            b.metadata_spec() == Seq::<(Seq<char>, Json)>::empty(),
    {
        let b = SafetensorsBuilder { tensors: Vec::new(), metadata: Vec::new() };
        proof {
            assert(b.tensors_spec() =~= Seq::<TensorEntry>::empty());
            assert(members_model(b.metadata@) =~= Seq::<(Seq<char>, Json)>::empty());
        }
        b
    }
}

proof fn lemma_total_push(ts: Seq<TensorEntry>, t: TensorEntry)
    ensures
        total_len(ts.push(t)) == total_len(ts) + t.3.len(),
        data_section(ts.push(t)) == data_section(ts) + t.3,
{
    assert(ts.push(t).drop_last() =~= ts);
}

proof fn lemma_total_update(ts: Seq<TensorEntry>, i: int, t: TensorEntry)
    requires
        0 <= i < ts.len(),
    ensures
        total_len(ts.update(i, t)) + ts[i].3.len() == total_len(ts) + t.3.len(),
    decreases ts.len(),
{
    if i < ts.len() - 1 {
        assert(ts.update(i, t).drop_last() =~= ts.drop_last().update(i, t));
        lemma_total_update(ts.drop_last(), i, t);
    } else {
        assert(ts.update(i, t).drop_last() =~= ts.drop_last());
    }
}

/// Offsets grow by each tensor's length and stay within the total.
proof fn lemma_number_literal(n: nat)
    requires
        n <= u64::MAX,
    ensures
        u64_numbers(number(n)),
{
    assert(decimal(n) == decimal(n));
}

proof fn lemma_shape_numbers(shape: Seq<usize>)
    ensures
        u64_numbers_all(shape.map_values(|d: usize| number(d as nat))),
    decreases shape.len(),
{
    let a = shape.map_values(|d: usize| number(d as nat));
    if shape.len() > 0 {
        assert(a.drop_last() =~= shape.drop_last().map_values(|d: usize| number(d as nat)));
        lemma_shape_numbers(shape.drop_last());
        lemma_number_literal(shape.last() as nat);
        assert(a.last() == number(shape.last() as nat));
    }
}

proof fn lemma_members_numbers(m: Seq<(Seq<char>, Json)>)
    requires
        forall|i: int| 0 <= i < m.len() ==> u64_numbers(#[trigger] m[i].1),
    ensures
        u64_numbers_members(m),
    decreases m.len(),
{
    if m.len() > 0 {
        let p = m.drop_last();
        assert forall|i: int| 0 <= i < p.len() implies u64_numbers(#[trigger] p[i].1) by {
            assert(p[i] == m[i]);
        }
        lemma_members_numbers(p);
        assert(u64_numbers(m[m.len() - 1].1));
    }
}

/// Every number of the header document of `ts` with metadata `md` is a
/// `u64` decimal literal, when every number of the metadata is.
proof fn lemma_header_doc_numbers(ts: Seq<TensorEntry>, md: Seq<(Seq<char>, Json)>)
    requires
        total_len(ts) <= usize::MAX,
        u64_numbers_members(md),
    ensures
        u64_numbers(header_doc(ts, md)),
{
    let tm = tensor_members(ts);
    assert forall|i: int| 0 <= i < tm.len() implies u64_numbers(#[trigger] tm[i].1) by {
        lemma_offsets(ts, i);
        assert(data_offset(ts, i) <= total_len(ts));
        let doc = tensor_doc(ts[i].1, ts[i].2, data_offset(ts, i), data_offset(ts, i + 1));
        assert(tm[i].1 == doc);
        lemma_shape_numbers(ts[i].2);
        lemma_number_literal(data_offset(ts, i));
        lemma_number_literal(data_offset(ts, i + 1));
        let offs = seq![number(data_offset(ts, i)), number(data_offset(ts, i + 1))];
        assert(offs.drop_last() =~= seq![number(data_offset(ts, i))]);
        assert(offs.drop_last().drop_last() =~= Seq::<Json>::empty());
        assert(u64_numbers_all(offs.drop_last().drop_last()));
        assert(offs.drop_last().last() == number(data_offset(ts, i)));
        assert(u64_numbers_all(offs.drop_last()));
        assert(offs.last() == number(data_offset(ts, i + 1)));
        assert(u64_numbers_all(offs));
        let mem = seq![
            ("dtype"@, Json::Str(dtype_name(ts[i].1))),
            ("shape"@, Json::Array(ts[i].2.map_values(|d: usize| number(d as nat)))),
            ("data_offsets"@, Json::Array(offs)),
        ];
        assert forall|k: int| 0 <= k < mem.len() implies u64_numbers(#[trigger] mem[k].1) by {}
        lemma_members_numbers(mem);
    }
    if md.len() == 0 {
        lemma_members_numbers(tm);
    } else {
        let all = tm.push(("__metadata__"@, Json::Object(md)));
        assert forall|i: int| 0 <= i < all.len() implies u64_numbers(#[trigger] all[i].1) by {
            if i < tm.len() {
                assert(all[i] == tm[i]);
            }
        }
        lemma_members_numbers(all);
    }
}

proof fn lemma_offsets(ts: Seq<TensorEntry>, i: int)
    requires
        0 <= i < ts.len(),
    ensures
        data_offset(ts, i + 1) == data_offset(ts, i) + ts[i].3.len(),
        data_offset(ts, i + 1) <= total_len(ts),
    decreases ts.len() - i,
{
    assert(ts.take(i + 1).drop_last() =~= ts.take(i));
    if i + 1 < ts.len() {
        lemma_offsets(ts, i + 1);
    } else {
        assert(ts.take(i + 1) =~= ts);
    }
}

/// A JSON number holding `n`.
fn number_value(n: u64) -> (v: JsonValue)
    ensures
        v@ == number(n as nat),
{
    let mut s = String::new();
    push_decimal(&mut s, n);
    JsonValue::Number(s)
}

/// The header entry of one tensor whose bytes span `start..end`.
fn tensor_entry_doc(dtype: Dtype, shape: &Vec<usize>, start: usize, end: usize) -> (v: JsonValue)
    ensures
        v@ == tensor_doc(dtype, shape@, start as nat, end as nat),
{
    let mut dims: Vec<JsonValue> = Vec::new();
    let mut k: usize = 0;
    while k < shape.len()
        invariant
            k <= shape.len(),
            dims@.len() == k,
            forall|j: int| 0 <= j < k ==> (#[trigger] dims@[j])@ == number(shape@[j] as nat),
        decreases shape.len() - k,
    {
        dims.push(number_value(shape[k] as u64));
        k = k + 1;
    }
    proof {
        crate::json::lemma_array_model(dims@);
        assert(crate::json::array_model(dims@) =~= shape@.map_values(|d: usize| number(d as nat)));
    }
    let mut offsets: Vec<JsonValue> = Vec::new();
    offsets.push(number_value(start as u64));
    offsets.push(number_value(end as u64));
    proof {
        crate::json::lemma_array_model(offsets@);
        assert(crate::json::array_model(offsets@) =~= seq![number(start as nat), number(end as nat)]);
    }
    let mut members: Vec<(String, JsonValue)> = Vec::new();
    members.push(("dtype".to_owned(), JsonValue::String(dtype.as_str().to_owned())));
    members.push(("shape".to_owned(), JsonValue::Array(dims)));
    members.push(("data_offsets".to_owned(), JsonValue::Array(offsets)));
    proof {
        lemma_members_model(members@);
        assert(members_model(members@) =~= seq![
            ("dtype"@, Json::Str(dtype_name(dtype))),
            ("shape"@, Json::Array(shape@.map_values(|d: usize| number(d as nat)))),
            ("data_offsets"@, Json::Array(seq![number(start as nat), number(end as nat)])),
        ]);
    }
    JsonValue::Object(members)
}

/// The serialised header `json` padded with spaces to a multiple of eight
/// bytes, behind its padded length as a little-endian `u64`.
pub fn frame_header(json: &[u8]) -> (out: Vec<u8>)
    requires
        json@.len() + 16 <= usize::MAX,
    ensures
        out@ == prefixed_header(json@),
        out@.len() == 8 + align_up(json@.len() as int, 8),
{
    let len = json.len();
    let rem = len % 8;
    let pad = if rem == 0 { 0 } else { 8 - rem };
    proof {
        lemma_align_up(len as int, 8);
    }
    let padded = len + pad;
    assert(padded == align_up(len as int, 8));
    let mut out = u64_to_le_bytes(padded as u64);
    let mut body = vstd::slice::slice_to_vec(json);
    out.append(&mut body);
    let mut k: usize = 0;
    let ghost head = out@;
    while k < pad
        invariant
            k <= pad,
            out@ == head + spaces(k as nat),
        decreases pad - k,
    {
        out.push(0x20u8);
        k = k + 1;
        proof {
            assert(out@ =~= head + spaces(k as nat));
        }
    }
    out
}

impl SafetensorsBuilder {
    /// Total number of data bytes registered so far.
    pub fn data_len(&self) -> (n: usize)
        requires
            self.wf(),
        ensures
            n == total_len(self.tensors_spec()),
    {
        let ghost ts = self.tensors_spec();
        let mut n: usize = 0;
        let mut i: usize = 0;
        while i < self.tensors.len()
            invariant
                i <= self.tensors.len(),
                ts == self.tensors_spec(),
                self.wf(),
                n == data_offset(ts, i as int),
            decreases self.tensors.len() - i,
        {
            proof {
                lemma_offsets(ts, i as int);
            }
            n = n + self.tensors[i].3.len();
            i = i + 1;
        }
        proof {
            assert(ts.take(i as int) =~= ts);
        }
        n
    }

    /// Registers a tensor given its raw little-endian bytes, which must be
    /// exactly as many as its dtype and shape require.
    pub fn add_tensor(&mut self, name: String, dtype: Dtype, shape: Vec<usize>, data: Vec<u8>) -> (r: Result<(), SafetensorsError>)
        requires
            old(self).wf(),
            tensor_bytes(dtype, shape@) is Some,
            total_len(old(self).tensors_spec()) + data@.len() <= usize::MAX,
        ensures
            final(self).wf(),
            final(self).metadata_spec() == old(self).metadata_spec(),
            r is Ok <==> data@.len() == tensor_bytes(dtype, shape@).unwrap(),
            r is Ok ==> final(self).tensors_spec() == old(self).tensors_spec().push((name@, dtype, shape@, data@)),
            r is Err ==> final(self).tensors_spec() == old(self).tensors_spec(),
            r matches Err(e) ==> e matches SafetensorsError::BadDataLength { name: n, expected, actual } && n@
                == name@ && expected == tensor_bytes(dtype, shape@).unwrap() && actual == data@.len(),
    {
        let numel = match checked_numel(&shape) {
            Some(n) => n,
            None => 0,
        };
        let expected = dtype.size_bytes() * numel;
        if data.len() != expected {
            return Err(SafetensorsError::BadDataLength { name, expected, actual: data.len() });
        }
        let ghost before = self.tensors_spec();
        let ghost t = (name@, dtype, shape@, data@);
        self.tensors.push((name, dtype, shape, data));
        proof {
            assert(self.tensors_spec() =~= before.push(t));
            lemma_total_push(before, t);
        }
        Ok(())
    }

    /// Registers a tensor, replacing the first one with the same name in
    /// place, or appending it when the name is new.
    pub fn replace_tensor(&mut self, name: String, dtype: Dtype, shape: Vec<usize>, data: Vec<u8>) -> (r: Result<(), SafetensorsError>)
        requires
            old(self).wf(),
            tensor_bytes(dtype, shape@) is Some,
            total_len(old(self).tensors_spec()) + data@.len() <= usize::MAX,
        ensures
            final(self).wf(),
            final(self).metadata_spec() == old(self).metadata_spec(),
            r is Ok <==> data@.len() == tensor_bytes(dtype, shape@).unwrap(),
            r is Ok ==> final(self).tensors_spec() == set_tensor(old(self).tensors_spec(), (name@, dtype, shape@, data@)),
            r is Err ==> final(self).tensors_spec() == old(self).tensors_spec(),
            r matches Err(e) ==> e matches SafetensorsError::BadDataLength { name: n, expected, actual } && n@
                == name@ && expected == tensor_bytes(dtype, shape@).unwrap() && actual == data@.len(),
    {
        let numel = match checked_numel(&shape) {
            Some(n) => n,
            None => 0,
        };
        let expected = dtype.size_bytes() * numel;
        if data.len() != expected {
            return Err(SafetensorsError::BadDataLength { name, expected, actual: data.len() });
        }
        let ghost before = self.tensors_spec();
        let ghost t = (name@, dtype, shape@, data@);
        let mut i: usize = 0;
        while i < self.tensors.len()
            invariant
                i <= self.tensors.len(),
                before == self.tensors_spec(),
                t.0 == name@,
                first_named(before, name@, 0) == first_named(before, name@, i as int),
            ensures
                i <= self.tensors.len(),
                before == self.tensors_spec(),
                first_named(before, name@, 0) == first_named(before, name@, i as int),
                i < self.tensors.len() ==> before[i as int].0 == name@,
            decreases self.tensors.len() - i,
        {
            if self.tensors[i].0 == name {
                break;
            }
            i = i + 1;
        }
        if i < self.tensors.len() {
            self.tensors[i] = (name, dtype, shape, data);
            proof {
                assert(self.tensors_spec() =~= before.update(i as int, t));
                lemma_total_update(before, i as int, t);
            }
        } else {
            self.tensors.push((name, dtype, shape, data));
            proof {
                assert(self.tensors_spec() =~= before.push(t));
                lemma_total_push(before, t);
            }
        }
        Ok(())
    }

    /// Sets `key` in the `__metadata__` table: an existing entry keeps its
    /// place and takes the new value, a new key is appended.
    pub fn add_metadata(&mut self, key: String, value: JsonValue)
        requires
            old(self).wf(),
        ensures
            final(self).wf(),
            final(self).tensors_spec() == old(self).tensors_spec(),
            final(self).metadata_spec() == set_member(old(self).metadata_spec(), key@, value@),
    {
        let ghost before = self.metadata_spec();
        proof {
            lemma_members_model(self.metadata@);
        }
        let mut i: usize = 0;
        while i < self.metadata.len()
            invariant
                i <= self.metadata.len(),
                before == members_model(self.metadata@),
                before.len() == self.metadata@.len(),
                forall|j: int| 0 <= j < before.len() ==> #[trigger] before[j].0 == self.metadata@[j].0@,
                crate::safetensors::first_entry(before, key@, 0) == crate::safetensors::first_entry(before, key@, i as int),
            ensures
                i <= self.metadata.len(),
                before == members_model(self.metadata@),
                crate::safetensors::first_entry(before, key@, 0) == crate::safetensors::first_entry(before, key@, i as int),
                i < self.metadata.len() ==> before[i as int].0 == key@,
            decreases self.metadata.len() - i,
        {
            if self.metadata[i].0 == key {
                break;
            }
            i = i + 1;
        }
        let ghost kv = (key@, value@);
        if i < self.metadata.len() {
            self.metadata[i] = (key, value);
            proof {
                lemma_members_model(self.metadata@);
                assert(members_model(self.metadata@) =~= before.update(i as int, kv));
            }
        } else {
            self.metadata.push((key, value));
            proof {
                lemma_members_model(self.metadata@);
                assert(members_model(self.metadata@) =~= before.push(kv));
            }
        }
    }

    /// The header document that describes the registered tensors, laid out
    /// one after another in registration order, and the metadata table.
    pub fn header_document(&self) -> (d: JsonValue)
        requires
            self.wf(),
        ensures
            d@ == header_doc(self.tensors_spec(), self.metadata_spec()),
    {
        let ghost ts = self.tensors_spec();
        let mut members: Vec<(String, JsonValue)> = Vec::new();
        let mut offset: usize = 0;
        let mut i: usize = 0;
        while i < self.tensors.len()
            invariant
                i <= self.tensors.len(),
                ts == self.tensors_spec(),
                self.wf(),
                offset == data_offset(ts, i as int),
                members@.len() == i,
                forall|j: int| 0 <= j < i ==> #[trigger] members_model(members@)[j] == tensor_members(ts)[j],
            decreases self.tensors.len() - i,
        {
            proof {
                lemma_offsets(ts, i as int);
                lemma_members_model(members@);
            }
            let t = &self.tensors[i];
            let end = offset + t.3.len();
            let doc = tensor_entry_doc(t.1, &t.2, offset, end);
            let ghost before = members@;
            members.push((t.0.clone(), doc));
            proof {
                lemma_members_model(members@);
                lemma_members_model(before);
                assert forall|j: int| 0 <= j < i + 1 implies #[trigger] members_model(members@)[j] == tensor_members(ts)[j] by {
                    if j < i {
                        assert(members@[j] == before[j]);
                        assert(members_model(before)[j] == tensor_members(ts)[j]);
                    }
                }
            }
            offset = end;
            i = i + 1;
        }
        proof {
            lemma_members_model(members@);
            assert(members_model(members@) =~= tensor_members(ts));
        }
        if self.metadata.len() > 0 {
            let md = clone_members(&self.metadata);
            let ghost before = members@;
            members.push(("__metadata__".to_owned(), JsonValue::Object(md)));
            proof {
                lemma_members_model(self.metadata@);
                lemma_members_model(members@);
                lemma_members_model(before);
                assert(members_model(members@) =~= tensor_members(ts).push(("__metadata__"@, Json::Object(self.metadata_spec()))));
            }
        } else {
            proof {
                lemma_members_model(self.metadata@);
            }
        }
        JsonValue::Object(members)
    }

    /// The length prefix and the header document as `serde_json` writes it,
    /// padded with spaces to a multiple of 8 bytes.
    pub fn build_prefixed_header(&self) -> (r: Result<Vec<u8>, SafetensorsError>)
        requires
            self.wf(),
        ensures
            r matches Ok(out) ==> out@ == prefixed_header(json_bytes_of(header_doc(self.tensors_spec(), self.metadata_spec()))),
            r matches Err(e) ==> e is Json,
            u64_numbers_members(self.metadata_spec()) && json_bytes_of(header_doc(self.tensors_spec(), self.metadata_spec())).len()
                + 16 <= usize::MAX ==> r is Ok,
    {
        proof {
            if u64_numbers_members(self.metadata_spec()) {
                lemma_header_doc_numbers(self.tensors_spec(), self.metadata_spec());
            }
        }
        let doc = self.header_document();
        let json = match json_to_vec(&doc) {
            Ok(j) => j,
            Err(msg) => {
                return Err(SafetensorsError::Json(msg));
            },
        };
        if json.len() > usize::MAX - 16 {
            return Err(SafetensorsError::Json("header does not fit in memory".to_owned()));
        }
        Ok(frame_header(&json))
    }

    /// The whole file image: the framed header as `serde_json` writes it,
    /// then every tensor's bytes in registration order.
    pub fn build(&self) -> (r: Result<Vec<u8>, SafetensorsError>)
        requires
            self.wf(),
        ensures
            r matches Ok(out) ==> out@ == prefixed_header(json_bytes_of(header_doc(self.tensors_spec(), self.metadata_spec())))
                + data_section(self.tensors_spec()),
            r matches Err(e) ==> e is Json,
            u64_numbers_members(self.metadata_spec()) && json_bytes_of(header_doc(self.tensors_spec(), self.metadata_spec())).len()
                + 16 + total_len(self.tensors_spec()) <= usize::MAX ==> r is Ok,
    {
        proof {
            if u64_numbers_members(self.metadata_spec()) {
                lemma_header_doc_numbers(self.tensors_spec(), self.metadata_spec());
            }
        }
        let doc = self.header_document();
        let json = match json_to_vec(&doc) {
            Ok(j) => j,
            Err(msg) => {
                return Err(SafetensorsError::Json(msg));
            },
        };
        let data = self.data_len();
        if data > usize::MAX - 16 || json.len() > usize::MAX - 16 - data {
            return Err(SafetensorsError::Json("file image does not fit in memory".to_owned()));
        }
        Ok(self.build_with_header(&json))
    }

    /// The whole file: the framed header `json`, then every tensor's bytes
    /// in registration order.
    pub fn build_with_header(&self, json: &[u8]) -> (out: Vec<u8>)
        requires
            self.wf(),
            json@.len() + 16 + total_len(self.tensors_spec()) <= usize::MAX,
        ensures
            out@ == prefixed_header(json@) + data_section(self.tensors_spec()),
    {
        let ghost ts = self.tensors_spec();
        let mut out = frame_header(json);
        let ghost head = out@;
        proof {
            lemma_align_up(json@.len() as int, 8);
        }
        let mut i: usize = 0;
        while i < self.tensors.len()
            invariant
                i <= self.tensors.len(),
                ts == self.tensors_spec(),
                self.wf(),
                json@.len() + 16 + total_len(ts) <= usize::MAX,
                head.len() <= json@.len() + 15,
                out@ == head + data_section(ts.take(i as int)),
            decreases self.tensors.len() - i,
        {
            proof {
                lemma_offsets(ts, i as int);
                assert(ts.take(i + 1).drop_last() =~= ts.take(i as int));
                lemma_data_section_len(ts.take(i + 1));
                assert(ts.take(i + 1).last() == ts[i as int]);
            }
            let mut chunk = vstd::slice::slice_to_vec(self.tensors[i].3.as_slice());
            out.append(&mut chunk);
            i = i + 1;
            proof {
                assert(out@ =~= head + data_section(ts.take(i as int)));
            }
        }
        proof {
            assert(ts.take(i as int) =~= ts);
        }
        out
    }
}

proof fn lemma_data_section_len(ts: Seq<TensorEntry>)
    ensures
        data_section(ts).len() == total_len(ts),
    decreases ts.len(),
{
    if ts.len() > 0 {
        lemma_data_section_len(ts.drop_last());
    }
}

/// The tensors copied out of a file whose entries are `es` and whose data
/// section starts at `base` in `bytes`: each name, with the dtype, shape and
/// bytes of the first entry of that name.
pub open spec fn copied_tensors(es: Seq<(Seq<char>, (Dtype, Seq<usize>, usize, usize))>, base: nat, bytes: Seq<u8>) -> Seq<TensorEntry> {
    Seq::new(
        es.len(),
        |i: int|
            {
                let j = crate::safetensors::first_entry(es, es[i].0, 0).unwrap();
                let (d, sh, st, en) = es[j].1;
                (es[i].0, d, sh, bytes.subrange(base + st, base + en))
            },
    )
}

/// `md` after setting each member of `src` in turn.
pub open spec fn set_members(md: Seq<(Seq<char>, Json)>, src: Seq<(Seq<char>, Json)>) -> Seq<(Seq<char>, Json)>
    decreases src.len(),
{
    if src.len() == 0 {
        md
    } else {
        set_member(set_members(md, src.drop_last()), src.last().0, src.last().1)
    }
}

proof fn lemma_first_entry_found<V>(es: Seq<(Seq<char>, V)>, name: Seq<char>, i: int, k: int)
    requires
        0 <= i <= k < es.len(),
        es[k].0 == name,
    ensures
        crate::safetensors::first_entry(es, name, i) matches Some(j) && i <= j <= k && es[j].0 == name,
    decreases k - i,
{
    if es[i].0 != name {
        lemma_first_entry_found(es, name, i + 1, k);
    }
}

impl SafetensorsBuilder {
    /// A builder holding a copy of every tensor and of the `__metadata__`
    /// table of `file`, whose bytes are `bytes`.
    pub fn from_file_parts(file: &crate::safetensors::SafetensorsFile, bytes: &[u8]) -> (b: SafetensorsBuilder)
        requires
            file.wf(),
            bytes@.len() == file.file_len_spec(),
            total_len(copied_tensors(file.entries(), file.data_base_spec() as nat, bytes@)) <= usize::MAX,
        ensures
            b.wf(),
            b.tensors_spec() == copied_tensors(file.entries(), file.data_base_spec() as nat, bytes@),
            b.metadata_spec() == set_members(Seq::empty(), file.metadata_spec()),
    {
        let ghost target = copied_tensors(file.entries(), file.data_base_spec() as nat, bytes@);
        let mut builder = SafetensorsBuilder::new();
        let names = file.tensor_names();
        let mut i: usize = 0;
        while i < names.len()
            invariant
                i <= names.len(),
                names@.len() == file.entries().len(),
                forall|k: int| 0 <= k < names@.len() ==> #[trigger] names@[k]@ == file.entries()[k].0,
                file.wf(),
                bytes@.len() == file.file_len_spec(),
                target == copied_tensors(file.entries(), file.data_base_spec() as nat, bytes@),
                total_len(target) <= usize::MAX,
                builder.wf(),
                builder.tensors_spec() == target.take(i as int),
                builder.metadata_spec() == Seq::<(Seq<char>, Json)>::empty(),
            decreases names.len() - i,
        {
            proof {
                lemma_first_entry_found(file.entries(), names@[i as int]@, 0, i as int);
                lemma_offsets(target, i as int);
                assert(target.take(i + 1).drop_last() =~= target.take(i as int));
            }
            let view = match file.get_tensor(bytes, names[i]) {
                Some(v) => v,
                None => {
                    proof {
                        assert(false);
                    }
                    return builder;
                },
            };
            proof {
                let j = crate::safetensors::first_entry(file.entries(), names@[i as int]@, 0).unwrap();
                file.lemma_entry_span(j);
            }
            let data = vstd::slice::slice_to_vec(view.data);
            let name = names[i].to_owned();
            let r = builder.add_tensor(name, view.dtype, view.shape, data);
            proof {
                assert(builder.tensors_spec() =~= target.take(i + 1));
            }
            i = i + 1;
        }
        proof {
            assert(target.take(i as int) =~= target);
        }
        let md = file.metadata();
        let mut k: usize = 0;
        proof {
            lemma_members_model(md@);
            assert(md@.take(0) =~= Seq::<(String, JsonValue)>::empty());
        }
        while k < md.len()
            invariant
                k <= md.len(),
                members_model(md@) == file.metadata_spec(),
                builder.wf(),
                builder.tensors_spec() == target,
                builder.metadata_spec() == set_members(Seq::empty(), file.metadata_spec().take(k as int)),
            decreases md.len() - k,
        {
            proof {
                lemma_members_model(md@);
                assert(file.metadata_spec().take(k + 1).drop_last() =~= file.metadata_spec().take(k as int));
            }
            let key = md[k].0.clone();
            let value = md[k].1.deep_clone();
            builder.add_metadata(key, value);
            k = k + 1;
        }
        proof {
            assert(file.metadata_spec().take(k as int) =~= file.metadata_spec());
        }
        builder
    }
}

/// The decimal rendering of `n` is a plain digit literal denoting `n`.
pub proof fn lemma_decimal_literal(n: nat)
    ensures
        all_digits(decimal(n)),
        digits_value(decimal(n)) == n,
    decreases n,
{
    let k = n % 10;
    let c = digit_char(k);
    assert(c as nat == k + 48 && is_digit(c) && digit_val(c) == k) by {
        assert(((k + 48) as u8) as nat == k + 48);
    }
    if n >= 10 {
        lemma_decimal_literal(n / 10);
        let d = decimal(n);
        assert(d.drop_last() =~= decimal(n / 10));
        assert(d.last() == c);
        assert forall|i: int| 0 <= i < d.len() implies is_digit(#[trigger] d[i]) by {
            if i < d.len() - 1 {
                assert(d[i] == decimal(n / 10)[i]);
            }
        }
        assert((n / 10) * 10 + k == n);
        assert(digits_value(d) == digits_value(d.drop_last()) * 10 + digit_val(d.last()));
        assert(digits_value(d.drop_last()) == n / 10);
    } else {
        assert(k == n);
        let d = decimal(n);
        assert(d.drop_last() =~= Seq::<char>::empty());
        assert(d.last() == c);
        assert(digits_value(d) == digits_value(d.drop_last()) * 10 + digit_val(d.last()));
        assert(digits_value(d.drop_last()) == 0);
    }
}

/// A decimal number document reads back as the number it was written from.
proof fn lemma_number_u64(n: nat)
    requires
        n <= u64::MAX,
    ensures
        number(n).as_u64() == Some(n as u64),
{
    lemma_decimal_literal(n);
}

proof fn lemma_shape_values(sh: Seq<usize>)
    ensures
        shape_values(sh.map_values(|d: usize| number(d as nat))) == Some(sh),
    decreases sh.len(),
{
    let f = |d: usize| number(d as nat);
    if sh.len() > 0 {
        assert(sh.map_values(f).drop_last() =~= sh.drop_last().map_values(f));
        lemma_shape_values(sh.drop_last());
        lemma_number_u64(sh.last() as nat);
        assert(sh.drop_last().push(sh.last()) =~= sh);
    } else {
        assert(sh.map_values(f) =~= Seq::<Json>::empty());
        assert(sh =~= Seq::<usize>::empty());
    }
}

proof fn lemma_key_literals()
    ensures
        "dtype"@ != "shape"@,
        "dtype"@ != "data_offsets"@,
        "shape"@ != "data_offsets"@,
{
    reveal_strlit("dtype");
    reveal_strlit("shape");
    reveal_strlit("data_offsets");
    assert("dtype"@[0] != "shape"@[0]);
    assert("dtype"@.len() != "data_offsets"@.len());
    assert("shape"@.len() != "data_offsets"@.len());
}

/// The header entry written for a tensor reads back as what was written.
proof fn lemma_entry_info_doc(d: Dtype, sh: Seq<usize>, a: nat, b: nat)
    requires
        a <= usize::MAX,
        b <= usize::MAX,
    ensures
        entry_info(tensor_doc(d, sh, a, b)) == Ok::<(Dtype, Seq<usize>, usize, usize), HeaderFault>(
            (d, sh, a as usize, b as usize),
        ),
{
    lemma_key_literals();
    let e0 = ("dtype"@, Json::Str(dtype_name(d)));
    let e1 = ("shape"@, Json::Array(sh.map_values(|x: usize| number(x as nat))));
    let e2 = ("data_offsets"@, Json::Array(seq![number(a), number(b)]));
    let m1 = seq![e0];
    let m2 = seq![e0, e1];
    let m = seq![e0, e1, e2];
    assert(m.drop_last() =~= m2);
    assert(m2.drop_last() =~= m1);
    assert(m1.drop_last() =~= Seq::<(Seq<char>, Json)>::empty());
    assert(member(m1, "dtype"@) == Some(e0.1));
    assert(member(m2, "dtype"@) == Some(e0.1));
    assert(member(m, "dtype"@) == Some(e0.1));
    assert(member(m2, "shape"@) == Some(e1.1));
    assert(member(m, "shape"@) == Some(e1.1));
    assert(member(m, "data_offsets"@) == Some(e2.1));
    lemma_dtype_name_round_trip(d);
    lemma_shape_values(sh);
    lemma_number_u64(a);
    lemma_number_u64(b);
}

/// The entries that a header written for `ts` lists: each tensor with its
/// dtype, shape and data span.
pub open spec fn listed_entries(ts: Seq<TensorEntry>) -> Seq<(Seq<char>, (Dtype, Seq<usize>, usize, usize))> {
    Seq::new(
        ts.len(),
        |i: int| (ts[i].0, (ts[i].1, ts[i].2, data_offset(ts, i) as usize, data_offset(ts, i + 1) as usize)),
    )
}

proof fn lemma_members_read_back(ts: Seq<TensorEntry>, k: int)
    requires
        0 <= k <= ts.len(),
        forall|i: int| 0 <= i < ts.len() ==> #[trigger] ts[i].0 != "__metadata__"@,
        total_len(ts) <= usize::MAX,
    ensures
        header_entries(tensor_members(ts).take(k)) == Ok::<_, HeaderFault>(listed_entries(ts).take(k)),
        header_metadata(tensor_members(ts).take(k)) == Seq::<(Seq<char>, Json)>::empty(),
    decreases k,
{
    if k > 0 {
        lemma_members_read_back(ts, k - 1);
        assert(tensor_members(ts).take(k).drop_last() =~= tensor_members(ts).take(k - 1));
        lemma_offsets(ts, k - 1);
        if k - 1 > 0 {
            lemma_offsets(ts, k - 2);
        }
        lemma_offset_bound(ts, k - 1);
        lemma_entry_info_doc(ts[k - 1].1, ts[k - 1].2, data_offset(ts, k - 1), data_offset(ts, k));
        assert(listed_entries(ts).take(k - 1).push(listed_entries(ts)[k - 1]) =~= listed_entries(ts).take(k));
    } else {
        assert(tensor_members(ts).take(0) =~= Seq::<(Seq<char>, Json)>::empty());
        assert(listed_entries(ts).take(0) =~= Seq::<(Seq<char>, (Dtype, Seq<usize>, usize, usize))>::empty());
    }
}

proof fn lemma_offset_bound(ts: Seq<TensorEntry>, i: int)
    requires
        0 <= i <= ts.len(),
    ensures
        data_offset(ts, i) <= total_len(ts),
{
    if i < ts.len() {
        lemma_offsets(ts, i);
    } else {
        assert(ts.take(i) =~= ts);
    }
}

proof fn lemma_listed_spans(ts: Seq<TensorEntry>, base: nat, file_len: nat)
    requires
        forall|i: int| 0 <= i < ts.len() ==> tensor_bytes(#[trigger] ts[i].1, ts[i].2) == Some(ts[i].3.len()),
        total_len(ts) <= usize::MAX,
        base + total_len(ts) <= file_len,
    ensures
        forall|i: int| 0 <= i < ts.len() ==> span_ok(#[trigger] listed_entries(ts)[i].1, base, file_len),
{
    assert forall|i: int| 0 <= i < ts.len() implies span_ok(#[trigger] listed_entries(ts)[i].1, base, file_len) by {
        lemma_offsets(ts, i);
        lemma_offset_bound(ts, i);
        assert(tensor_bytes(ts[i].1, ts[i].2) == Some(ts[i].3.len()));
    }
}

/// Reading back the header written for a set of tensors gives those tensors,
/// in order, with consecutive data spans that fit a file with room for the
/// data after `base`, and gives back the metadata table.
pub proof fn lemma_header_read_back(ts: Seq<TensorEntry>, md: Seq<(Seq<char>, Json)>, base: nat, file_len: nat)
    requires
        forall|i: int| 0 <= i < ts.len() ==> tensor_bytes(#[trigger] ts[i].1, ts[i].2) == Some(ts[i].3.len()),
        forall|i: int| 0 <= i < ts.len() ==> #[trigger] ts[i].0 != "__metadata__"@,
        total_len(ts) <= usize::MAX,
        base + total_len(ts) <= file_len,
    ensures
        header_doc(ts, md) matches Json::Object(m) && header_entries(m) == Ok::<_, HeaderFault>(listed_entries(ts))
            && header_metadata(m) == md,
        forall|i: int| 0 <= i < ts.len() ==> span_ok(#[trigger] listed_entries(ts)[i].1, base, file_len),
{
    lemma_members_read_back(ts, ts.len() as int);
    let tm = tensor_members(ts);
    assert(tm.take(ts.len() as int) =~= tm);
    assert(listed_entries(ts).take(ts.len() as int) =~= listed_entries(ts));
    if md.len() > 0 {
        let m = tm.push(("__metadata__"@, Json::Object(md)));
        assert(m.drop_last() =~= tm);
        assert(header_entries(m) == header_entries(tm));
        assert(header_metadata(m) == md);
    } else {
        assert(md =~= Seq::<(Seq<char>, Json)>::empty());
    }
    lemma_listed_spans(ts, base, file_len);
}

/// A framed header declares the length of the padded JSON text: reading
/// the length prefix back finds the data section right after the padding,
/// at an offset that is a multiple of eight, and the text is unchanged.
pub proof fn lemma_framed_header(json: Seq<u8>, data: Seq<u8>)
    requires
        json.len() + 16 + data.len() <= usize::MAX,
    ensures
        header_end_spec(prefixed_header(json) + data) == Some((8 + align_up(json.len() as int, 8)) as nat),
        (8 + align_up(json.len() as int, 8)) % 8 == 0,
        (prefixed_header(json) + data).subrange(8, 8 + json.len() as int) == json,
        (prefixed_header(json) + data).subrange(8 + align_up(json.len() as int, 8), (prefixed_header(json) + data).len() as int) == data,
{
    lemma_align_up(json.len() as int, 8);
    let padded = align_up(json.len() as int, 8);
    vstd::bytes::lemma_auto_spec_u64_to_from_le_bytes();
    let pre = spec_u64_to_le_bytes(padded as u64);
    let all = prefixed_header(json) + data;
    assert(pre.len() == 8);
    assert(all.subrange(0, 8) =~= pre);
    assert(all.subrange(8, 8 + json.len() as int) =~= json);
    assert(all.subrange(8 + padded, all.len() as int) =~= data);
}

} // verus!
