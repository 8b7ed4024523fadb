use tpt_local_ai::json::JsonValue;
use tpt_local_ai::safetensors::{
    parse_header, Dtype, SafetensorsError, SafetensorsFile, TensorView,
};
use tpt_local_ai::safetensors_writer::{frame_header, SafetensorsBuilder};

fn build(b: &SafetensorsBuilder) -> Vec<u8> {
    b.build().unwrap()
}

fn open_bytes(bytes: &[u8]) -> Result<SafetensorsFile, SafetensorsError> {
    parse_header(bytes)
}

fn f32_bytes(v: &[f32]) -> Vec<u8> {
    v.iter().flat_map(|x| x.to_le_bytes()).collect()
}

fn read_f32(data: &[u8]) -> Vec<f32> {
    data.chunks_exact(4).map(|c| f32::from_le_bytes(c.try_into().unwrap())).collect()
}

fn raw_file(header_json: &str, data: &[u8]) -> Vec<u8> {
    let mut out = frame_header(header_json.as_bytes());
    out.extend_from_slice(data);
    out
}

#[test]
fn round_trip_f32_matrix() {
    let mut builder = SafetensorsBuilder::new();
    builder
        .add_tensor("weight".to_string(), Dtype::F32, vec![2, 3], f32_bytes(&[1.0, 2.0, 3.0, 4.0, 5.0, 6.0]))
        .unwrap();
    builder.add_metadata("description".to_string(), JsonValue::String("test tensor".to_string()));
    builder
        .add_tensor("bias".to_string(), Dtype::F32, vec![3], f32_bytes(&[0.5, -0.5, 1.5]))
        .unwrap();

    let bytes = build(&builder);
    let file = open_bytes(&bytes).unwrap();
    assert_eq!(file.len(), 2);
    let names = file.tensor_names();
    assert!(names.contains(&"weight"));
    assert!(names.contains(&"bias"));

    let w = file.get_tensor(&bytes, "weight").unwrap();
    assert_eq!(w.dtype, Dtype::F32);
    assert_eq!(w.shape, vec![2, 3]);
    assert_eq!(w.check_f32_conversion().unwrap(), 6);
    assert_eq!(read_f32(w.data), vec![1.0, 2.0, 3.0, 4.0, 5.0, 6.0]);

    let b = file.get_tensor(&bytes, "bias").unwrap();
    assert_eq!(read_f32(b.data), vec![0.5, -0.5, 1.5]);
    let md = file.metadata();
    assert_eq!(md.len(), 1);
    assert_eq!(md[0].0, "description");
    assert_eq!(md[0].1.as_str(), Some("test tensor"));
}

#[test]
fn header_is_eight_byte_aligned() {
    let mut builder = SafetensorsBuilder::new();
    builder.add_tensor("x".to_string(), Dtype::F32, vec![1], f32_bytes(&[1.0])).unwrap();
    let bytes = build(&builder);
    let header_len = u64::from_le_bytes(bytes[0..8].try_into().unwrap()) as usize;
    assert_eq!((8 + header_len) % 8, 0);
    assert_eq!(bytes.len() - (8 + header_len), 4);
}

#[test]
fn rejects_wrong_data_length() {
    let mut builder = SafetensorsBuilder::new();
    let err = builder
        .add_tensor("bad".to_string(), Dtype::F32, vec![2], f32_bytes(&[1.0, 2.0, 3.0]))
        .unwrap_err();
    assert!(matches!(
        err,
        SafetensorsError::BadDataLength { expected: 8, actual: 12, .. }
    ));
}

#[test]
fn round_trips_every_dtype() {
    let cases: Vec<(Dtype, Vec<u8>)> = vec![
        (Dtype::F16, vec![0x00, 0x3c, 0x00, 0x40]),
        (Dtype::BF16, vec![0x80, 0x3f, 0x00, 0x40]),
        (Dtype::I8, vec![0xff, 0x02]),
        (Dtype::I16, vec![0x01, 0x00, 0xff, 0xff]),
        (Dtype::I32, vec![1, 0, 0, 0, 2, 0, 0, 0]),
        (Dtype::I64, vec![1, 0, 0, 0, 0, 0, 0, 0, 2, 0, 0, 0, 0, 0, 0, 0]),
        (Dtype::U8, vec![7, 8]),
        (Dtype::U16, vec![0x01, 0x00, 0x02, 0x00]),
        (Dtype::U32, vec![1, 0, 0, 0, 2, 0, 0, 0]),
        (Dtype::U64, vec![1, 0, 0, 0, 0, 0, 0, 0, 2, 0, 0, 0, 0, 0, 0, 0]),
        (Dtype::BOOL, vec![1, 0]),
        (Dtype::F8E4M3, vec![0x38, 0x40]),
        (Dtype::F8E5M2, vec![0x3c, 0x40]),
    ];
    for (dtype, data) in cases {
        let mut builder = SafetensorsBuilder::new();
        builder.add_tensor("t".to_string(), dtype, vec![2], data.clone()).unwrap();
        let bytes = build(&builder);
        let file = open_bytes(&bytes).unwrap();
        let view = file.get_tensor(&bytes, "t").unwrap();
        assert_eq!(view.dtype, dtype, "dtype mismatch for {dtype:?}");
        assert_eq!(view.shape, vec![2]);
        assert_eq!(view.data, data.as_slice(), "bytes mismatch for {dtype:?}");
    }
}

#[test]
fn bool_and_fp8_views_refuse_f32_conversion() {
    let mut builder = SafetensorsBuilder::new();
    builder.add_tensor("b".to_string(), Dtype::BOOL, vec![2], vec![1, 0]).unwrap();
    let bytes = build(&builder);
    let file = open_bytes(&bytes).unwrap();
    let view = file.get_tensor(&bytes, "b").unwrap();
    assert!(matches!(view.check_f32_conversion(), Err(SafetensorsError::UnsupportedDtype(_))));
    assert_eq!(view.numel(), 2);
}

#[test]
fn rejects_header_length_overflow() {
    let mut bytes = u64::MAX.to_le_bytes().to_vec();
    bytes.extend_from_slice(b"{}");
    assert!(matches!(open_bytes(&bytes), Err(SafetensorsError::InvalidHeader(_))));
}

#[test]
fn rejects_declared_header_len_exceeding_file() {
    let mut bytes = 1000u64.to_le_bytes().to_vec();
    bytes.extend_from_slice(b"{}");
    assert!(matches!(open_bytes(&bytes), Err(SafetensorsError::InvalidHeader(_))));
}

#[test]
fn rejects_non_object_header() {
    let bytes = raw_file("123", &[]);
    assert!(matches!(open_bytes(&bytes), Err(SafetensorsError::InvalidHeader(_))));
}

#[test]
fn rejects_missing_fields() {
    let bytes = raw_file(r#"{"t":{"shape":[2],"data_offsets":[0,2]}}"#, &[0, 0]);
    assert!(matches!(open_bytes(&bytes), Err(SafetensorsError::InvalidHeader(_))));
}

#[test]
fn rejects_unknown_dtype_names() {
    let bytes = raw_file(r#"{"t":{"dtype":"Q9","shape":[2],"data_offsets":[0,2]}}"#, &[0, 0]);
    match open_bytes(&bytes) {
        Err(SafetensorsError::UnsupportedDtype(d)) => assert_eq!(d, "Q9"),
        other => panic!("unexpected {:?}", other.err()),
    }
}

#[test]
fn rejects_start_greater_than_end() {
    let bytes = raw_file(r#"{"t":{"dtype":"U8","shape":[2],"data_offsets":[10,5]}}"#, &[0; 16]);
    assert!(matches!(open_bytes(&bytes), Err(SafetensorsError::InvalidHeader(_))));
}

#[test]
fn rejects_span_not_matching_shape() {
    let bytes = raw_file(r#"{"t":{"dtype":"U8","shape":[2],"data_offsets":[0,3]}}"#, &[0, 0, 0]);
    assert!(matches!(open_bytes(&bytes), Err(SafetensorsError::InvalidHeader(_))));
}

#[test]
fn rejects_offsets_exceeding_file() {
    let bytes = raw_file(r#"{"t":{"dtype":"U8","shape":[8],"data_offsets":[0,8]}}"#, &[0, 0, 0]);
    assert!(matches!(open_bytes(&bytes), Err(SafetensorsError::InvalidHeader(_))));
}

#[test]
fn patch_existing_file_replaces_one_tensor() {
    let mut builder = SafetensorsBuilder::new();
    builder.add_tensor("a".to_string(), Dtype::F32, vec![2], f32_bytes(&[1.0, 2.0])).unwrap();
    builder.add_tensor("b".to_string(), Dtype::F32, vec![2], f32_bytes(&[3.0, 4.0])).unwrap();
    builder.add_metadata("format".to_string(), JsonValue::String("pt".to_string()));
    let src = build(&builder);
    let file = open_bytes(&src).unwrap();

    let mut patched = SafetensorsBuilder::from_file_parts(&file, &src);
    patched
        .replace_tensor("b".to_string(), Dtype::F32, vec![2], f32_bytes(&[9.0, 9.0]))
        .unwrap();
    let out = build(&patched);
    let file = open_bytes(&out).unwrap();
    assert_eq!(read_f32(file.get_tensor(&out, "a").unwrap().data), vec![1.0, 2.0]);
    assert_eq!(read_f32(file.get_tensor(&out, "b").unwrap().data), vec![9.0, 9.0]);
    let md = file.metadata();
    assert_eq!(md[0].0, "format");
    assert_eq!(md[0].1.as_str(), Some("pt"));
}

#[test]
fn header_document_lists_contiguous_offsets() {
    let mut builder = SafetensorsBuilder::new();
    builder.add_tensor("a".to_string(), Dtype::U8, vec![3], vec![1, 2, 3]).unwrap();
    builder.add_tensor("b".to_string(), Dtype::U16, vec![2], vec![0, 0, 0, 0]).unwrap();
    let doc = builder.header_document();
    let a = doc.get("a").unwrap().get("data_offsets").unwrap().as_array().unwrap();
    assert_eq!((a[0].as_u64(), a[1].as_u64()), (Some(0), Some(3)));
    let b = doc.get("b").unwrap().get("data_offsets").unwrap().as_array().unwrap();
    assert_eq!((b[0].as_u64(), b[1].as_u64()), (Some(3), Some(7)));
    assert_eq!(doc.get("b").unwrap().get("dtype").unwrap().as_str(), Some("U16"));
    assert!(doc.get("__metadata__").is_none());
}

#[test]
fn metadata_keys_are_replaced_in_place() {
    let mut builder = SafetensorsBuilder::new();
    builder.add_metadata("k".to_string(), JsonValue::String("1".to_string()));
    builder.add_metadata("j".to_string(), JsonValue::String("2".to_string()));
    builder.add_metadata("k".to_string(), JsonValue::String("3".to_string()));
    let doc = builder.header_document();
    let md = doc.get("__metadata__").unwrap().as_object().unwrap();
    assert_eq!(md.len(), 2);
    assert_eq!(md[0].0, "k");
    assert_eq!(md[0].1.as_str(), Some("3"));
}

#[test]
fn frame_pads_with_spaces() {
    let framed = frame_header(b"{}");
    assert_eq!(framed.len(), 16);
    assert_eq!(&framed[0..8], &8u64.to_le_bytes());
    assert_eq!(&framed[8..], b"{}      ");
    assert_eq!(frame_header(b"12345678").len(), 16);
}

#[test]
fn dtype_names_and_sizes() {
    assert_eq!(Dtype::F8E4M3.as_str(), "F8_E4M3");
    assert_eq!(Dtype::from_name("BF16"), Some(Dtype::BF16));
    assert_eq!(Dtype::from_name("bf16"), None);
    assert_eq!(Dtype::I64.size_bytes(), 8);
}

#[test]
fn every_dtype_name_reads_back() {
    let all = [
        Dtype::F16, Dtype::F32, Dtype::F64, Dtype::BF16, Dtype::I8, Dtype::I16, Dtype::I32, Dtype::I64,
        Dtype::U8, Dtype::U16, Dtype::U32, Dtype::U64, Dtype::BOOL, Dtype::F8E4M3, Dtype::F8E5M2,
    ];
    for d in all {
        assert_eq!(Dtype::from_name(d.as_str()), Some(d));
    }
}

#[test]
fn partial_elements_are_an_unsupported_conversion() {
    let data = [0u8, 0, 128];
    let view = TensorView { dtype: Dtype::F32, shape: vec![1], data: &data };
    assert!(matches!(view.check_f32_conversion(), Err(SafetensorsError::UnsupportedDtype(_))));
    let data = [0u8; 8];
    let view = TensorView { dtype: Dtype::F32, shape: vec![1], data: &data };
    assert!(matches!(
        view.check_f32_conversion(),
        Err(SafetensorsError::BadDataLength { expected: 4, actual: 8, .. })
    ));
    let view = TensorView { dtype: Dtype::BOOL, shape: vec![3], data: &data };
    assert!(matches!(view.check_f32_conversion(), Err(SafetensorsError::UnsupportedDtype(_))));
}
