use tpt_local_ai::gguf::{GgmlType, GgufError, GgufFile, GgufValue, GGUF_MAGIC};

struct Writer {
    buf: Vec<u8>,
}

impl Writer {
    fn new() -> Self {
        Writer { buf: Vec::new() }
    }
    fn u32(&mut self, v: u32) {
        self.buf.extend_from_slice(&v.to_le_bytes());
    }
    fn u64(&mut self, v: u64) {
        self.buf.extend_from_slice(&v.to_le_bytes());
    }
    fn string(&mut self, s: &str) {
        self.u64(s.len() as u64);
        self.buf.extend_from_slice(s.as_bytes());
    }
    fn kv_string(&mut self, key: &str, val: &str) {
        self.string(key);
        self.u32(8);
        self.string(val);
    }
    fn kv_u32(&mut self, key: &str, val: u32) {
        self.string(key);
        self.u32(4);
        self.u32(val);
    }
    fn kv_str_array(&mut self, key: &str, vals: &[&str]) {
        self.string(key);
        self.u32(9);
        self.u32(8);
        self.u64(vals.len() as u64);
        for v in vals {
            self.string(v);
        }
    }
}

fn fixture_bytes() -> Vec<u8> {
    let mut w = Writer::new();
    w.u32(GGUF_MAGIC);
    w.u32(3);
    w.u64(1);
    w.u64(4);
    w.kv_string("general.architecture", "llama");
    w.kv_u32("llama.block_count", 32);
    w.kv_str_array("tokenizer.ggml.tokens", &["<s>", "hello", "café"]);
    w.kv_u32("general.alignment", 32);
    w.string("token_embd.weight");
    w.u32(2);
    w.u64(4096);
    w.u64(128_256);
    w.u32(12);
    w.u64(0);
    w.buf
}

#[test]
fn parses_metadata_and_tensors() {
    let bytes = fixture_bytes();
    let g = GgufFile::parse(&bytes).unwrap();
    assert_eq!(g.version(), 3);
    assert_eq!(g.architecture(), Some("llama"));
    assert_eq!(g.get("llama.block_count").and_then(GgufValue::as_u64), Some(32));

    let toks = g.get("tokenizer.ggml.tokens").and_then(GgufValue::as_array).unwrap();
    assert_eq!(toks.len(), 3);
    assert_eq!(toks[2].as_str(), Some("café"));

    assert_eq!(g.len(), 1);
    let t = g.tensor("token_embd.weight").unwrap();
    assert_eq!(t.dimensions, vec![4096, 128_256]);
    assert_eq!(t.ggml_type, GgmlType::Q4_K);
    assert_eq!(g.alignment(), 32);
    let end = bytes.len() as u64;
    assert_eq!(g.tensor_data_offset(), (end + 31) / 32 * 32);
}

#[test]
fn rejects_bad_magic() {
    assert!(matches!(GgufFile::parse(b"NOPExxxxxxxxxxxx"), Err(GgufError::BadMagic)));
}

#[test]
fn rejects_unsupported_version() {
    let mut w = Writer::new();
    w.u32(GGUF_MAGIC);
    w.u32(1);
    w.u64(0);
    w.u64(0);
    assert!(matches!(GgufFile::parse(&w.buf), Err(GgufError::UnsupportedVersion(1))));
}

#[test]
fn rejects_truncated_header() {
    let mut w = Writer::new();
    w.u32(GGUF_MAGIC);
    w.u32(3);
    w.u64(0);
    w.u64(1);
    assert!(matches!(GgufFile::parse(&w.buf), Err(GgufError::UnexpectedEof)));
}

#[test]
fn rejects_counts_beyond_file_size() {
    let mut w = Writer::new();
    w.u32(GGUF_MAGIC);
    w.u32(2);
    w.u64(1_000_000);
    w.u64(0);
    match GgufFile::parse(&w.buf) {
        Err(GgufError::Malformed(m)) => {
            assert_eq!(m, "declared tensor/metadata count exceeds file size")
        }
        other => panic!("unexpected {:?}", other.err()),
    }
}

#[test]
fn rejects_nested_arrays_and_unknown_types() {
    let mut w = Writer::new();
    w.u32(GGUF_MAGIC);
    w.u32(3);
    w.u64(0);
    w.u64(1);
    w.string("k");
    w.u32(9);
    w.u32(9);
    w.u64(0);
    assert!(matches!(GgufFile::parse(&w.buf), Err(GgufError::Malformed(_))));

    let mut w = Writer::new();
    w.u32(GGUF_MAGIC);
    w.u32(3);
    w.u64(0);
    w.u64(1);
    w.string("k");
    w.u32(77);
    w.u32(0);
    assert!(matches!(GgufFile::parse(&w.buf), Err(GgufError::UnknownValueType(77))));
}

#[test]
fn rejects_invalid_utf8_keys() {
    let mut w = Writer::new();
    w.u32(GGUF_MAGIC);
    w.u32(3);
    w.u64(0);
    w.u64(1);
    w.u64(2);
    w.buf.extend_from_slice(&[0xff, 0xfe]);
    w.u32(0);
    w.buf.push(1);
    assert!(matches!(GgufFile::parse(&w.buf), Err(GgufError::InvalidUtf8)));
}

#[test]
fn alignment_defaults_and_rounds_the_data_offset() {
    let mut w = Writer::new();
    w.u32(GGUF_MAGIC);
    w.u32(3);
    w.u64(0);
    w.u64(1);
    w.kv_u32("general.alignment", 0);
    let g = GgufFile::parse(&w.buf).unwrap();
    assert_eq!(g.alignment(), 32);
    assert!(g.is_empty());
    let end = w.buf.len() as u64;
    assert_eq!(g.tensor_data_offset(), (end + 31) / 32 * 32);

    let mut w = Writer::new();
    w.u32(GGUF_MAGIC);
    w.u32(3);
    w.u64(0);
    w.u64(1);
    w.kv_u32("general.alignment", 64);
    let g = GgufFile::parse(&w.buf).unwrap();
    assert_eq!(g.alignment(), 64);
    assert_eq!(g.tensor_data_offset() % 64, 0);
}

#[test]
fn integer_views_of_values() {
    assert_eq!(GgufValue::I8(-1).as_u64(), None);
    assert_eq!(GgufValue::I32(7).as_u64(), Some(7));
    assert_eq!(GgufValue::U64(u64::MAX).as_i64(), None);
    assert_eq!(GgufValue::U16(9).as_i64(), Some(9));
    assert_eq!(GgufValue::Bool(true).as_bool(), Some(true));
    assert_eq!(GgufValue::U8(1).as_str(), None);
    assert_eq!(GgmlType::from_u32(30), GgmlType::BF16);
    assert_eq!(GgmlType::from_u32(4), GgmlType::Unknown(4));
}

#[test]
fn metadata_and_tensor_lists_keep_file_order() {
    let bytes = fixture_bytes();
    let g = GgufFile::parse(&bytes).unwrap();
    let keys: Vec<&str> = g.metadata().iter().map(|(k, _)| k.as_str()).collect();
    assert_eq!(keys, vec!["general.architecture", "llama.block_count", "tokenizer.ggml.tokens", "general.alignment"]);
    assert_eq!(g.tensors().len(), 1);
    assert_eq!(g.tensors()[0].offset, 0);
    assert!(g.tensor("missing").is_none());
    assert!(g.get("missing").is_none());
}
