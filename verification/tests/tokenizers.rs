use std::collections::BTreeMap;

use tpt_local_ai::bpe::{parse_merge_lines, BpeTokenizer};
use tpt_local_ai::tokenizer::{parse_vocab_lines, Tokenizer, TokenizerError};
use tpt_local_ai::wordpiece::WordPieceTokenizer;

fn entries(m: BTreeMap<String, u32>) -> Vec<(String, u32)> {
    m.into_iter().collect()
}

fn bpe_fixture() -> BpeTokenizer {
    let mut vocab = BTreeMap::new();
    vocab.insert("l".to_string(), 0u32);
    vocab.insert("o".to_string(), 1u32);
    vocab.insert("w".to_string(), 2u32);
    vocab.insert("lo".to_string(), 3u32);
    vocab.insert("low".to_string(), 4u32);
    let merges = vec![
        ("l".to_string(), "o".to_string()),
        ("lo".to_string(), "w".to_string()),
    ];
    BpeTokenizer::from_vocab_merges(entries(vocab), merges)
}

#[test]
fn bpe_merges_to_single_token() {
    let tok = bpe_fixture();
    assert_eq!(tok.encode("low").unwrap(), vec![4]);
    assert_eq!(tok.encode("lo").unwrap(), vec![3]);
}

#[test]
fn bpe_round_trip() {
    let tok = bpe_fixture();
    let text = "low lo l o w";
    let ids = tok.encode(text).unwrap();
    assert_eq!(ids, vec![4, 3, 0, 1, 2]);
    assert_eq!(tok.decode(&ids).unwrap(), "lowlolow");
}

#[test]
fn bpe_unknown_without_unk_errors() {
    let tok = bpe_fixture();
    assert!(tok.encode("x").is_err());
}

fn wordpiece_fixture() -> WordPieceTokenizer {
    let mut vocab = BTreeMap::new();
    vocab.insert("[UNK]".to_string(), 0u32);
    vocab.insert("un".to_string(), 1u32);
    vocab.insert("##aff".to_string(), 2u32);
    vocab.insert("##able".to_string(), 3u32);
    vocab.insert("##a".to_string(), 4u32);
    vocab.insert("##ble".to_string(), 5u32);
    WordPieceTokenizer::from_vocab(entries(vocab), "[UNK]").unwrap()
}

#[test]
fn wordpiece_longest_match() {
    let tok = wordpiece_fixture();
    assert_eq!(tok.encode("unaffable").unwrap(), vec![1, 2, 3]);
    assert_eq!(tok.decode(&[1, 2, 3]).unwrap(), "unaffable");
}

#[test]
fn wordpiece_unknown_word_is_unk() {
    let tok = wordpiece_fixture();
    assert_eq!(tok.encode("zzz").unwrap(), vec![0]);
    assert_eq!(tok.decode(&[0]).unwrap(), "[UNK]");
}

#[test]
fn wordpiece_whole_word_in_vocab() {
    let tok = wordpiece_fixture();
    assert_eq!(tok.encode("un").unwrap(), vec![1]);
}

fn byte_level_fixture() -> BpeTokenizer {
    let mut vocab = BTreeMap::new();
    for c in "helo wrdĠ".chars() {
        let id = vocab.len() as u32;
        vocab.insert(c.to_string(), id);
    }
    vocab.insert("he".to_string(), vocab.len() as u32);
    vocab.insert("Ġw".to_string(), vocab.len() as u32);
    let merges = vec![
        ("h".to_string(), "e".to_string()),
        ("Ġ".to_string(), "w".to_string()),
    ];
    BpeTokenizer::from_vocab_merges(entries(vocab), merges).with_byte_level()
}

#[test]
fn byte_level_round_trip_is_lossless() {
    let tok = byte_level_fixture();
    let text = "hello world";
    let ids = tok.encode(text).unwrap();
    assert_eq!(tok.decode(&ids).unwrap(), text);
}

#[test]
fn byte_level_never_fails_on_unicode() {
    let mut vocab = BTreeMap::new();
    vocab.insert("<unk>".to_string(), 0u32);
    let tok = BpeTokenizer::from_vocab_merges(entries(vocab), vec![]).with_byte_level();
    assert!(tok.encode("é🎉").is_ok());
}

#[test]
fn special_tokens_are_atomic() {
    let mut vocab = BTreeMap::new();
    vocab.insert("a".to_string(), 0u32);
    vocab.insert("b".to_string(), 1u32);
    let mut specials = BTreeMap::new();
    specials.insert("<|endoftext|>".to_string(), 100u32);
    let tok = BpeTokenizer::from_vocab_merges(entries(vocab), vec![])
        .with_special_tokens(entries(specials));

    let ids = tok.encode("a<|endoftext|>b").unwrap();
    assert_eq!(ids, vec![0, 100, 1]);
    assert_eq!(tok.decode(&[0, 100, 1]).unwrap(), "a<|endoftext|>b");
    assert_eq!(tok.decode(&[100]).unwrap(), "<|endoftext|>");
}

#[test]
fn wordpiece_splits_punctuation() {
    let mut vocab = BTreeMap::new();
    vocab.insert("[UNK]".to_string(), 0u32);
    vocab.insert("hi".to_string(), 1u32);
    vocab.insert("!".to_string(), 2u32);
    let tok = WordPieceTokenizer::from_vocab(entries(vocab), "[UNK]").unwrap();
    assert_eq!(tok.encode("hi!").unwrap(), vec![1, 2]);
}

#[test]
fn wordpiece_lowercase_option() {
    let mut vocab = BTreeMap::new();
    vocab.insert("[UNK]".to_string(), 0u32);
    vocab.insert("hi".to_string(), 1u32);
    let tok = WordPieceTokenizer::from_vocab(entries(vocab), "[UNK]")
        .unwrap()
        .with_lowercase();
    assert_eq!(tok.encode("HI").unwrap(), vec![1]);
}

#[test]
fn empty_input_encodes_to_nothing() {
    let bpe = bpe_fixture();
    assert_eq!(bpe.encode("").unwrap(), Vec::<u32>::new());
    assert_eq!(bpe.encode("   ").unwrap(), Vec::<u32>::new());

    let wp = wordpiece_fixture();
    assert_eq!(wp.encode("").unwrap(), Vec::<u32>::new());
}

#[test]
fn bpe_from_vocab_and_merge_text() {
    let vocab = parse_vocab_lines("l\no\nw\nlo\nlow\n");
    let merges = parse_merge_lines("#version: 0.2\nl o\nlo w\n");
    assert_eq!(vocab.len(), 5);
    assert_eq!(merges, vec![("l".to_string(), "o".to_string()), ("lo".to_string(), "w".to_string())]);
    let tok = BpeTokenizer::from_vocab_merges(vocab, merges);
    assert_eq!(tok.encode("low").unwrap(), vec![4]);
}

#[test]
fn wordpiece_without_unk_entry_errors() {
    let vocab = parse_vocab_lines("hello\nworld\n");
    assert!(matches!(
        WordPieceTokenizer::from_vocab(vocab, "[UNK]"),
        Err(TokenizerError::UnknownToken(_))
    ));
}

#[test]
fn decoding_an_unknown_id_errors() {
    let tok = bpe_fixture();
    assert!(matches!(tok.decode(&[99]), Err(TokenizerError::UnknownToken(_))));
    assert_eq!(tok.vocab_size(), 5);
}

#[test]
fn byte_level_round_trip_keeps_special_tokens() {
    let mut specials = BTreeMap::new();
    specials.insert("<|endoftext|>".to_string(), 500u32);
    let tok = byte_level_fixture().with_special_tokens(entries(specials));
    let text = "hello<|endoftext|> world";
    let ids = tok.encode(text).unwrap();
    assert!(ids.contains(&500));
    assert_eq!(tok.decode(&ids).unwrap(), text);
}

#[test]
fn bpe_from_files_loads_vocab_and_merges() {
    // line index = id: l=0, o=1, w=2, lo=3, low=4; the version header line is ignored.
    let vocab = parse_vocab_lines("l\no\nw\nlo\nlow\n");
    let merges = parse_merge_lines("#version: 0.2\nl o\nlo w\n");
    let tok = BpeTokenizer::from_vocab_merges(vocab, merges);
    assert_eq!(tok.encode("low").unwrap(), vec![4]);
    assert_eq!(tok.vocab_size(), 5);
}

#[test]
fn wordpiece_from_file_errors_on_missing_unk() {
    let vocab = parse_vocab_lines("hello\nworld\n");
    let result = WordPieceTokenizer::from_vocab(vocab, "[UNK]");
    assert!(result.is_err());
}

#[test]
fn errors_name_the_first_unknown_piece() {
    let tok = bpe_fixture();
    match tok.encode("low xyz q") {
        Err(TokenizerError::UnknownToken(t)) => assert_eq!(t, "x"),
        other => panic!("unexpected {other:?}"),
    }
    match tok.decode(&[0, 99, 98]) {
        Err(TokenizerError::UnknownToken(t)) => assert_eq!(t, "99"),
        other => panic!("unexpected {other:?}"),
    }
    let wp = wordpiece_fixture();
    match wp.decode(&[0, 999]) {
        Err(TokenizerError::UnknownToken(t)) => assert_eq!(t, "999"),
        other => panic!("unexpected {other:?}"),
    }
}

#[test]
fn byte_level_decode_of_a_broken_sequence_is_malformed() {
    let mut vocab = BTreeMap::new();
    vocab.insert("\u{c3}".to_string(), 0u32);
    let tok = BpeTokenizer::from_vocab_merges(entries(vocab), vec![]).with_byte_level();
    assert!(matches!(tok.decode(&[0]), Err(TokenizerError::MalformedFile(_))));
    assert!(matches!(tok.decode(&[0, 5]), Err(TokenizerError::UnknownToken(_))));
}

#[test]
fn vocab_json_is_read_by_serde() {
    let v = tpt_local_ai::loader::vocab_from_json(r#"{"b": 1, "a": 0}"#).unwrap();
    assert_eq!(v, vec![("a".to_string(), 0), ("b".to_string(), 1)]);
    assert!(tpt_local_ai::loader::vocab_from_json(r#"{"a": -1}"#).is_err());
    assert!(tpt_local_ai::loader::vocab_from_json(r#"{"a": 1.5}"#).is_err());
    assert!(tpt_local_ai::loader::vocab_from_json(r#"{"a": 4294967296}"#).is_err());
    assert!(tpt_local_ai::loader::vocab_from_json("[1]").is_err());
    assert!(tpt_local_ai::loader::vocab_from_json("{").is_err());
}

#[test]
fn lowercasing_tokenizer_encodes_like_lowercased_text() {
    let mut vocab = BTreeMap::new();
    vocab.insert("[UNK]".to_string(), 0u32);
    vocab.insert("hi".to_string(), 1u32);
    let plain = WordPieceTokenizer::from_vocab(entries(vocab.clone()), "[UNK]").unwrap();
    let lower = WordPieceTokenizer::from_vocab(entries(vocab), "[UNK]").unwrap().with_lowercase();
    assert_eq!(lower.encode("HI").unwrap(), vec![1]);
    assert_eq!(lower.encode("HI Hi").unwrap(), plain.encode("hi hi").unwrap());
    assert_eq!(plain.encode("HI").unwrap(), vec![0]);
}
