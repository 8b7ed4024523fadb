use std::collections::BTreeMap;

use tpt_local_ai::bpe::BpeTokenizer;
use tpt_local_ai::encoding::{assemble, apply_padding, pad_to, EncodeConfig, Encoding, Padding, Truncation, TokenizerExt};
use tpt_local_ai::json::parse;
use tpt_local_ai::loader::{from_tokenizer_json_str, LoadedTokenizer};
use tpt_local_ai::normalize::{normalize, NormalizationForm};
use tpt_local_ai::pretokenize::{bert_basic, decode_byte_level, encode_byte_level, gpt2_split};
use tpt_local_ai::tokenizer::Tokenizer;

fn small_bpe() -> BpeTokenizer {
    let mut vocab = BTreeMap::new();
    for (i, t) in ["l", "o", "w", "lo", "low"].iter().enumerate() {
        vocab.insert(t.to_string(), i as u32);
    }
    let merges = vec![("l".to_string(), "o".to_string()), ("lo".to_string(), "w".to_string())];
    BpeTokenizer::from_vocab_merges(vocab.into_iter().collect(), merges)
}

#[test]
fn specials_wrap_the_content() {
    let cfg = EncodeConfig::new().with_bos(10).with_eos(11);
    let e = assemble(vec![1, 2, 3], &cfg);
    assert_eq!(e.ids, vec![10, 1, 2, 3, 11]);
    assert_eq!(e.attention_mask, vec![1, 1, 1, 1, 1]);
    let off = EncodeConfig::new().with_bos(10).add_special_tokens(false);
    assert_eq!(assemble(vec![1], &off).ids, vec![1]);
}

#[test]
fn truncation_keeps_room_for_specials() {
    let cfg = EncodeConfig::new().with_bos(10).with_eos(11).truncation(Truncation::Fixed(4));
    let e = assemble(vec![1, 2, 3, 4, 5], &cfg);
    assert_eq!(e.ids, vec![10, 1, 2, 11]);
    assert!(e.len() <= 4);
}

#[test]
fn fixed_padding_fills_with_pad_id() {
    let mut e = assemble(vec![1, 2], &EncodeConfig::new());
    pad_to(&mut e, 4, 0);
    assert_eq!(e.ids, vec![1, 2, 0, 0]);
    assert_eq!(e.attention_mask, vec![1, 1, 0, 0]);
    pad_to(&mut e, 2, 0);
    assert_eq!(e.len(), 4);
}

#[test]
fn longest_padding_equalizes_a_batch() {
    let cfg = EncodeConfig::new().with_pad(0).padding(Padding::Longest);
    let mut batch: Vec<Encoding> = vec![assemble(vec![1], &cfg), assemble(vec![1, 2, 3], &cfg)];
    apply_padding(&mut batch, &cfg).unwrap();
    assert_eq!(batch[0].ids, vec![1, 0, 0]);
    assert_eq!(batch[1].ids, vec![1, 2, 3]);
}

#[test]
fn padding_without_pad_id_is_an_error() {
    let cfg = EncodeConfig::new().padding(Padding::Fixed(3));
    let mut batch = vec![assemble(vec![1], &cfg)];
    assert!(apply_padding(&mut batch, &cfg).is_err());
}

#[test]
fn encode_with_and_batch() {
    let tok = small_bpe();
    let cfg = EncodeConfig::new().with_bos(7).with_pad(9).padding(Padding::Longest);
    let e = tok.encode_with("low", &cfg).unwrap();
    assert_eq!(e.ids, vec![7, 4]);
    let b = tok.encode_batch(&["low", "lo l"], &cfg).unwrap();
    assert_eq!(b[0].ids, vec![7, 4, 9]);
    assert_eq!(b[1].ids, vec![7, 3, 0]);
    assert_eq!(b[0].attention_mask, vec![1, 1, 0]);
}

#[test]
fn loads_bpe_tokenizer_json() {
    let text = r#"{
        "added_tokens": [{"id": 5, "content": "<|end|>", "special": true}],
        "model": {"type": "BPE", "vocab": {"l": 0, "o": 1, "w": 2, "lo": 3, "low": 4},
                  "merges": ["l o", "lo w"]}
    }"#;
    let tok = from_tokenizer_json_str(text).unwrap();
    assert!(matches!(tok, LoadedTokenizer::Bpe(_)));
    assert_eq!(tok.encode("low<|end|>").unwrap(), vec![4, 5]);
    assert_eq!(tok.decode(&[4, 5]).unwrap(), "low<|end|>");
}

#[test]
fn loads_wordpiece_tokenizer_json() {
    let text = r#"{"model": {"type": "WordPiece", "unk_token": "[UNK]",
                   "vocab": {"[UNK]": 0, "hi": 1, "!": 2}}}"#;
    let tok = from_tokenizer_json_str(text).unwrap();
    assert!(matches!(tok, LoadedTokenizer::WordPiece(_)));
    assert_eq!(tok.encode("hi!").unwrap(), vec![1, 2]);
}

#[test]
fn rejects_malformed_tokenizer_json() {
    assert!(from_tokenizer_json_str("{").is_err());
    assert!(from_tokenizer_json_str(r#"{"model": {"type": "Unigram"}}"#).is_err());
}

#[test]
fn byte_level_alphabet_round_trips() {
    let text = "héllo wörld 🎉";
    let mapped = encode_byte_level(text);
    assert!(mapped.chars().all(|c| !c.is_whitespace()));
    let back = decode_byte_level(&mapped.chars().collect::<Vec<char>>()).unwrap();
    assert_eq!(back, text);
    assert_eq!(encode_byte_level(" "), "Ġ");
}

#[test]
fn gpt2_pieces_keep_leading_spaces() {
    assert_eq!(gpt2_split("Hello world"), vec!["Hello".to_string(), " world".to_string()]);
    assert_eq!(gpt2_split("it's 42"), vec!["it".to_string(), "'s".to_string(), " 42".to_string()]);
}

#[test]
fn normalization_forms() {
    let decomposed = "e\u{301}";
    assert_eq!(normalize(decomposed, NormalizationForm::Nfc), "\u{e9}");
    assert_eq!(normalize("\u{e9}", NormalizationForm::Nfd), decomposed);
    assert_eq!(normalize("\u{fb01}", NormalizationForm::Nfkc), "fi");
}

#[test]
fn json_parser_reads_documents() {
    let v = parse(r#"{"a": [1, 2.5, "x\u00e9"], "b": null, "a": true}"#).unwrap();
    assert_eq!(v.get("b").map(|x| matches!(x, tpt_local_ai::json::JsonValue::Null)), Some(true));
    assert!(matches!(v.get("a"), Some(tpt_local_ai::json::JsonValue::Bool(true))));
    assert!(parse("[1,]").is_err());
}

#[test]
fn default_config_keeps_ids_unchanged() {
    let e = assemble(vec![5, 6, 7], &EncodeConfig::new());
    assert_eq!(e.ids, vec![5, 6, 7]);
    assert_eq!(e.attention_mask, vec![1, 1, 1]);
    let tok = small_bpe();
    assert_eq!(tok.encode_with("low lo", &EncodeConfig::new()).unwrap().ids, tok.encode("low lo").unwrap());
}

#[test]
fn ascii_text_is_unchanged_by_normalization() {
    for form in [NormalizationForm::Nfc, NormalizationForm::Nfd, NormalizationForm::Nfkc, NormalizationForm::Nfkd] {
        assert_eq!(normalize("Hello, world!", form), "Hello, world!");
    }
}

#[test]
fn compatibility_decomposition_splits_ligatures_and_accents() {
    assert_eq!(normalize("\u{fb01}", NormalizationForm::Nfkd), "fi");
    assert_eq!(normalize("\u{e9}", NormalizationForm::Nfkd), "e\u{301}");
}

#[test]
fn gpt2_split_groups_unicode_letters_and_digits() {
    assert_eq!(gpt2_split("caf\u{e9} \u{661}\u{662}"), vec!["caf\u{e9}".to_string(), " \u{661}\u{662}".to_string()]);
}

#[test]
fn bert_basic_lowercases_non_ascii_letters() {
    let text: Vec<char> = "\u{c9}COLE".chars().collect();
    let words = bert_basic(&text, true);
    let got: Vec<String> = words.iter().map(|w| w.iter().collect()).collect();
    assert_eq!(got, vec!["\u{e9}cole".to_string()]);
}

#[test]
fn normalizing_twice_changes_nothing() {
    for form in [NormalizationForm::Nfc, NormalizationForm::Nfd, NormalizationForm::Nfkc, NormalizationForm::Nfkd] {
        for text in ["e\u{301}\u{fb01}", "\u{c5}ngstr\u{f6}m", "\u{1e9b}\u{323}"] {
            let once = normalize(text, form);
            assert_eq!(normalize(&once, form), once);
        }
    }
}

#[test]
fn truncation_below_the_specials_still_bounds_the_length() {
    let cfg = EncodeConfig::new().with_bos(10).with_eos(11).truncation(Truncation::Fixed(1));
    let e = assemble(vec![5, 6, 7], &cfg);
    assert_eq!(e.ids, vec![10]);
    assert_eq!(e.attention_mask, vec![1]);
    let cfg = EncodeConfig::new().with_bos(10).with_eos(11).truncation(Truncation::Fixed(0));
    assert!(assemble(vec![5], &cfg).ids.is_empty());
}

#[test]
fn json_escape_errors_name_the_fault() {
    assert!(parse(r#""\u12""#).unwrap_err().starts_with("invalid hex digit in \\u escape"));
    assert!(parse(r#""\u12"#).unwrap_err().starts_with("truncated \\u escape"));
    assert!(parse(r#""\uZZZZ""#).unwrap_err().starts_with("invalid hex digit in \\u escape"));
    assert!(parse(r#""\uD800\x""#).unwrap_err().starts_with("expected low surrogate escape"));
    assert!(parse(r#""\uD800 ""#).unwrap_err().starts_with("lone high surrogate"));
}
