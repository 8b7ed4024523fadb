//! Loading a tokenizer from the unified Hugging Face `tokenizer.json`
//! format.
//!
//! Supported `model.type` values are `"BPE"` and `"WordPiece"`. Added tokens
//! join the vocabulary (without overriding existing entries) and the special
//! ones become atomic special tokens; GPT-2 byte-level mode is detected from
//! the pre-tokenizer and lowercasing from the normalizer.

use vstd::prelude::*;
use vstd::hash_map::StringHashMap;

use crate::bpe::{ranks_of, BpeTokenizer};
use crate::json::{lemma_array_model, lemma_members_model, members_model, array_model, member, Json, JsonValue};
use crate::json_serde::{json_from_str, json_of_text};
use crate::json_text::{json_document, parse};
use crate::template_scan::index_of;
use crate::text::{chars_of, decimal, slice_chars, string_from_chars};
use crate::tokenizer::{TokenId, Tokenizer, TokenizerError};
use crate::vocab::{assoc_map, entries_model, flipped};
use crate::wordpiece::{first_unknown_id, WordPieceTokenizer};

verus! {

/// A tokenizer loaded from a `tokenizer.json`, tagged by its scheme.
pub enum LoadedTokenizer {
    /// A Byte-Pair Encoding tokenizer.
    Bpe(BpeTokenizer),
    /// A WordPiece tokenizer.
    WordPiece(WordPieceTokenizer),
}

/// The index of the last member named `key`.
pub open spec fn last_key_index(m: Seq<(Seq<char>, Json)>, key: Seq<char>) -> Option<int>
    decreases m.len(),
{
    if m.len() == 0 {
        None
    } else if m.last().0 == key {
        Some(m.len() - 1)
    } else {
        last_key_index(m.drop_last(), key)
    }
}

/// `member` is the value at `last_key_index`.
pub proof fn lemma_last_key_index(m: Seq<(Seq<char>, Json)>, key: Seq<char>)
    ensures
        match last_key_index(m, key) {
            Some(i) => 0 <= i < m.len() && member(m, key) == Some(m[i].1),
            None => member(m, key) is None,
        },
    decreases m.len(),
{
    if m.len() > 0 && m.last().0 != key {
        lemma_last_key_index(m.drop_last(), key);
    }
}

/// The `(token, id)` entries of a `vocab` object, in document order, if
/// every id is a `u32`.
pub open spec fn vocab_entries_of(m: Seq<(Seq<char>, Json)>) -> Option<Seq<(Seq<char>, TokenId)>>
    decreases m.len(),
{
    if m.len() == 0 {
        Some(Seq::empty())
    } else {
        match (vocab_entries_of(m.drop_last()), m.last().1.as_u32()) {
            (Some(p), Some(id)) => Some(p.push((m.last().0, id))),
            _ => None,
        }
    }
}

/// The vocabulary a `vocab` value describes.
pub open spec fn vocab_entries(v: Json) -> Option<Seq<(Seq<char>, TokenId)>> {
    match v {
        Json::Object(m) => vocab_entries_of(m),
        _ => None,
    }
}

/// One merge rule: `["a", "b"]` or the legacy `"a b"`.
pub open spec fn merge_pair(e: Json) -> Option<(Seq<char>, Seq<char>)> {
    match e {
        Json::Array(parts) => if parts.len() == 2 {
            match (parts[0].as_str(), parts[1].as_str()) {
                (Some(a), Some(b)) => Some((a, b)),
                _ => None,
            }
        } else {
            None
        },
        Json::Str(s) => match index_of(s, ' ', 0) {
            Some(k) => Some((s.take(k), s.skip(k + 1))),
            None => None,
        },
        _ => None,
    }
}

proof fn lemma_first_space(a: Seq<char>, b: Seq<char>, i: int)
    requires
        0 <= i <= a.len(),
        forall|k: int| 0 <= k < a.len() ==> a[k] != ' ',
    ensures
        index_of(a + seq![' '] + b, ' ', i) == Some(a.len() as int),
    decreases a.len() - i,
{
    let s = a + seq![' '] + b;
    if i < a.len() {
        assert(s[i] == a[i]);
        lemma_first_space(a, b, i + 1);
    } else {
        assert(s[i] == ' ');
    }
}

/// A merge rule reads as the pair `(first, second)` in either form: the
/// array `["a", "b"]` and the legacy string `"a b"` (where `a` holds no
/// space) both give `(a, b)`, in that order.
pub proof fn lemma_merge_forms_agree(a: Seq<char>, b: Seq<char>)
    requires
        forall|k: int| 0 <= k < a.len() ==> a[k] != ' ',
    ensures
        merge_pair(Json::Array(seq![Json::Str(a), Json::Str(b)])) == Some((a, b)),
        merge_pair(Json::Str(a + seq![' '] + b)) == Some((a, b)),
{
    let s = a + seq![' '] + b;
    lemma_first_space(a, b, 0);
    assert(s.take(a.len() as int) =~= a);
    assert(s.skip(a.len() + 1 as int) =~= b);
    let parts = seq![Json::Str(a), Json::Str(b)];
    assert(parts[0].as_str() == Some(a));
    assert(parts[1].as_str() == Some(b));
}

/// The merge rules of a `merges` array, if every entry is one.
pub open spec fn merge_pairs(a: Seq<Json>) -> Option<Seq<(Seq<char>, Seq<char>)>>
    decreases a.len(),
{
    if a.len() == 0 {
        Some(Seq::empty())
    } else {
        match (merge_pairs(a.drop_last()), merge_pair(a.last())) {
            (Some(p), Some(x)) => Some(p.push(x)),
            _ => None,
        }
    }
}

/// An `added_tokens` entry: `(content, id, special)`, if it has a string
/// content and a `u32` id.
pub open spec fn added_entry(e: Json) -> Option<(Seq<char>, TokenId, bool)> {
    match (e.get("content"@), e.get("id"@)) {
        (Some(c), Some(i)) => match (c.as_str(), i.as_u32()) {
            (Some(content), Some(id)) => Some((content, id, e.get("special"@) == Some(Json::Bool(true)))),
            _ => None,
        },
        _ => None,
    }
}

/// The usable entries of an `added_tokens` array, in order.
pub open spec fn added_entries(a: Seq<Json>) -> Seq<(Seq<char>, TokenId, bool)>
    decreases a.len(),
{
    if a.len() == 0 {
        Seq::empty()
    } else {
        match added_entry(a.last()) {
            Some(x) => added_entries(a.drop_last()).push(x),
            None => added_entries(a.drop_last()),
        }
    }
}

/// The added tokens of a document.
pub open spec fn added_tokens(root: Json) -> Seq<(Seq<char>, TokenId, bool)> {
    match root.get("added_tokens"@) {
        Some(Json::Array(a)) => added_entries(a),
        _ => Seq::empty(),
    }
}

/// `base` followed by each added token whose text is not yet present.
pub open spec fn with_added(base: Seq<(Seq<char>, TokenId)>, added: Seq<(Seq<char>, TokenId, bool)>) -> Seq<(Seq<char>, TokenId)>
    decreases added.len(),
{
    if added.len() == 0 {
        base
    } else {
        let prev = with_added(base, added.drop_last());
        let (c, id, _) = added.last();
        if assoc_map(prev).contains_key(c) {
            prev
        } else {
            prev.push((c, id))
        }
    }
}

/// The special ones among the added tokens, as `(text, id)`.
pub open spec fn specials_of(added: Seq<(Seq<char>, TokenId, bool)>) -> Seq<(Seq<char>, TokenId)>
    decreases added.len(),
{
    if added.len() == 0 {
        Seq::empty()
    } else if added.last().2 {
        specials_of(added.drop_last()).push((added.last().0, added.last().1))
    } else {
        specials_of(added.drop_last())
    }
}

/// Whether a pre-tokenizer (possibly a sequence of them) is GPT-2
/// byte-level.
pub open spec fn has_byte_level(v: Json) -> bool
    decreases v,
{
    match v {
        Json::Object(m) => {
            let is_bl = match last_key_index(m, "type"@) {
                Some(i) => 0 <= i < m.len() && m[i].1 == Json::Str("ByteLevel"@),
                None => false,
            };
            if is_bl {
                true
            } else {
                match last_key_index(m, "pretokenizers"@) {
                    Some(i) => if 0 <= i < m.len() {
                        proof {
                            assert(decreases_to!(v => m));
                            assert(decreases_to!(m => m[i]));
                            assert(decreases_to!(m[i] => m[i].1));
                        }
                        match m[i].1 {
                            Json::Array(list) => any_byte_level(list),
                            _ => false,
                        }
                    } else {
                        false
                    },
                    None => false,
                }
            }
        },
        _ => false,
    }
}

/// Whether any of `list` is byte-level.
pub open spec fn any_byte_level(list: Seq<Json>) -> bool
    decreases list,
{
    if list.len() == 0 {
        false
    } else {
        has_byte_level(list[0]) || any_byte_level(list.drop_first())
    }
}

/// Whether a normalizer (possibly a sequence of them) lowercases.
pub open spec fn has_lowercase(v: Json) -> bool
    decreases v,
{
    match v {
        Json::Object(m) => {
            let ty = match last_key_index(m, "type"@) {
                Some(i) => if 0 <= i < m.len() {
                    m[i].1
                } else {
                    Json::Null
                },
                None => Json::Null,
            };
            let lc = member(m, "lowercase"@) == Some(Json::Bool(true));
            if ty == Json::Str("Lowercase"@) || (ty == Json::Str("BertNormalizer"@) && lc) {
                true
            } else {
                match last_key_index(m, "normalizers"@) {
                    Some(i) => if 0 <= i < m.len() {
                        proof {
                            assert(decreases_to!(v => m));
                            assert(decreases_to!(m => m[i]));
                            assert(decreases_to!(m[i] => m[i].1));
                        }
                        match m[i].1 {
                            Json::Array(list) => any_lowercase(list),
                            _ => false,
                        }
                    } else {
                        false
                    },
                    None => false,
                }
            }
        },
        _ => false,
    }
}

/// Whether any of `list` lowercases.
pub open spec fn any_lowercase(list: Seq<Json>) -> bool
    decreases list,
{
    if list.len() == 0 {
        false
    } else {
        has_lowercase(list[0]) || any_lowercase(list.drop_first())
    }
}

/// Whether the document's pre-tokenizer is byte-level.
pub open spec fn doc_byte_level(root: Json) -> bool {
    match root.get("pre_tokenizer"@) {
        Some(p) => has_byte_level(p),
        None => false,
    }
}

/// Whether the document's normalizer lowercases.
pub open spec fn doc_lowercase(root: Json) -> bool {
    match root.get("normalizer"@) {
        Some(p) => has_lowercase(p),
        None => false,
    }
}


fn malformed(msg: &str) -> (e: TokenizerError)
    ensures
        e matches TokenizerError::MalformedFile(m) && m@ == msg@,
{
    TokenizerError::MalformedFile(msg.to_owned())
}

fn str_is(a: &String, b: &str) -> (r: bool)
    ensures
        r == (a@ == b@),
{
    *a == b.to_owned()
}

/// Extracts the `(token, id)` entries of a `model.vocab` object.
fn parse_vocab(value: &JsonValue) -> (r: Result<Vec<(String, TokenId)>, TokenizerError>)
    ensures
        match vocab_entries(value@) {
            Some(e) => r matches Ok(x) && entries_model(x@) == e,
            None => r matches Err(TokenizerError::MalformedFile(_)),
        },
{
    let m = match value.as_object() {
        Some(m) => m,
        None => {
            return Err(malformed("\"model.vocab\" must be an object"));
        },
    };
    let ghost mm = members_model(m@);
    proof {
        lemma_members_model(m@);
    }
    let mut out: Vec<(String, TokenId)> = Vec::new();
    let mut i: usize = 0;
    proof {
        assert(entries_model(out@) =~= Seq::<(Seq<char>, TokenId)>::empty());
    }
    while i < m.len()
        invariant
            i <= m.len(),
            mm == members_model(m@),
            mm.len() == m@.len(),
            forall|k: int| 0 <= k < m@.len() ==> #[trigger] mm[k] == (m@[k].0@, m@[k].1@),
            vocab_entries(value@) == vocab_entries_of(mm),
            vocab_entries_of(mm.take(i as int)) == Some(entries_model(out@)),
        decreases m.len() - i,
    {
        proof {
            assert(mm.take(i + 1).drop_last() =~= mm.take(i as int));
            assert(mm.take(i + 1).last() == mm[i as int]);
        }
        let id = match m[i].1.as_u32() {
            Some(id) => id,
            None => {
                proof {
                    lemma_vocab_entries_none(mm, i + 1);
                }
                return Err(malformed("vocab id is not a non-negative integer"));
            },
        };
        let ghost before = out@;
        out.push((m[i].0.clone(), id));
        proof {
            assert(entries_model(out@) =~= entries_model(before).push((m@[i as int].0@, id)));
        }
        i = i + 1;
    }
    proof {
        assert(mm.take(mm.len() as int) =~= mm);
    }
    Ok(out)
}

/// The `(token, id)` entries of a `{ "token": id, ... }` JSON text read by
/// `serde_json`: it must be an object whose every value is a non-negative
/// integer that fits `u32`.
pub fn vocab_from_json(text: &str) -> (r: Result<Vec<(String, TokenId)>, String>)
    ensures
        match json_of_text(text@) {
            None => r is Err,
            Some(d) => match vocab_entries(d) {
                Some(e) => r matches Ok(x) && entries_model(x@) == e,
                None => r is Err,
            },
        },
{
    let doc = match json_from_str(text) {
        Ok(d) => d,
        Err(msg) => {
            let mut e = "invalid vocab JSON: ".to_owned();
            crate::text::push_str(&mut e, msg.as_str());
            return Err(e);
        },
    };
    match parse_vocab(&doc) {
        Ok(v) => Ok(v),
        Err(_) => Err("vocab must map every token to an integer id that fits u32".to_owned()),
    }
}

proof fn lemma_vocab_entries_none(m: Seq<(Seq<char>, Json)>, k: int)
    requires
        0 <= k <= m.len(),
        vocab_entries_of(m.take(k)) is None,
    ensures
        vocab_entries_of(m) is None,
    decreases m.len() - k,
{
    if k < m.len() {
        assert(m.take(k + 1).drop_last() =~= m.take(k));
        lemma_vocab_entries_none(m, k + 1);
    } else {
        assert(m.take(k) =~= m);
    }
}

proof fn lemma_merge_pairs_none(a: Seq<Json>, k: int)
    requires
        0 <= k <= a.len(),
        merge_pairs(a.take(k)) is None,
    ensures
        merge_pairs(a) is None,
    decreases a.len() - k,
{
    if k < a.len() {
        assert(a.take(k + 1).drop_last() =~= a.take(k));
        lemma_merge_pairs_none(a, k + 1);
    } else {
        assert(a.take(k) =~= a);
    }
}

/// The model of a list of merge rules.
pub open spec fn pairs_model(v: Seq<(String, String)>) -> Seq<(Seq<char>, Seq<char>)> {
    v.map_values(|m: (String, String)| (m.0@, m.1@))
}

fn merge_entry(e: &JsonValue) -> (r: Option<(String, String)>)
    ensures
        match merge_pair(e@) {
            Some((a, b)) => r matches Some(x) && x.0@ == a && x.1@ == b,
            None => r is None,
        },
{
    match e {
        JsonValue::Array(parts) => {
            proof {
                lemma_array_model(parts@);
            }
            if parts.len() != 2 {
                return None;
            }
            match (parts[0].as_str(), parts[1].as_str()) {
                (Some(a), Some(b)) => Some((a.to_owned(), b.to_owned())),
                _ => None,
            }
        },
        JsonValue::String(s) => {
            let cs = chars_of(s.as_str());
            let mut k: usize = 0;
            while k < cs.len()
                invariant
                    k <= cs.len(),
                    cs@ == s@,
                    e@ == Json::Str(cs@),
                    index_of(cs@, ' ', 0) == index_of(cs@, ' ', k as int),
                decreases cs.len() - k,
            {
                if cs[k] == ' ' {
                    let a = slice_chars(cs.as_slice(), 0, k);
                    let b = slice_chars(cs.as_slice(), k + 1, cs.len());
                    proof {
                        assert(a@ =~= cs@.take(k as int));
                        assert(b@ =~= cs@.skip(k + 1));
                        assert(index_of(cs@, ' ', k as int) == Some(k as int));
                        assert(e@ == Json::Str(s@));
                    }
                    return Some((string_from_chars(a.as_slice()), string_from_chars(b.as_slice())));
                }
                k = k + 1;
            }
            None
        },
        _ => None,
    }
}

/// Reads the merge rules of a `model.merges` array.
fn parse_merges(a: &Vec<JsonValue>) -> (r: Result<Vec<(String, String)>, TokenizerError>)
    ensures
        match merge_pairs(array_model(a@)) {
            Some(p) => r matches Ok(x) && pairs_model(x@) == p,
            None => r matches Err(TokenizerError::MalformedFile(_)),
        },
{
    let ghost am = array_model(a@);
    proof {
        lemma_array_model(a@);
    }
    let mut out: Vec<(String, String)> = Vec::new();
    let mut i: usize = 0;
    proof {
        assert(pairs_model(out@) =~= Seq::<(Seq<char>, Seq<char>)>::empty());
    }
    while i < a.len()
        invariant
            i <= a.len(),
            am == array_model(a@),
            am.len() == a@.len(),
            forall|k: int| 0 <= k < a@.len() ==> #[trigger] am[k] == a@[k]@,
            merge_pairs(am.take(i as int)) == Some(pairs_model(out@)),
        decreases a.len() - i,
    {
        proof {
            assert(am.take(i + 1).drop_last() =~= am.take(i as int));
            assert(am.take(i + 1).last() == am[i as int]);
        }
        match merge_entry(&a[i]) {
            Some(pair) => {
                let ghost before = out@;
                out.push(pair);
                proof {
                    assert(pairs_model(out@) =~= pairs_model(before).push((out@.last().0@, out@.last().1@)));
                }
            },
            None => {
                proof {
                    lemma_merge_pairs_none(am, i + 1);
                }
                return Err(malformed("unrecognised merge entry"));
            },
        }
        i = i + 1;
    }
    proof {
        assert(am.take(am.len() as int) =~= am);
    }
    Ok(out)
}

/// The model of a list of added tokens.
pub open spec fn added_model(v: Seq<(String, TokenId, bool)>) -> Seq<(Seq<char>, TokenId, bool)> {
    v.map_values(|e: (String, TokenId, bool)| (e.0@, e.1, e.2))
}

/// Collects `(content, id, is_special)` for every usable entry of the
/// top-level `added_tokens` array.
fn parse_added_tokens(root: &JsonValue) -> (out: Vec<(String, TokenId, bool)>)
    ensures
        added_model(out@) == added_tokens(root@),
{
    let mut out: Vec<(String, TokenId, bool)> = Vec::new();
    proof {
        assert(added_model(out@) =~= Seq::<(Seq<char>, TokenId, bool)>::empty());
    }
    let added = match root.get("added_tokens") {
        Some(JsonValue::Array(a)) => a,
        _ => {
            return out;
        },
    };
    let ghost am = array_model(added@);
    proof {
        lemma_array_model(added@);
    }
    let mut i: usize = 0;
    while i < added.len()
        invariant
            i <= added.len(),
            am == array_model(added@),
            am.len() == added@.len(),
            forall|k: int| 0 <= k < added@.len() ==> #[trigger] am[k] == added@[k]@,
            added_tokens(root@) == added_entries(am),
            added_model(out@) == added_entries(am.take(i as int)),
        decreases added.len() - i,
    {
        proof {
            assert(am.take(i + 1).drop_last() =~= am.take(i as int));
            assert(am.take(i + 1).last() == am[i as int]);
        }
        let entry = &added[i];
        let content = match entry.get("content") {
            Some(c) => c.as_str(),
            None => None,
        };
        let id = match entry.get("id") {
            Some(v) => v.as_u32(),
            None => None,
        };
        if let (Some(c), Some(id)) = (content, id) {
            let special = match entry.get("special") {
                Some(JsonValue::Bool(b)) => *b,
                _ => false,
            };
            let ghost before = out@;
            out.push((c.to_owned(), id, special));
            proof {
                assert(added_model(out@) =~= added_model(before).push((c@, id, special)));
            }
        }
        i = i + 1;
    }
    proof {
        assert(am.take(am.len() as int) =~= am);
    }
    out
}

/// Appends to `entries` each added token whose text is not present yet.
fn fold_added(entries: &mut Vec<(String, TokenId)>, added: &Vec<(String, TokenId, bool)>)
    ensures
        entries_model(final(entries)@) == with_added(entries_model(old(entries)@), added_model(added@)),
{
    let ghost base = entries_model(entries@);
    let mut seen: StringHashMap<TokenId> = StringHashMap::new();
    let mut j: usize = 0;
    while j < entries.len()
        invariant
            j <= entries.len(),
            base == entries_model(entries@),
            seen@ == assoc_map(base.take(j as int)),
        decreases entries.len() - j,
    {
        proof {
            assert(base.take(j + 1).drop_last() =~= base.take(j as int));
        }
        seen.insert(entries[j].0.clone(), entries[j].1);
        j = j + 1;
    }
    proof {
        assert(base.take(base.len() as int) =~= base);
    }
    let ghost am = added_model(added@);
    let mut i: usize = 0;
    while i < added.len()
        invariant
            i <= added.len(),
            am == added_model(added@),
            seen@ == assoc_map(entries_model(entries@)),
            entries_model(entries@) == with_added(base, am.take(i as int)),
        decreases added.len() - i,
    {
        proof {
            assert(am.take(i + 1).drop_last() =~= am.take(i as int));
            assert(am.take(i + 1).last() == am[i as int]);
        }
        let c = &added[i].0;
        let id = added[i].1;
        if !seen.contains_key(c.as_str()) {
            let ghost before = entries@;
            entries.push((c.clone(), id));
            seen.insert(c.clone(), id);
            proof {
                assert(entries_model(entries@) =~= entries_model(before).push((c@, id)));
                assert(entries_model(entries@).drop_last() =~= entries_model(before));
            }
        }
        i = i + 1;
    }
    proof {
        assert(am.take(am.len() as int) =~= am);
    }
}

/// The special added tokens, as `(text, id)`.
fn collect_specials(added: &Vec<(String, TokenId, bool)>) -> (out: Vec<(String, TokenId)>)
    ensures
        entries_model(out@) == specials_of(added_model(added@)),
{
    let ghost am = added_model(added@);
    let mut out: Vec<(String, TokenId)> = Vec::new();
    let mut i: usize = 0;
    proof {
        assert(entries_model(out@) =~= Seq::<(Seq<char>, TokenId)>::empty());
    }
    while i < added.len()
        invariant
            i <= added.len(),
            am == added_model(added@),
            entries_model(out@) == specials_of(am.take(i as int)),
        decreases added.len() - i,
    {
        proof {
            assert(am.take(i + 1).drop_last() =~= am.take(i as int));
            assert(am.take(i + 1).last() == am[i as int]);
        }
        if added[i].2 {
            let ghost before = out@;
            out.push((added[i].0.clone(), added[i].1));
            proof {
                assert(entries_model(out@) =~= entries_model(before).push((added[i as int].0@, added[i as int].1)));
            }
        }
        i = i + 1;
    }
    proof {
        assert(am.take(am.len() as int) =~= am);
    }
    out
}


/// The index of the last member of `m` named `key`.
fn last_index(m: &Vec<(String, JsonValue)>, key: &str) -> (r: Option<usize>)
    ensures
        r matches Some(x) ==> last_key_index(members_model(m@), key@) == Some(x as int),
        r is None ==> last_key_index(members_model(m@), key@) is None,
        r matches Some(i) ==> i < m@.len(),
{
    let ghost mm = members_model(m@);
    proof {
        lemma_members_model(m@);
        assert(mm.take(mm.len() as int) =~= mm);
    }
    let mut i: usize = m.len();
    while i > 0
        invariant
            i <= m.len(),
            mm == members_model(m@),
            mm.len() == m@.len(),
            forall|k: int| 0 <= k < m@.len() ==> #[trigger] mm[k] == (m@[k].0@, m@[k].1@),
            last_key_index(mm, key@) == last_key_index(mm.take(i as int), key@),
        decreases i,
    {
        proof {
            assert(mm.take(i as int).drop_last() =~= mm.take(i - 1));
            assert(mm.take(i as int).last() == mm[i - 1]);
        }
        if str_is(&m[i - 1].0, key) {
            return Some(i - 1);
        }
        i = i - 1;
    }
    None
}

/// Whether a pre-tokenizer value is (or contains) GPT-2 byte-level.
fn contains_byte_level(v: &JsonValue) -> (b: bool)
    ensures
        b == has_byte_level(v@),
    decreases v,
{
    match v {
        JsonValue::Object(m) => {
            let ghost mm = members_model(m@);
            proof {
                lemma_members_model(m@);
                reveal_strlit("ByteLevel");
                lemma_last_key_index(mm, "type"@);
                lemma_last_key_index(mm, "pretokenizers"@);
            }
            assert(v@ == Json::Object(mm));
            match last_index(m, "type") {
                Some(i) => {
                    if let JsonValue::String(t) = &m[i].1 {
                        assert(mm[i as int].1 == Json::Str(t@));
                        if str_is(t, "ByteLevel") {
                            return true;
                        }
                    } else {
                        assert(mm[i as int].1 != Json::Str("ByteLevel"@));
                    }
                },
                None => {},
            }
            match last_index(m, "pretokenizers") {
                Some(i) => match &m[i].1 {
                    JsonValue::Array(list) => {
                        let ghost lm = array_model(list@);
                        proof {
                            lemma_array_model(list@);
                            assert(lm.skip(0) =~= lm);
                            assert(mm[i as int].1 == Json::Array(lm));
                            assert(has_byte_level(v@) == any_byte_level(lm));
                        }
                        let mut k: usize = 0;
                        while k < list.len()
                            invariant
                                k <= list.len(),
                                i < m.len(),
                                m@[i as int].1 == JsonValue::Array(*list),
                                *v == JsonValue::Object(*m),
                                lm == array_model(list@),
                                lm.len() == list@.len(),
                                forall|q: int| 0 <= q < list@.len() ==> #[trigger] lm[q] == list@[q]@,
                                has_byte_level(v@) == any_byte_level(lm),
                                any_byte_level(lm) == any_byte_level(lm.skip(k as int)),
                            decreases list.len() - k,
                        {
                            proof {
                                assert((*v)->Object_0 == *m);
                                assert(decreases_to!(*v => (*v)->Object_0));
                                assert(decreases_to!(*m => m@));
                                assert(decreases_to!(m@ => m@[i as int]));
                                assert(decreases_to!(m@[i as int] => m@[i as int].1));
                                assert((m@[i as int].1)->Array_0 == *list);
                                assert(decreases_to!(m@[i as int].1 => (m@[i as int].1)->Array_0));
                                assert(decreases_to!(*list => list@));
                                assert(decreases_to!(list@ => list@[k as int]));
                                assert(lm.skip(k as int).drop_first() =~= lm.skip(k + 1));
                                assert(lm.skip(k as int)[0] == lm[k as int]);
                            }
                            if contains_byte_level(&list[k]) {
                                return true;
                            }
                            k = k + 1;
                        }
                        false
                    },
                    _ => false,
                },
                None => false,
            }
        },
        _ => false,
    }
}

/// Whether a normalizer value is (or contains) a lowercasing one.
fn contains_lowercase(v: &JsonValue) -> (b: bool)
    ensures
        b == has_lowercase(v@),
    decreases v,
{
    match v {
        JsonValue::Object(m) => {
            let ghost mm = members_model(m@);
            proof {
                lemma_members_model(m@);
                reveal_strlit("Lowercase");
                reveal_strlit("BertNormalizer");
                lemma_last_key_index(mm, "type"@);
                lemma_last_key_index(mm, "normalizers"@);
            }
            let lc = match crate::json::find_member(m, "lowercase") {
                Some(JsonValue::Bool(b)) => *b,
                _ => false,
            };
            assert(v@ == Json::Object(mm));
            match last_index(m, "type") {
                Some(i) => {
                    if let JsonValue::String(t) = &m[i].1 {
                        assert(mm[i as int].1 == Json::Str(t@));
                        if str_is(t, "Lowercase") || (str_is(t, "BertNormalizer") && lc) {
                            return true;
                        }
                    } else {
                        assert(mm[i as int].1 != Json::Str("Lowercase"@));
                        assert(mm[i as int].1 != Json::Str("BertNormalizer"@));
                    }
                },
                None => {},
            }
            match last_index(m, "normalizers") {
                Some(i) => match &m[i].1 {
                    JsonValue::Array(list) => {
                        let ghost lm = array_model(list@);
                        proof {
                            lemma_array_model(list@);
                            assert(lm.skip(0) =~= lm);
                            assert(mm[i as int].1 == Json::Array(lm));
                            assert(has_lowercase(v@) == any_lowercase(lm));
                        }
                        let mut k: usize = 0;
                        while k < list.len()
                            invariant
                                k <= list.len(),
                                i < m.len(),
                                m@[i as int].1 == JsonValue::Array(*list),
                                *v == JsonValue::Object(*m),
                                lm == array_model(list@),
                                lm.len() == list@.len(),
                                forall|q: int| 0 <= q < list@.len() ==> #[trigger] lm[q] == list@[q]@,
                                has_lowercase(v@) == any_lowercase(lm),
                                any_lowercase(lm) == any_lowercase(lm.skip(k as int)),
                            decreases list.len() - k,
                        {
                            proof {
                                assert((*v)->Object_0 == *m);
                                assert(decreases_to!(*v => (*v)->Object_0));
                                assert(decreases_to!(*m => m@));
                                assert(decreases_to!(m@ => m@[i as int]));
                                assert(decreases_to!(m@[i as int] => m@[i as int].1));
                                assert((m@[i as int].1)->Array_0 == *list);
                                assert(decreases_to!(m@[i as int].1 => (m@[i as int].1)->Array_0));
                                assert(decreases_to!(*list => list@));
                                assert(decreases_to!(list@ => list@[k as int]));
                                assert(lm.skip(k as int).drop_first() =~= lm.skip(k + 1));
                                assert(lm.skip(k as int)[0] == lm[k as int]);
                            }
                            if contains_lowercase(&list[k]) {
                                return true;
                            }
                            k = k + 1;
                        }
                        false
                    },
                    _ => false,
                },
                None => false,
            }
        },
        _ => false,
    }
}


/// The `model.type` of a document.
pub open spec fn model_type(root: Json) -> Option<Seq<char>> {
    match root.get("model"@) {
        Some(model) => match model.get("type"@) {
            Some(Json::Str(t)) => Some(t),
            _ => None,
        },
        None => None,
    }
}

/// A BPE model's vocabulary (with added tokens) and merge rules.
pub open spec fn bpe_parts(root: Json, model: Json) -> Option<(Seq<(Seq<char>, TokenId)>, Seq<(Seq<char>, Seq<char>)>)> {
    match model.get("vocab"@) {
        Some(v) => match vocab_entries(v) {
            Some(base) => match model.get("merges"@) {
                Some(Json::Array(a)) => match merge_pairs(a) {
                    Some(pairs) => Some((with_added(base, added_tokens(root)), pairs)),
                    None => None,
                },
                _ => None,
            },
            None => None,
        },
        None => None,
    }
}

/// A WordPiece model's vocabulary, with added tokens.
pub open spec fn wp_entries(root: Json, model: Json) -> Option<Seq<(Seq<char>, TokenId)>> {
    match model.get("vocab"@) {
        Some(v) => match vocab_entries(v) {
            Some(base) => Some(with_added(base, added_tokens(root))),
            None => None,
        },
        None => None,
    }
}

/// The unknown-token name of a WordPiece model (`[UNK]` by default).
pub open spec fn unk_name(model: Json) -> Seq<char> {
    match model.get("unk_token"@) {
        Some(Json::Str(t)) => t,
        _ => "[UNK]"@,
    }
}

fn load_bpe(root: &JsonValue, model: &JsonValue) -> (r: Result<BpeTokenizer, TokenizerError>)
    ensures
        match bpe_parts(root@, model@) {
            Some((entries, pairs)) => r matches Ok(t) && t.token_map() == assoc_map(entries) && t.id_map()
                == assoc_map(flipped(entries)) && t.ranks() == ranks_of(pairs) && t.is_byte_level()
                == doc_byte_level(root@) && t.specials_model() == specials_of(added_tokens(root@)),
            None => r matches Err(TokenizerError::MalformedFile(_)),
        },
{
    let vocab_v = match model.get("vocab") {
        Some(v) => v,
        None => {
            return Err(malformed("missing \"model.vocab\""));
        },
    };
    let mut vocab = parse_vocab(vocab_v)?;
    let merges_v = match model.get("merges") {
        Some(JsonValue::Array(a)) => a,
        _ => {
            return Err(malformed("missing \"model.merges\" array"));
        },
    };
    let merges = parse_merges(merges_v)?;
    let added = parse_added_tokens(root);
    fold_added(&mut vocab, &added);
    let specials = collect_specials(&added);
    let mut tok = BpeTokenizer::from_vocab_merges(vocab, merges);
    let bl = match root.get("pre_tokenizer") {
        Some(p) => contains_byte_level(p),
        None => false,
    };
    if bl {
        tok = tok.with_byte_level();
    }
    if specials.len() > 0 {
        tok = tok.with_special_tokens(specials);
    } else {
        proof {
            assert(entries_model(specials@) =~= Seq::<(Seq<char>, TokenId)>::empty());
        }
    }
    Ok(tok)
}

fn load_wordpiece(root: &JsonValue, model: &JsonValue) -> (r: Result<WordPieceTokenizer, TokenizerError>)
    ensures
        match wp_entries(root@, model@) {
            Some(entries) => if assoc_map(entries).contains_key(unk_name(model@)) {
                r matches Ok(t) && t.token_map() == assoc_map(entries) && t.id_map() == assoc_map(
                    flipped(entries),
                ) && t.unk() == assoc_map(entries)[unk_name(model@)] && t.max_chars() == 100
                    && t.lowercases() == doc_lowercase(root@) && t.normalization() is None
            } else {
                r matches Err(TokenizerError::UnknownToken(n)) && n@ == unk_name(model@)
            },
            None => r matches Err(TokenizerError::MalformedFile(_)),
        },
{
    let vocab_v = match model.get("vocab") {
        Some(v) => v,
        None => {
            return Err(malformed("missing \"model.vocab\""));
        },
    };
    let mut vocab = parse_vocab(vocab_v)?;
    let added = parse_added_tokens(root);
    fold_added(&mut vocab, &added);
    let unk: String = match model.get("unk_token") {
        Some(JsonValue::String(t)) => t.clone(),
        _ => "[UNK]".to_owned(),
    };
    let mut tok = WordPieceTokenizer::from_vocab(vocab, unk.as_str())?;
    let lc = match root.get("normalizer") {
        Some(p) => contains_lowercase(p),
        None => false,
    };
    if lc {
        tok = tok.with_lowercase();
    }
    Ok(tok)
}

/// What a `tokenizer.json` text loads to.
pub open spec fn loads_to(text: Seq<char>, r: Result<LoadedTokenizer, TokenizerError>) -> bool {
    match json_document(text) {
        None => r matches Err(TokenizerError::MalformedFile(_)),
        Some(root) => match model_type(root) {
            None => r matches Err(TokenizerError::MalformedFile(_)),
            Some(ty) => {
                let model = root.get("model"@).unwrap();
                if ty == "BPE"@ {
                    match bpe_parts(root, model) {
                        Some((entries, pairs)) => r matches Ok(LoadedTokenizer::Bpe(t)) && t.token_map()
                            == assoc_map(entries) && t.id_map() == assoc_map(flipped(entries))
                            && t.ranks() == ranks_of(pairs) && t.is_byte_level() == doc_byte_level(root)
                            && t.specials_model() == specials_of(added_tokens(root)),
                        None => r matches Err(TokenizerError::MalformedFile(_)),
                    }
                } else if ty == "WordPiece"@ {
                    match wp_entries(root, model) {
                        Some(entries) => if assoc_map(entries).contains_key(unk_name(model)) {
                            r matches Ok(LoadedTokenizer::WordPiece(t)) && t.token_map() == assoc_map(
                                entries,
                            ) && t.id_map() == assoc_map(flipped(entries)) && t.unk() == assoc_map(
                                entries,
                            )[unk_name(model)] && t.max_chars() == 100 && t.lowercases()
                                == doc_lowercase(root) && t.normalization() is None
                        } else {
                            r matches Err(TokenizerError::UnknownToken(n)) && n@ == unk_name(model)
                        },
                        None => r matches Err(TokenizerError::MalformedFile(_)),
                    }
                } else {
                    r matches Err(TokenizerError::MalformedFile(_))
                }
            },
        },
    }
}

/// Parses a `tokenizer.json` document.
pub fn from_tokenizer_json_str(text: &str) -> (r: Result<LoadedTokenizer, TokenizerError>)
    ensures
        loads_to(text@, r),
{
    let root = match parse(text) {
        Ok(v) => v,
        Err(e) => {
            return Err(TokenizerError::MalformedFile(e));
        },
    };
    let model = match root.get("model") {
        Some(m) => m,
        None => {
            return Err(malformed("missing \"model\" object"));
        },
    };
    let ty = match model.get("type") {
        Some(JsonValue::String(t)) => t,
        _ => {
            return Err(malformed("missing \"model.type\""));
        },
    };
    if str_is(ty, "BPE") {
        let t = load_bpe(&root, model)?;
        Ok(LoadedTokenizer::Bpe(t))
    } else if str_is(ty, "WordPiece") {
        let t = load_wordpiece(&root, model)?;
        Ok(LoadedTokenizer::WordPiece(t))
    } else {
        Err(malformed("unsupported model.type (only BPE and WordPiece are supported)"))
    }
}

impl Tokenizer for LoadedTokenizer {
    open spec fn encode_error(&self, text: Seq<char>, e: TokenizerError) -> bool {
        match self {
            LoadedTokenizer::Bpe(t) => t.encode_error(text, e),
            LoadedTokenizer::WordPiece(t) => t.encode_error(text, e),
        }
    }

    open spec fn encode_spec(&self, text: Seq<char>) -> Option<Seq<TokenId>> {
        match self {
            LoadedTokenizer::Bpe(t) => t.encode_spec(text),
            LoadedTokenizer::WordPiece(t) => t.encode_spec(text),
        }
    }

    open spec fn decode_spec(&self, ids: Seq<TokenId>) -> Option<Seq<char>> {
        match self {
            LoadedTokenizer::Bpe(t) => t.decode_spec(ids),
            LoadedTokenizer::WordPiece(t) => t.decode_spec(ids),
        }
    }

    fn encode(&self, text: &str) -> (r: Result<Vec<TokenId>, TokenizerError>)
        ensures
            self matches LoadedTokenizer::Bpe(t) ==> (r matches Err(e) ==> t.enc_unknown(text@, 0, 0) matches Some(u)
                && e matches TokenizerError::UnknownToken(m) && m@ == u),
    {
        match self {
            LoadedTokenizer::Bpe(t) => t.encode(text),
            LoadedTokenizer::WordPiece(t) => t.encode(text),
        }
    }

    fn decode(&self, ids: &[TokenId]) -> (r: Result<String, TokenizerError>)
        ensures
            self matches LoadedTokenizer::Bpe(t) ==> (r matches Err(e) ==> match t.dec_unknown_id(ids@, 0, Seq::empty()) {
                Some(id) => e matches TokenizerError::UnknownToken(m) && m@ == decimal(id as nat),
                None => e is MalformedFile,
            }),
            self matches LoadedTokenizer::WordPiece(t) ==> (r matches Err(e) ==> first_unknown_id(t.id_map(), ids@) matches Some(id)
                && e matches TokenizerError::UnknownToken(m) && m@ == decimal(id as nat)),
    {
        match self {
            LoadedTokenizer::Bpe(t) => t.decode(ids),
            LoadedTokenizer::WordPiece(t) => t.decode(ids),
        }
    }
}

impl LoadedTokenizer {
    /// The loaded tokenizer, usable through the [`Tokenizer`] interface
    /// whichever scheme it is.
    pub fn as_tokenizer(&self) -> (t: &LoadedTokenizer)
        ensures
            t == self,
    {
        self
    }
}

} // verus!
