//! WordPiece (BERT style): greedy longest-match sub-words after a BERT basic
//! pre-tokenization.

use vstd::prelude::*;

use crate::normalize::{normalize, normalized, NormalizationForm};
use crate::pretokenize::{bert_basic, bert_words, lemma_bert_words_lowered, lowered, lowering_keeps_spaces};
use crate::text::{chars_of, decimal, push_char, push_decimal, push_str, string_from_chars};
use crate::tokenizer::{TokenId, Tokenizer, TokenizerError};
use crate::vocab::{assoc_map, entries_model, flipped, Vocab};

verus! {

/// The continuation prefix `##`.
pub open spec fn cont_prefix() -> Seq<char> {
    seq!['#', '#']
}

/// The longest prefix length `end` (from `end` down to just past `start`) of
/// `w[start..end]` that is in the vocabulary, `##`-prefixed unless
/// `start` is 0.
pub open spec fn longest_match(vocab: Map<Seq<char>, TokenId>, w: Seq<char>, start: int, end: int) -> Option<int>
    decreases end - start,
{
    if end <= start {
        None
    } else {
        let sub = w.subrange(start, end);
        let cand = if start > 0 {
            cont_prefix() + sub
        } else {
            sub
        };
        if vocab.contains_key(cand) {
            Some(end)
        } else {
            longest_match(vocab, w, start, end - 1)
        }
    }
}

/// The candidate token for `w[start..end]`.
pub open spec fn piece(w: Seq<char>, start: int, end: int) -> Seq<char> {
    if start > 0 {
        cont_prefix() + w.subrange(start, end)
    } else {
        w.subrange(start, end)
    }
}

/// Greedy longest-match split of `w` from `start`, after the pieces `acc`;
/// `None` if some position has no match.
pub open spec fn wp_from(vocab: Map<Seq<char>, TokenId>, w: Seq<char>, start: int, acc: Seq<Seq<char>>) -> Option<Seq<Seq<char>>>
    decreases w.len() - start,
{
    if !(0 <= start < w.len()) {
        Some(acc)
    } else {
        match longest_match(vocab, w, start, w.len() as int) {
            None => None,
            Some(end) => if end <= start || end > w.len() {
                None
            } else {
                wp_from(vocab, w, end, acc.push(piece(w, start, end)))
            },
        }
    }
}

/// The WordPiece split of word `w`: the word itself if it is a token,
/// `None` if it is longer than `max_chars` or cannot be split.
pub open spec fn wp_word(vocab: Map<Seq<char>, TokenId>, w: Seq<char>, max_chars: nat) -> Option<Seq<Seq<char>>> {
    if vocab.contains_key(w) {
        Some(seq![w])
    } else if w.len() > max_chars {
        None
    } else {
        wp_from(vocab, w, 0, Seq::empty())
    }
}

/// The text of WordPiece pieces: the first piece as it is, each later one
/// without its `##` continuation prefix.
pub open spec fn unpieced(ps: Seq<Seq<char>>) -> Seq<char>
    decreases ps.len(),
{
    if ps.len() == 0 {
        Seq::empty()
    } else if ps.len() == 1 {
        ps[0]
    } else {
        unpieced(ps.drop_last()) + ps.last().skip(2)
    }
}

proof fn lemma_wp_from_spells(vocab: Map<Seq<char>, TokenId>, w: Seq<char>, start: int, acc: Seq<Seq<char>>)
    requires
        0 <= start <= w.len(),
        unpieced(acc) == w.take(start),
        acc.len() == 0 <==> start == 0,
        wp_from(vocab, w, start, acc) is Some,
    ensures
        unpieced(wp_from(vocab, w, start, acc).unwrap()) == w,
    decreases w.len() - start,
{
    if start == w.len() {
        assert(w.take(start) =~= w);
    } else {
        let end = longest_match(vocab, w, start, w.len() as int).unwrap();
        let p = piece(w, start, end);
        let acc2 = acc.push(p);
        if start == 0 {
            assert(acc2 =~= seq![p]);
            assert(p =~= w.take(end));
        } else {
            assert(acc2.drop_last() =~= acc);
            assert(p.skip(2) =~= w.subrange(start, end));
            assert(w.take(start) + w.subrange(start, end) =~= w.take(end));
        }
        lemma_wp_from_spells(vocab, w, end, acc2);
    }
}

/// WordPiece pieces spell the word: with the `##` of every piece after the
/// first removed, they concatenate to it.
pub proof fn lemma_wp_word_spells(vocab: Map<Seq<char>, TokenId>, w: Seq<char>, max_chars: nat)
    requires
        wp_word(vocab, w, max_chars) is Some,
    ensures
        unpieced(wp_word(vocab, w, max_chars).unwrap()) == w,
{
    if !vocab.contains_key(w) {
        assert(w.take(0) =~= Seq::<char>::empty());
        lemma_wp_from_spells(vocab, w, 0, Seq::empty());
    }
}

/// The ids of a sequence of words: each word's pieces, or `unk` for a word
/// that cannot be split.
pub open spec fn wp_ids(vocab: Map<Seq<char>, TokenId>, ws: Seq<Seq<char>>, max_chars: nat, unk: TokenId) -> Seq<TokenId>
    decreases ws.len(),
{
    if ws.len() == 0 {
        Seq::empty()
    } else {
        wp_ids(vocab, ws.drop_last(), max_chars, unk) + match wp_word(vocab, ws.last(), max_chars) {
            Some(ps) => ps.map_values(|p: Seq<char>| vocab[p]),
            None => seq![unk],
        }
    }
}

/// The first id of `ids` that has no token, if any.
pub open spec fn first_unknown_id(ids_map: Map<TokenId, Seq<char>>, ids: Seq<TokenId>) -> Option<TokenId>
    decreases ids.len(),
{
    if ids.len() == 0 {
        None
    } else {
        match first_unknown_id(ids_map, ids.drop_last()) {
            Some(u) => Some(u),
            None => if ids_map.contains_key(ids.last()) {
                None
            } else {
                Some(ids.last())
            },
        }
    }
}

proof fn lemma_first_unknown_id_prefix(ids_map: Map<TokenId, Seq<char>>, ids: Seq<TokenId>, k: int, u: TokenId)
    requires
        0 <= k <= ids.len(),
        first_unknown_id(ids_map, ids.take(k)) == Some(u),
    ensures
        first_unknown_id(ids_map, ids) == Some(u),
    decreases ids.len() - k,
{
    if k < ids.len() {
        assert(ids.take(k + 1).drop_last() =~= ids.take(k));
        lemma_first_unknown_id_prefix(ids_map, ids, k + 1, u);
    } else {
        assert(ids.take(k) =~= ids);
    }
}

/// Text of `ids[k..]` appended to `acc`: continuation tokens lose `##` and
/// join the previous one; other tokens after the first are preceded by a
/// space.
pub open spec fn wp_dec_from(ids_map: Map<TokenId, Seq<char>>, ids: Seq<TokenId>, k: int, acc: Seq<char>) -> Option<Seq<char>>
    decreases ids.len() - k,
{
    if !(0 <= k < ids.len()) {
        Some(acc)
    } else {
        match ids_map.get(ids[k]) {
            None => None,
            Some(t) => if t.len() >= 2 && t.take(2) == cont_prefix() {
                wp_dec_from(ids_map, ids, k + 1, acc + t.skip(2))
            } else if k > 0 {
                wp_dec_from(ids_map, ids, k + 1, acc.push(' ') + t)
            } else {
                wp_dec_from(ids_map, ids, k + 1, acc + t)
            },
        }
    }
}

/// A WordPiece tokenizer built from a vocabulary.
pub struct WordPieceTokenizer {
    vocab: Vocab,
    unk_id: TokenId,
    max_input_chars_per_word: usize,
    lowercase: bool,
    normalize: Option<NormalizationForm>,
}

impl WordPieceTokenizer {
    /// Token text to id.
    pub closed spec fn token_map(&self) -> Map<Seq<char>, TokenId> {
        self.vocab.token_map()
    }

    /// Id to token text.
    pub closed spec fn id_map(&self) -> Map<TokenId, Seq<char>> {
        self.vocab.id_map()
    }

    /// The id emitted for words that cannot be split.
    pub closed spec fn unk(&self) -> TokenId {
        self.unk_id
    }

    /// Words longer than this many characters become `unk`.
    pub closed spec fn max_chars(&self) -> nat {
        self.max_input_chars_per_word as nat
    }

    /// Whether input is lowercased.
    pub closed spec fn lowercases(&self) -> bool {
        self.lowercase
    }

    /// The normalization applied before encoding.
    pub closed spec fn normalization(&self) -> Option<NormalizationForm> {
        self.normalize
    }

    /// Builds a tokenizer from vocabulary entries; `unk_token` names the
    /// fallback token, which must be in the vocabulary.
    pub fn from_vocab(vocab: Vec<(String, TokenId)>, unk_token: &str) -> (r: Result<Self, TokenizerError>)
        ensures
            assoc_map(entries_model(vocab@)).contains_key(unk_token@) ==> (r matches Ok(t)
                && t.token_map() == assoc_map(entries_model(vocab@))
                && t.id_map() == assoc_map(flipped(entries_model(vocab@)))
                && t.unk() == assoc_map(entries_model(vocab@))[unk_token@] && t.max_chars() == 100
                && !t.lowercases() && t.normalization() is None),
            !assoc_map(entries_model(vocab@)).contains_key(unk_token@) ==> (r matches Err(
                TokenizerError::UnknownToken(n),
            ) && n@ == unk_token@),
    {
        let v = Vocab::from_entries(&vocab);
        let unk_id = match v.get(unk_token) {
            Some(id) => id,
            None => {
                return Err(TokenizerError::UnknownToken(unk_token.to_owned()));
            },
        };
        Ok(WordPieceTokenizer {
            vocab: v,
            unk_id,
            max_input_chars_per_word: 100,
            lowercase: false,
            normalize: None,
        })
    }

    /// Enables lowercasing during pre-tokenization (`*-uncased` models).
    pub fn with_lowercase(self) -> (t: Self)
        ensures
            t.token_map() == self.token_map(),
            t.id_map() == self.id_map(),
            t.unk() == self.unk(),
            t.max_chars() == self.max_chars(),
            t.lowercases(),
            t.normalization() == self.normalization(),
    {
        WordPieceTokenizer { lowercase: true, ..self }
    }

    /// Applies the given Unicode normalization form before encoding.
    pub fn with_normalization(self, form: NormalizationForm) -> (t: Self)
        ensures
            t.token_map() == self.token_map(),
            t.id_map() == self.id_map(),
            t.unk() == self.unk(),
            t.max_chars() == self.max_chars(),
            t.lowercases() == self.lowercases(),
            t.normalization() == Some(form),
    {
        WordPieceTokenizer { normalize: Some(form), ..self }
    }

    /// Number of tokens in the vocabulary.
    pub fn vocab_size(&self) -> (n: usize)
        ensures
            n == self.token_map().len(),
    {
        self.vocab.len()
    }

    /// The text encoding works on: normalized if configured.
    pub open spec fn prepared(&self, text: Seq<char>) -> Seq<char> {
        match self.normalization() {
            Some(f) => normalized(text, f),
            None => text,
        }
    }
}


/// A lowercasing tokenizer encodes a text as the same tokenizer without
/// lowercasing encodes the lowercased text (the tokenizers differ only in
/// lowercasing, neither normalizes, and lowercasing keeps the text's
/// whitespace apart).
pub proof fn lemma_lowercase_encodes_lowered(r: WordPieceTokenizer, t: WordPieceTokenizer, text: Seq<char>)
    requires
        r.lowercases(),
        !t.lowercases(),
        r.normalization() is None,
        t.normalization() is None,
        r.token_map() == t.token_map(),
        r.unk() == t.unk(),
        r.max_chars() == t.max_chars(),
        lowering_keeps_spaces(text),
    ensures
        r.encode_spec(text) == t.encode_spec(lowered(text)),
{
    lemma_bert_words_lowered(text);
}

/// A word that WordPiece cannot split (too long, or with no matching
/// prefix at some point) encodes to the unknown token's id, wherever it
/// stands among the words of a text.
pub proof fn lemma_unsplittable_is_unk(t: WordPieceTokenizer, ws: Seq<Seq<char>>, i: int)
    requires
        0 <= i < ws.len(),
        wp_word(t.token_map(), ws[i], t.max_chars()) is None,
    ensures
        wp_ids(t.token_map(), ws.take(i + 1), t.max_chars(), t.unk()) == wp_ids(t.token_map(), ws.take(i), t.max_chars(), t.unk()).push(t.unk()),
{
    assert(ws.take(i + 1).drop_last() =~= ws.take(i));
    assert(ws.take(i + 1).last() == ws[i]);
    assert(wp_ids(t.token_map(), ws.take(i), t.max_chars(), t.unk()) + seq![t.unk()] =~= wp_ids(t.token_map(), ws.take(i), t.max_chars(), t.unk()).push(t.unk()));
}

proof fn lemma_wp_dec_push(im: Map<TokenId, Seq<char>>, ids: Seq<TokenId>, x: TokenId, k: int, acc: Seq<char>)
    requires
        0 <= k <= ids.len(),
    ensures
        !im.contains_key(x) ==> wp_dec_from(im, ids.push(x), k, acc) is None,
        im.contains_key(x) ==> wp_dec_from(im, ids.push(x), k, acc) == match wp_dec_from(im, ids, k, acc) {
            Some(s) => Some(
                if im[x].len() >= 2 && im[x].take(2) == seq!['#', '#'] {
                    s + im[x].skip(2)
                } else if ids.len() > 0 {
                    s + seq![' '] + im[x]
                } else {
                    s + im[x]
                },
            ),
            None => None,
        },
    decreases ids.len() - k,
{
    let ids2 = ids.push(x);
    if k < ids.len() {
        assert(ids2[k] == ids[k]);
        match im.get(ids[k]) {
            None => {},
            Some(t) => if t.len() >= 2 && t.take(2) == cont_prefix() {
                lemma_wp_dec_push(im, ids, x, k + 1, acc + t.skip(2));
            } else if k > 0 {
                lemma_wp_dec_push(im, ids, x, k + 1, acc.push(' ') + t);
            } else {
                lemma_wp_dec_push(im, ids, x, k + 1, acc + t);
            },
        }
    } else {
        assert(ids2[k] == x);
        assert(cont_prefix() =~= seq!['#', '#']);
        assert(acc.push(' ') + im[x] =~= acc + seq![' '] + im[x]);
        assert(wp_dec_from(im, ids, k, acc) == Some(acc));
        if im.contains_key(x) {
            let t = im[x];
            let nxt = if t.len() >= 2 && t.take(2) == cont_prefix() {
                acc + t.skip(2)
            } else if k > 0 {
                acc.push(' ') + t
            } else {
                acc + t
            };
            assert(wp_dec_from(im, ids2, k + 1, nxt) == Some(nxt));
            assert(wp_dec_from(im, ids2, k, acc) == wp_dec_from(im, ids2, k + 1, nxt));
        }
    }
}

/// WordPiece decoding, one id at a time: appending an id to a sequence
/// appends its token's text, after one space unless it is the first token
/// or a `##` continuation (which loses its `##`); an id with no token makes
/// decoding fail.
pub proof fn lemma_wp_decode_appends(t: WordPieceTokenizer, ids: Seq<TokenId>, x: TokenId)
    ensures
        !t.id_map().contains_key(x) ==> t.decode_spec(ids.push(x)) is None,
        t.id_map().contains_key(x) && !(t.id_map()[x].len() >= 2 && t.id_map()[x].take(2) == seq!['#', '#']) && ids.len() > 0
            ==> t.decode_spec(ids.push(x)) == match t.decode_spec(ids) {
                Some(s) => Some(s + seq![' '] + t.id_map()[x]),
                None => None,
            },
        t.id_map().contains_key(x) && t.id_map()[x].len() >= 2 && t.id_map()[x].take(2) == seq!['#', '#']
            ==> t.decode_spec(ids.push(x)) == match t.decode_spec(ids) {
                Some(s) => Some(s + t.id_map()[x].skip(2)),
                None => None,
            },
        t.id_map().contains_key(x) && ids.len() == 0 ==> t.decode_spec(ids.push(x)) == Some(
            if t.id_map()[x].len() >= 2 && t.id_map()[x].take(2) == seq!['#', '#'] {
                t.id_map()[x].skip(2)
            } else {
                t.id_map()[x]
            },
        ),
{
    lemma_wp_dec_push(t.id_map(), ids, x, 0, Seq::empty());
    if ids.len() == 0 {
        assert(Seq::<char>::empty() + t.id_map()[x] =~= t.id_map()[x]);
        assert(Seq::<char>::empty() + t.id_map()[x].skip(2) =~= t.id_map()[x].skip(2));
    }
}

proof fn lemma_longest_match(vocab: Map<Seq<char>, TokenId>, w: Seq<char>, start: int, end: int)
    ensures
        longest_match(vocab, w, start, end) matches Some(e) ==> start < e <= end && vocab.contains_key(
            piece(w, start, e),
        ),
    decreases end - start,
{
    if end > start {
        lemma_longest_match(vocab, w, start, end - 1);
    }
}

proof fn lemma_wp_from_in_vocab(vocab: Map<Seq<char>, TokenId>, w: Seq<char>, start: int, acc: Seq<Seq<char>>)
    requires
        forall|i: int| 0 <= i < acc.len() ==> vocab.contains_key(#[trigger] acc[i]),
    ensures
        wp_from(vocab, w, start, acc) matches Some(ps) ==> forall|i: int| 0 <= i < ps.len() ==> vocab.contains_key(#[trigger] ps[i]),
    decreases w.len() - start,
{
    if 0 <= start < w.len() {
        lemma_longest_match(vocab, w, start, w.len() as int);
        match longest_match(vocab, w, start, w.len() as int) {
            Some(end) => {
                if end > start && end <= w.len() {
                    let acc2 = acc.push(piece(w, start, end));
                    assert forall|i: int| 0 <= i < acc2.len() implies vocab.contains_key(#[trigger] acc2[i]) by {
                        if i < acc.len() {
                            assert(acc2[i] == acc[i]);
                        }
                    }
                    lemma_wp_from_in_vocab(vocab, w, end, acc2);
                }
            },
            None => {},
        }
    }
}

fn piece_exec(w: &Vec<char>, start: usize, end: usize) -> (p: Vec<char>)
    requires
        start <= end <= w.len(),
    ensures
        p@ == piece(w@, start as int, end as int),
{
    let mut p: Vec<char> = Vec::new();
    if start > 0 {
        p.push('#');
        p.push('#');
    }
    let ghost p0 = p@;
    let mut k = start;
    while k < end
        invariant
            start <= k <= end <= w.len(),
            p@ == p0 + w@.subrange(start as int, k as int),
        decreases end - k,
    {
        p.push(w[k]);
        proof {
            assert(p@ =~= p0 + w@.subrange(start as int, k + 1));
        }
        k = k + 1;
    }
    proof {
        if start > 0 {
            assert(p0 =~= cont_prefix());
        } else {
            assert(p0 =~= Seq::<char>::empty());
            assert(p@ =~= w@.subrange(start as int, end as int));
        }
    }
    p
}

impl WordPieceTokenizer {
    /// The WordPiece longest-match split of one word; `None` when it cannot
    /// be split (the caller emits `[UNK]`).
    fn tokenize_word(&self, word: &Vec<char>) -> (r: Option<Vec<Vec<char>>>)
        ensures
            match wp_word(self.token_map(), word@, self.max_chars()) {
                Some(ps) => r matches Some(v) && v@.map_values(|x: Vec<char>| x@) == ps,
                None => r is None,
            },
    {
        let ghost vm = self.token_map();
        let ws = string_from_chars(word.as_slice());
        if self.vocab.contains(ws.as_str()) {
            let mut out: Vec<Vec<char>> = Vec::new();
            out.push(crate::text::slice_chars(word.as_slice(), 0, word.len()));
            proof {
                assert(word@.subrange(0, word@.len() as int) =~= word@);
                assert(out@.map_values(|x: Vec<char>| x@) =~= seq![word@]);
            }
            return Some(out);
        }
        if word.len() > self.max_input_chars_per_word {
            return None;
        }
        let mut subs: Vec<Vec<char>> = Vec::new();
        let mut start: usize = 0;
        proof {
            assert(subs@.map_values(|x: Vec<char>| x@) =~= Seq::<Seq<char>>::empty());
        }
        while start < word.len()
            invariant
                start <= word.len(),
                vm == self.token_map(),
                !vm.contains_key(word@),
                word@.len() <= self.max_chars(),
                wp_word(vm, word@, self.max_chars()) == wp_from(vm, word@, start as int, subs@.map_values(|x: Vec<char>| x@)),
            decreases word.len() - start,
        {
            let mut end = word.len();
            let mut found: Option<Vec<char>> = None;
            while start < end
                invariant_except_break
                    found is None,
                invariant
                    start < word.len(),
                    start <= end <= word.len(),
                    vm == self.token_map(),
                    longest_match(vm, word@, start as int, word@.len() as int) == longest_match(vm, word@, start as int, end as int),
                ensures
                    start <= end <= word.len(),
                    found matches Some(c) ==> c@ == piece(word@, start as int, end as int) && start < end
                        && longest_match(vm, word@, start as int, word@.len() as int) == Some(end as int),
                    found is None ==> longest_match(vm, word@, start as int, word@.len() as int) is None,
                decreases end - start,
            {
                let cand = piece_exec(word, start, end);
                let cs = string_from_chars(cand.as_slice());
                if self.vocab.contains(cs.as_str()) {
                    found = Some(cand);
                    break;
                }
                end = end - 1;
            }
            let sub = match found {
                Some(s) => s,
                None => {
                    return None;
                },
            };
            proof {
                lemma_longest_match(vm, word@, start as int, word@.len() as int);
            }
            let ghost before = subs@;
            subs.push(sub);
            proof {
                assert(subs@.map_values(|x: Vec<char>| x@) =~= before.map_values(|x: Vec<char>| x@).push(piece(word@, start as int, end as int)));
            }
            start = end;
        }
        Some(subs)
    }
}


impl Tokenizer for WordPieceTokenizer {
    /// WordPiece encoding never fails (unknown words become the unknown
    /// token), so no error is one it gives.
    open spec fn encode_error(&self, text: Seq<char>, e: TokenizerError) -> bool {
        false
    }

    open spec fn encode_spec(&self, text: Seq<char>) -> Option<Seq<TokenId>> {
        Some(
            wp_ids(
                self.token_map(),
                bert_words(self.prepared(text), self.lowercases()),
                self.max_chars(),
                self.unk(),
            ),
        )
    }

    open spec fn decode_spec(&self, ids: Seq<TokenId>) -> Option<Seq<char>> {
        wp_dec_from(self.id_map(), ids, 0, Seq::empty())
    }

    fn encode(&self, text: &str) -> (r: Result<Vec<TokenId>, TokenizerError>) {
        let prepared: String = match self.normalize {
            Some(form) => normalize(text, form),
            None => text.to_owned(),
        };
        let cs = chars_of(prepared.as_str());
        let words = bert_basic(cs.as_slice(), self.lowercase);
        let ghost wm = words@.map_values(|w: Vec<char>| w@);
        let ghost vm = self.token_map();
        let mut ids: Vec<TokenId> = Vec::new();
        let mut k: usize = 0;
        while k < words.len()
            invariant
                k <= words.len(),
                wm == words@.map_values(|w: Vec<char>| w@),
                vm == self.token_map(),
                ids@ == wp_ids(vm, wm.take(k as int), self.max_chars(), self.unk()),
            decreases words.len() - k,
        {
            proof {
                assert(wm.take(k + 1).drop_last() =~= wm.take(k as int));
                assert(wm.take(k + 1).last() == words@[k as int]@);
            }
            let ghost before = ids@;
            match self.tokenize_word(&words[k]) {
                Some(subs) => {
                    let ghost ps = subs@.map_values(|x: Vec<char>| x@);
                    proof {
                        lemma_wp_from_in_vocab(vm, words@[k as int]@, 0, Seq::empty());
                        if vm.contains_key(words@[k as int]@) {
                            assert(ps[0] == words@[k as int]@);
                        }
                    }
                    let mut j: usize = 0;
                    while j < subs.len()
                        invariant
                            j <= subs.len(),
                            ps == subs@.map_values(|x: Vec<char>| x@),
                            vm == self.token_map(),
                            forall|i: int| 0 <= i < ps.len() ==> vm.contains_key(#[trigger] ps[i]),
                            ids@ == before + ps.take(j as int).map_values(|p: Seq<char>| vm[p]),
                        decreases subs.len() - j,
                    {
                        let t = string_from_chars(subs[j].as_slice());
                        proof {
                            assert(ps[j as int] == t@);
                        }
                        let id = match self.vocab.get(t.as_str()) {
                            Some(id) => id,
                            None => {
                                return Err(TokenizerError::UnknownToken(t));
                            },
                        };
                        ids.push(id);
                        proof {
                            assert(ps.take(j + 1).map_values(|p: Seq<char>| vm[p]) =~= ps.take(j as int).map_values(|p: Seq<char>| vm[p]).push(vm[ps[j as int]]));
                            assert(ids@ =~= before + ps.take(j + 1).map_values(|p: Seq<char>| vm[p]));
                        }
                        j = j + 1;
                    }
                    proof {
                        assert(ps.take(ps.len() as int) =~= ps);
                    }
                },
                None => {
                    ids.push(self.unk_id);
                },
            }
            k = k + 1;
        }
        proof {
            assert(wm.take(wm.len() as int) =~= wm);
        }
        Ok(ids)
    }

    fn decode(&self, ids: &[TokenId]) -> (r: Result<String, TokenizerError>)
        ensures
            r matches Err(e) ==> first_unknown_id(self.id_map(), ids@) matches Some(id)
                && e matches TokenizerError::UnknownToken(m) && m@ == decimal(id as nat),
    {
        let ghost im = self.id_map();
        let mut out = String::new();
        let mut k: usize = 0;
        while k < ids.len()
            invariant
                k <= ids.len(),
                im == self.id_map(),
                wp_dec_from(im, ids@, 0, Seq::empty()) == wp_dec_from(im, ids@, k as int, out@),
                first_unknown_id(im, ids@.take(k as int)) is None,
            decreases ids.len() - k,
        {
            let id = ids[k];
            proof {
                assert(ids@.take(k + 1).drop_last() =~= ids@.take(k as int));
                assert(ids@.take(k + 1).last() == id);
            }
            let token = match self.vocab.token(id) {
                Some(t) => t,
                None => {
                    proof {
                        lemma_first_unknown_id_prefix(im, ids@, k + 1, id);
                    }
                    let mut msg = String::new();
                    push_decimal(&mut msg, id as u64);
                    return Err(TokenizerError::UnknownToken(msg));
                },
            };
            let tc = chars_of(token.as_str());
            if tc.len() >= 2 && tc[0] == '#' && tc[1] == '#' {
                proof {
                    assert(tc@.take(2) =~= cont_prefix());
                }
                let rest = crate::text::slice_chars(tc.as_slice(), 2, tc.len());
                push_str(&mut out, string_from_chars(rest.as_slice()).as_str());
                proof {
                    assert(rest@ =~= tc@.skip(2));
                }
            } else {
                proof {
                    if tc@.len() >= 2 {
                        assert(tc@.take(2)[0] == tc@[0]);
                        assert(tc@.take(2)[1] == tc@[1]);
                    }
                }
                if k > 0 {
                    push_char(&mut out, ' ');
                }
                push_str(&mut out, token.as_str());
            }
            k = k + 1;
        }
        Ok(out)
    }
}

} // verus!
