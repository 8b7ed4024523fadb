//! Byte-Pair Encoding (GPT-2 / Llama style), with optional byte-level mode
//! and atomic special tokens.

use vstd::prelude::*;
use vstd::hash_map::StringHashMap;

use crate::pretokenize::{byte_level, decode_byte_level, encode_byte_level, from_byte_level, gpt2_pieces, gpt2_split};
use crate::text::{chars_of, decimal, push_char, push_decimal, string_from_chars};
use crate::tokenizer::{TokenId, Tokenizer, TokenizerError, lines, split_lines, split_words, words};
use crate::vocab::{assoc_map, entries_model, flipped, Vocab};

verus! {

/// The key under which the merge of `a` and `b` is ranked: the length of
/// `a` in decimal, `#`, then `a` and `b`.
pub open spec fn merge_key(a: Seq<char>, b: Seq<char>) -> Seq<char> {
    decimal(a.len()) + seq!['#'] + a + b
}

/// The rank table a merge list describes: each pair's index, a later
/// duplicate overriding an earlier one.
pub open spec fn ranks_of(merges: Seq<(Seq<char>, Seq<char>)>) -> Map<Seq<char>, usize>
    decreases merges.len(),
{
    if merges.len() == 0 {
        Map::empty()
    } else {
        ranks_of(merges.drop_last()).insert(
            merge_key(merges.last().0, merges.last().1),
            (merges.len() - 1) as usize,
        )
    }
}

/// The rank of merging `a` with `b`, if that merge is listed.
pub open spec fn rank_of(ranks: Map<Seq<char>, usize>, a: Seq<char>, b: Seq<char>) -> Option<usize> {
    ranks.get(merge_key(a, b))
}

/// Scanning adjacent pairs from `i`: the lowest rank and the leftmost index
/// where it occurs, starting from `best`.
pub open spec fn best_from(syms: Seq<Seq<char>>, ranks: Map<Seq<char>, usize>, i: int, best: Option<(usize, int)>) -> Option<(usize, int)>
    decreases syms.len() - i,
{
    if !(0 <= i && i + 1 < syms.len()) {
        best
    } else {
        match rank_of(ranks, syms[i], syms[i + 1]) {
            Some(r) => if best is None || r < best.unwrap().0 {
                best_from(syms, ranks, i + 1, Some((r, i)))
            } else {
                best_from(syms, ranks, i + 1, best)
            },
            None => best_from(syms, ranks, i + 1, best),
        }
    }
}

/// `syms` with symbols `i` and `i + 1` joined.
pub open spec fn merge_at(syms: Seq<Seq<char>>, i: int) -> Seq<Seq<char>> {
    syms.take(i).push(syms[i] + syms[i + 1]) + syms.skip(i + 2)
}

/// Repeatedly merges the best-ranked adjacent pair until none is ranked.
pub open spec fn bpe(syms: Seq<Seq<char>>, ranks: Map<Seq<char>, usize>) -> Seq<Seq<char>>
    decreases syms.len(),
{
    match best_from(syms, ranks, 0, None) {
        Some((_, i)) => if 0 <= i && i + 1 < syms.len() {
            bpe(merge_at(syms, i), ranks)
        } else {
            syms
        },
        None => syms,
    }
}

/// Each character of `w` as a one-character symbol.
pub open spec fn singletons(w: Seq<char>) -> Seq<Seq<char>> {
    w.map_values(|c: char| seq![c])
}

/// The sub-words BPE splits word `w` into.
pub open spec fn bpe_word(w: Seq<char>, ranks: Map<Seq<char>, usize>) -> Seq<Seq<char>> {
    if w.len() == 0 {
        Seq::empty()
    } else {
        bpe(singletons(w), ranks)
    }
}

/// The characters of `syms`, concatenated.
pub open spec fn concat(syms: Seq<Seq<char>>) -> Seq<char>
    decreases syms.len(),
{
    if syms.len() == 0 {
        Seq::empty()
    } else {
        concat(syms.drop_last()) + syms.last()
    }
}

/// The longest special token (the last listed among equals) that occurs at
/// `i`, scanning the list from `k` with best-so-far `best`.
pub open spec fn special_scan(specials: Seq<(Seq<char>, TokenId)>, s: Seq<char>, i: int, k: int, best: Option<(Seq<char>, TokenId)>) -> Option<(Seq<char>, TokenId)>
    decreases specials.len() - k,
{
    if !(0 <= k < specials.len()) {
        best
    } else {
        let (t, id) = specials[k];
        if t.len() > 0 && i + t.len() <= s.len() && s.subrange(i, i + t.len()) == t && (best is None
            || t.len() >= best.unwrap().0.len()) {
            special_scan(specials, s, i, k + 1, Some((t, id)))
        } else {
            special_scan(specials, s, i, k + 1, best)
        }
    }
}

/// The special token that occurs at `i`, if any.
pub open spec fn special_at(specials: Seq<(Seq<char>, TokenId)>, s: Seq<char>, i: int) -> Option<(Seq<char>, TokenId)> {
    special_scan(specials, s, i, 0, None)
}

/// The text of special id `id` (its last listing), if it is special.
pub open spec fn special_text(specials: Seq<(Seq<char>, TokenId)>, id: TokenId) -> Option<Seq<char>>
    decreases specials.len(),
{
    if specials.len() == 0 {
        None
    } else if specials.last().1 == id {
        Some(specials.last().0)
    } else {
        special_text(specials.drop_last(), id)
    }
}

/// A Byte-Pair Encoding tokenizer: a vocabulary and ranked merge rules.
///
/// At each step the adjacent symbol pair with the lowest rank (earliest in
/// the merge list, leftmost on ties) is merged, until no ranked pair remains.
pub struct BpeTokenizer {
    vocab: Vocab,
    merge_ranks: StringHashMap<usize>,
    byte_level: bool,
    specials: Vec<(String, TokenId)>,
}

impl BpeTokenizer {
    /// Token text to id.
    pub closed spec fn token_map(&self) -> Map<Seq<char>, TokenId> {
        self.vocab.token_map()
    }

    /// Id to token text.
    pub closed spec fn id_map(&self) -> Map<TokenId, Seq<char>> {
        self.vocab.id_map()
    }

    /// The merge ranks, by [`merge_key`].
    pub closed spec fn ranks(&self) -> Map<Seq<char>, usize> {
        self.merge_ranks@
    }

    /// Whether byte-level mode is on.
    pub closed spec fn is_byte_level(&self) -> bool {
        self.byte_level
    }

    /// The atomic special tokens.
    pub closed spec fn specials_model(&self) -> Seq<(Seq<char>, TokenId)> {
        entries_model(self.specials@)
    }

    /// Builds a tokenizer from vocabulary entries (token, id) and an ordered
    /// list of merge rules; a rule's index is its rank, so earlier rules win.
    pub fn from_vocab_merges(vocab: Vec<(String, TokenId)>, merges: Vec<(String, String)>) -> (t: Self)
        ensures
            t.token_map() == assoc_map(entries_model(vocab@)),
            t.id_map() == assoc_map(flipped(entries_model(vocab@))),
            t.ranks() == ranks_of(merges@.map_values(|m: (String, String)| (m.0@, m.1@))),
            !t.is_byte_level(),
            t.specials_model().len() == 0,
    {
        let v = Vocab::from_entries(&vocab);
        let ghost mm = merges@.map_values(|m: (String, String)| (m.0@, m.1@));
        let mut ranks: StringHashMap<usize> = StringHashMap::new();
        let mut i: usize = 0;
        while i < merges.len()
            invariant
                i <= merges.len(),
                mm == merges@.map_values(|m: (String, String)| (m.0@, m.1@)),
                ranks@ == ranks_of(mm.take(i as int)),
            decreases merges.len() - i,
        {
            let a = chars_of(merges[i].0.as_str());
            let b = chars_of(merges[i].1.as_str());
            let key = merge_key_string(&a, &b);
            proof {
                assert(mm.take(i + 1).drop_last() =~= mm.take(i as int));
            }
            ranks.insert(key, i);
            i = i + 1;
        }
        proof {
            assert(mm.take(mm.len() as int) =~= mm);
        }
        let specials: Vec<(String, TokenId)> = Vec::new();
        proof {
            assert(entries_model(specials@) =~= Seq::<(Seq<char>, TokenId)>::empty());
        }
        BpeTokenizer { vocab: v, merge_ranks: ranks, byte_level: false, specials }
    }

    /// Switches to GPT-2 byte-level mode: text is pre-tokenized GPT-2 style
    /// and each piece's UTF-8 bytes are mapped into the byte-level alphabet
    /// before merging, so decoding restores the text exactly.
    pub fn with_byte_level(self) -> (t: Self)
        ensures
            t.token_map() == self.token_map(),
            t.id_map() == self.id_map(),
            t.ranks() == self.ranks(),
            t.is_byte_level(),
            t.specials_model() == self.specials_model(),
    {
        BpeTokenizer { byte_level: true, ..self }
    }

    /// Registers atomic special tokens: each occurrence in the input is
    /// emitted as its id without further splitting, and the id decodes to
    /// the token's text.
    pub fn with_special_tokens(self, specials: Vec<(String, TokenId)>) -> (t: Self)
        ensures
            t.token_map() == self.token_map(),
            t.id_map() == self.id_map(),
            t.ranks() == self.ranks(),
            t.is_byte_level() == self.is_byte_level(),
            t.specials_model() == entries_model(specials@),
    {
        BpeTokenizer { specials, ..self }
    }

    /// Number of tokens in the vocabulary.
    pub fn vocab_size(&self) -> (n: usize)
        ensures
            n == self.token_map().len(),
    {
        self.vocab.len()
    }
}

/// The merge key of `a` and `b`.
fn merge_key_string(a: &Vec<char>, b: &Vec<char>) -> (k: String)
    ensures
        k@ == merge_key(a@, b@),
{
    let mut k = String::new();
    push_decimal(&mut k, a.len() as u64);
    push_char(&mut k, '#');
    let mut i: usize = 0;
    while i < a.len()
        invariant
            i <= a.len(),
            k@ == decimal(a@.len()) + seq!['#'] + a@.take(i as int),
        decreases a.len() - i,
    {
        push_char(&mut k, a[i]);
        proof {
            assert(a@.take(i + 1) =~= a@.take(i as int).push(a@[i as int]));
            assert(k@ =~= decimal(a@.len()) + seq!['#'] + a@.take(i + 1));
        }
        i = i + 1;
    }
    let mut j: usize = 0;
    while j < b.len()
        invariant
            j <= b.len(),
            k@ == decimal(a@.len()) + seq!['#'] + a@ + b@.take(j as int),
        decreases b.len() - j,
    {
        push_char(&mut k, b[j]);
        proof {
            assert(b@.take(j + 1) =~= b@.take(j as int).push(b@[j as int]));
            assert(k@ =~= decimal(a@.len()) + seq!['#'] + a@ + b@.take(j + 1));
        }
        j = j + 1;
    }
    proof {
        assert(a@.take(a@.len() as int) =~= a@);
        assert(b@.take(b@.len() as int) =~= b@);
    }
    k
}


/// The models of a list of symbols.
pub open spec fn syms_model(v: Seq<Vec<char>>) -> Seq<Seq<char>> {
    v.map_values(|x: Vec<char>| x@)
}

/// The id a sub-word maps to: its own, else `<unk>`'s, else none.
pub open spec fn id_for(vocab: Map<Seq<char>, TokenId>, t: Seq<char>) -> Option<TokenId> {
    if vocab.contains_key(t) {
        Some(vocab[t])
    } else if vocab.contains_key("<unk>"@) {
        Some(vocab["<unk>"@])
    } else {
        None
    }
}

/// The ids of a sequence of sub-words, if each has one.
pub open spec fn sub_ids(vocab: Map<Seq<char>, TokenId>, subs: Seq<Seq<char>>) -> Option<Seq<TokenId>>
    decreases subs.len(),
{
    if subs.len() == 0 {
        Some(Seq::empty())
    } else {
        match (sub_ids(vocab, subs.drop_last()), id_for(vocab, subs.last())) {
            (Some(p), Some(x)) => Some(p.push(x)),
            _ => None,
        }
    }
}

/// The ids of a sequence of pre-tokenized pieces, each split by BPE.
pub open spec fn pieces_ids(vocab: Map<Seq<char>, TokenId>, ranks: Map<Seq<char>, usize>, ps: Seq<Seq<char>>) -> Option<Seq<TokenId>>
    decreases ps.len(),
{
    if ps.len() == 0 {
        Some(Seq::empty())
    } else {
        match (pieces_ids(vocab, ranks, ps.drop_last()), sub_ids(vocab, bpe_word(ps.last(), ranks))) {
            (Some(p), Some(x)) => Some(p + x),
            _ => None,
        }
    }
}

/// The first sub-word of `subs` that has no id, if any.
pub open spec fn first_unknown(vocab: Map<Seq<char>, TokenId>, subs: Seq<Seq<char>>) -> Option<Seq<char>>
    decreases subs.len(),
{
    if subs.len() == 0 {
        None
    } else {
        match first_unknown(vocab, subs.drop_last()) {
            Some(u) => Some(u),
            None => if id_for(vocab, subs.last()) is None {
                Some(subs.last())
            } else {
                None
            },
        }
    }
}

/// The first sub-word without an id among the BPE splits of `ps`, if any.
pub open spec fn pieces_unknown(vocab: Map<Seq<char>, TokenId>, ranks: Map<Seq<char>, usize>, ps: Seq<Seq<char>>) -> Option<Seq<char>>
    decreases ps.len(),
{
    if ps.len() == 0 {
        None
    } else {
        match pieces_unknown(vocab, ranks, ps.drop_last()) {
            Some(u) => Some(u),
            None => first_unknown(vocab, bpe_word(ps.last(), ranks)),
        }
    }
}

proof fn lemma_first_unknown_prefix(tm: Map<Seq<char>, TokenId>, s: Seq<Seq<char>>, k: int, u: Seq<char>)
    requires
        0 <= k <= s.len(),
        first_unknown(tm, s.take(k)) == Some(u),
    ensures
        first_unknown(tm, s) == Some(u),
    decreases s.len() - k,
{
    if k < s.len() {
        assert(s.take(k + 1).drop_last() =~= s.take(k));
        lemma_first_unknown_prefix(tm, s, k + 1, u);
    } else {
        assert(s.take(k) =~= s);
    }
}

proof fn lemma_pieces_unknown_prefix(tm: Map<Seq<char>, TokenId>, rk: Map<Seq<char>, usize>, s: Seq<Seq<char>>, k: int, u: Seq<char>)
    requires
        0 <= k <= s.len(),
        pieces_unknown(tm, rk, s.take(k)) == Some(u),
    ensures
        pieces_unknown(tm, rk, s) == Some(u),
    decreases s.len() - k,
{
    if k < s.len() {
        assert(s.take(k + 1).drop_last() =~= s.take(k));
        lemma_pieces_unknown_prefix(tm, rk, s, k + 1, u);
    } else {
        assert(s.take(k) =~= s);
    }
}

impl BpeTokenizer {
    /// The pieces a stretch of text without special tokens is split into.
    pub open spec fn pieces_of(&self, seg: Seq<char>) -> Seq<Seq<char>> {
        if self.is_byte_level() {
            gpt2_pieces(seg).map_values(|p: Seq<char>| byte_level(p))
        } else {
            words(seg)
        }
    }

    /// The ids of a stretch of text without special tokens.
    pub open spec fn segment_ids(&self, seg: Seq<char>) -> Option<Seq<TokenId>> {
        pieces_ids(self.token_map(), self.ranks(), self.pieces_of(seg))
    }

    /// Encoding `s` from position `i`, with the current stretch of plain
    /// text starting at `start`, after the ids `acc`.
    pub open spec fn enc_from(&self, s: Seq<char>, i: int, start: int, acc: Seq<TokenId>) -> Option<Seq<TokenId>>
        decreases s.len() - i,
    {
        if !(0 <= i < s.len()) {
            match self.segment_ids(s.subrange(start, s.len() as int)) {
                Some(x) => Some(acc + x),
                None => None,
            }
        } else {
            match special_at(self.specials_model(), s, i) {
                Some((t, id)) => if t.len() == 0 || i + t.len() > s.len() {
                    None
                } else {
                    match self.segment_ids(s.subrange(start, i)) {
                        Some(x) => self.enc_from(s, i + t.len(), i + t.len(), acc + x.push(id)),
                        None => None,
                    }
                },
                None => self.enc_from(s, i + 1, start, acc),
            }
        }
    }

    /// The first sub-word without an id met while encoding `s` from
    /// position `i` (the current stretch of plain text starting at `start`).
    pub open spec fn enc_unknown(&self, s: Seq<char>, i: int, start: int) -> Option<Seq<char>>
        decreases s.len() - i,
    {
        if !(0 <= i < s.len()) {
            pieces_unknown(self.token_map(), self.ranks(), self.pieces_of(s.subrange(start, s.len() as int)))
        } else {
            match special_at(self.specials_model(), s, i) {
                Some((t, id)) => if t.len() == 0 || i + t.len() > s.len() {
                    None
                } else {
                    match pieces_unknown(self.token_map(), self.ranks(), self.pieces_of(s.subrange(start, i))) {
                        Some(u) => Some(u),
                        None => self.enc_unknown(s, i + t.len(), i + t.len()),
                    }
                },
                None => self.enc_unknown(s, i + 1, start),
            }
        }
    }

    /// Decoding `ids` from index `k`, with byte-level text `pending` not yet
    /// turned back into characters, after the text `acc`.
    pub open spec fn dec_from(&self, ids: Seq<TokenId>, k: int, pending: Seq<char>, acc: Seq<char>) -> Option<Seq<char>>
        decreases ids.len() - k,
    {
        let flushed = if self.is_byte_level() {
            from_byte_level(pending)
        } else {
            Some(pending)
        };
        if !(0 <= k < ids.len()) {
            match flushed {
                Some(t) => Some(acc + t),
                None => None,
            }
        } else {
            match special_text(self.specials_model(), ids[k]) {
                Some(t) => match flushed {
                    Some(f) => self.dec_from(ids, k + 1, Seq::empty(), acc + f + t),
                    None => None,
                },
                None => match self.id_map().get(ids[k]) {
                    Some(tok) => self.dec_from(ids, k + 1, pending + tok, acc),
                    None => None,
                },
            }
        }
    }

    /// The id that stops decoding `ids` from position `k` (with `pending`
    /// plain text not yet flushed) because it is neither a special token nor
    /// in the vocabulary; `None` when decoding stops for another reason or
    /// does not stop.
    pub open spec fn dec_unknown_id(&self, ids: Seq<TokenId>, k: int, pending: Seq<char>) -> Option<TokenId>
        decreases ids.len() - k,
    {
        let flushes = if self.is_byte_level() {
            from_byte_level(pending) is Some
        } else {
            true
        };
        if !(0 <= k < ids.len()) {
            None
        } else {
            match special_text(self.specials_model(), ids[k]) {
                Some(t) => if flushes {
                    self.dec_unknown_id(ids, k + 1, Seq::empty())
                } else {
                    None
                },
                None => match self.id_map().get(ids[k]) {
                    Some(tok) => self.dec_unknown_id(ids, k + 1, pending + tok),
                    None => Some(ids[k]),
                },
            }
        }
    }

    /// Applies the merge rules to one word, returning its sub-words.
    fn tokenize_word(&self, word: &Vec<char>) -> (out: Vec<Vec<char>>)
        ensures
            syms_model(out@) == bpe_word(word@, self.ranks()),
    {
        let ghost r = self.ranks();
        if word.len() == 0 {
            let out: Vec<Vec<char>> = Vec::new();
            proof {
                assert(syms_model(out@) =~= Seq::<Seq<char>>::empty());
            }
            return out;
        }
        let mut syms: Vec<Vec<char>> = Vec::new();
        let mut k: usize = 0;
        while k < word.len()
            invariant
                k <= word.len(),
                syms_model(syms@) == singletons(word@.take(k as int)),
            decreases word.len() - k,
        {
            let mut one: Vec<char> = Vec::new();
            one.push(word[k]);
            let ghost before = syms@;
            syms.push(one);
            proof {
                assert(word@.take(k + 1) =~= word@.take(k as int).push(word@[k as int]));
                assert(singletons(word@.take(k + 1)) =~= singletons(word@.take(k as int)).push(seq![word@[k as int]]));
                assert(syms_model(syms@) =~= syms_model(before).push(one@));
                assert(one@ =~= seq![word@[k as int]]);
            }
            k = k + 1;
        }
        proof {
            assert(word@.take(word@.len() as int) =~= word@);
        }
        loop
            invariant
                r == self.ranks(),
                bpe(syms_model(syms@), r) == bpe(singletons(word@), r),
            decreases syms.len(),
        {
            let ghost sm = syms_model(syms@);
            let mut best: Option<(usize, usize)> = None;
            let mut i: usize = 0;
            while syms.len() > 0 && i < syms.len() - 1
                invariant
                    sm == syms_model(syms@),
                    r == self.ranks(),
                    best_from(sm, r, 0, None) == best_from(
                        sm,
                        r,
                        i as int,
                        match best {
                            Some((x, y)) => Some((x, y as int)),
                            None => None,
                        },
                    ),
                    match best {
                        Some((x, y)) => y + 1 < syms.len(),
                        None => true,
                    },
                decreases syms.len() - i,
            {
                let key = merge_key_string(&syms[i], &syms[i + 1]);
                match self.merge_ranks.get(key.as_str()) {
                    Some(rank) => {
                        let better = match best {
                            None => true,
                            Some((br, _)) => *rank < br,
                        };
                        if better {
                            best = Some((*rank, i));
                        }
                    },
                    None => {},
                }
                i = i + 1;
            }
            match best {
                None => {
                    return syms;
                },
                Some((_, idx)) => {
                    let mut merged: Vec<char> = Vec::new();
                    let mut j: usize = 0;
                    while j < syms[idx].len()
                        invariant
                            idx + 1 < syms.len(),
                            j <= syms@[idx as int]@.len(),
                            merged@ == syms@[idx as int]@.take(j as int),
                        decreases syms@[idx as int]@.len() - j,
                    {
                        merged.push(syms[idx][j]);
                        proof {
                            assert(merged@ =~= syms@[idx as int]@.take(j + 1));
                        }
                        j = j + 1;
                    }
                    let mut j2: usize = 0;
                    while j2 < syms[idx + 1].len()
                        invariant
                            idx + 1 < syms.len(),
                            j == syms@[idx as int]@.len(),
                            j2 <= syms@[idx + 1]@.len(),
                            merged@ == syms@[idx as int]@ + syms@[idx + 1]@.take(j2 as int),
                        decreases syms@[idx + 1]@.len() - j2,
                    {
                        merged.push(syms[idx + 1][j2]);
                        proof {
                            assert(merged@ =~= syms@[idx as int]@ + syms@[idx + 1]@.take(j2 + 1));
                        }
                        j2 = j2 + 1;
                    }
                    proof {
                        assert(syms@[idx as int]@.take(j as int) =~= syms@[idx as int]@);
                        assert(syms@[idx + 1]@.take(j2 as int) =~= syms@[idx + 1]@);
                    }
                    let ghost pre = syms@;
                    syms.remove(idx + 1);
                    syms.remove(idx);
                    syms.insert(idx, merged);
                    proof {
                        assert(syms_model(syms@) =~= merge_at(syms_model(pre), idx as int));
                    }
                }
            }
        }
    }
}


/// A special token found by the scan occurs where it was looked for.
pub proof fn lemma_special_scan(specials: Seq<(Seq<char>, TokenId)>, s: Seq<char>, i: int, k: int, best: Option<(Seq<char>, TokenId)>)
    requires
        0 <= i,
        best matches Some((t, id)) ==> t.len() > 0 && i + t.len() <= s.len(),
    ensures
        special_scan(specials, s, i, k, best) matches Some((t, id)) ==> t.len() > 0 && i + t.len() <= s.len(),
    decreases specials.len() - k,
{
    if 0 <= k < specials.len() {
        let (t, id) = specials[k];
        if t.len() > 0 && i + t.len() <= s.len() && s.subrange(i, i + t.len()) == t && (best is None
            || t.len() >= best.unwrap().0.len()) {
            lemma_special_scan(specials, s, i, k + 1, Some((t, id)));
        } else {
            lemma_special_scan(specials, s, i, k + 1, best);
        }
    }
}

fn unknown(t: &Vec<char>) -> (e: TokenizerError)
    ensures
        e matches TokenizerError::UnknownToken(n) && n@ == t@,
{
    TokenizerError::UnknownToken(string_from_chars(t.as_slice()))
}

impl BpeTokenizer {
    fn special_at_exec(&self, s: &Vec<char>, i: usize) -> (r: Option<(usize, TokenId)>)
        requires
            i <= s.len(),
        ensures
            match special_at(self.specials_model(), s@, i as int) {
                Some((t, id)) => r == Some((t.len() as usize, id)) && t.len() > 0 && i + t.len() <= s.len(),
                None => r is None,
            },
    {
        let ghost sp = self.specials_model();
        let mut best: Option<(usize, TokenId)> = None;
        let ghost mut best_m: Option<(Seq<char>, TokenId)> = None;
        let mut k: usize = 0;
        while k < self.specials.len()
            invariant
                k <= self.specials.len(),
                i <= s.len(),
                sp == self.specials_model(),
                special_at(sp, s@, i as int) == special_scan(sp, s@, i as int, k as int, best_m),
                match best_m {
                    Some((t, id)) => best == Some((t.len() as usize, id)) && t.len() > 0 && i + t.len() <= s.len(),
                    None => best is None,
                },
            decreases self.specials.len() - k,
        {
            let t = chars_of(self.specials[k].0.as_str());
            let id = self.specials[k].1;
            let fits = t.len() > 0 && t.len() <= s.len() - i && {
                let mut m: usize = 0;
                let mut same = true;
                while m < t.len()
                    invariant
                        m <= t.len(),
                        i + t.len() <= s.len(),
                        same == (forall|q: int| 0 <= q < m ==> s@[i + q] == t@[q]),
                    decreases t.len() - m,
                {
                    if s[i + m] != t[m] {
                        same = false;
                    }
                    m = m + 1;
                }
                proof {
                    if same {
                        assert(s@.subrange(i as int, i + t@.len()) =~= t@);
                    } else {
                        let q = choose|q: int| 0 <= q < m && s@[i + q] != t@[q];
                        assert(s@.subrange(i as int, i + t@.len())[q] != t@[q]);
                    }
                }
                same
            };
            let longer = match best {
                None => true,
                Some((bl, _)) => t.len() >= bl,
            };
            proof {
                assert(sp[k as int] == (t@, id));
            }
            if fits && longer {
                best = Some((t.len(), id));
                proof {
                    best_m = Some((t@, id));
                }
            }
            k = k + 1;
        }
        best
    }

    fn pieces_exec(&self, s: &Vec<char>, lo: usize, hi: usize) -> (out: Vec<Vec<char>>)
        requires
            lo <= hi <= s.len(),
        ensures
            syms_model(out@) == self.pieces_of(s@.subrange(lo as int, hi as int)),
    {
        let seg = crate::text::slice_chars(s.as_slice(), lo, hi);
        if self.byte_level {
            let text = string_from_chars(seg.as_slice());
            let parts = gpt2_split(text.as_str());
            let ghost pm = parts@.map_values(|t: String| t@);
            let mut out: Vec<Vec<char>> = Vec::new();
            let mut k: usize = 0;
            while k < parts.len()
                invariant
                    k <= parts.len(),
                    pm == parts@.map_values(|t: String| t@),
                    syms_model(out@) == pm.take(k as int).map_values(|p: Seq<char>| byte_level(p)),
                decreases parts.len() - k,
            {
                let b = encode_byte_level(parts[k].as_str());
                let ghost before = out@;
                out.push(chars_of(b.as_str()));
                proof {
                    assert(pm.take(k + 1) =~= pm.take(k as int).push(pm[k as int]));
                    assert(syms_model(out@) =~= syms_model(before).push(byte_level(pm[k as int])));
                    assert(pm.take(k + 1).map_values(|p: Seq<char>| byte_level(p)) =~= pm.take(
                        k as int,
                    ).map_values(|p: Seq<char>| byte_level(p)).push(byte_level(pm[k as int])));
                }
                k = k + 1;
            }
            proof {
                assert(pm.take(pm.len() as int) =~= pm);
            }
            out
        } else {
            let out = split_words(seg.as_slice());
            proof {
                assert(syms_model(out@) =~= out@.map_values(|w: Vec<char>| w@));
            }
            out
        }
    }

    fn push_sub_ids(&self, subs: &Vec<Vec<char>>, ids: &mut Vec<TokenId>) -> (r: Result<(), TokenizerError>)
        ensures
            match sub_ids(self.token_map(), syms_model(subs@)) {
                Some(x) => r is Ok && final(ids)@ == old(ids)@ + x,
                None => r is Err,
            },
            r is Ok ==> first_unknown(self.token_map(), syms_model(subs@)) is None,
            r matches Err(e) ==> first_unknown(self.token_map(), syms_model(subs@)) matches Some(u)
                && e matches TokenizerError::UnknownToken(m) && m@ == u,
    {
        let ghost tm = self.token_map();
        let ghost sm = syms_model(subs@);
        let ghost start = ids@;
        let mut k: usize = 0;
        proof {
            assert(start + Seq::<TokenId>::empty() =~= start);
        }
        while k < subs.len()
            invariant
                k <= subs.len(),
                tm == self.token_map(),
                sm == syms_model(subs@),
                sub_ids(tm, sm.take(k as int)) == Some(ids@.subrange(start.len() as int, ids@.len() as int)),
                first_unknown(tm, sm.take(k as int)) is None,
                ids@.take(start.len() as int) == start,
                ids@.len() >= start.len(),
            decreases subs.len() - k,
        {
            proof {
                assert(sm.take(k + 1).drop_last() =~= sm.take(k as int));
            }
            let t = string_from_chars(subs[k].as_slice());
            let id = match self.vocab.get(t.as_str()) {
                Some(id) => id,
                None => match self.vocab.get("<unk>") {
                    Some(u) => u,
                    None => {
                        proof {
                            lemma_sub_ids_none_prefix(tm, sm, k + 1);
                            assert(sm.take(k + 1).last() == sm[k as int]);
                            assert(first_unknown(tm, sm.take(k + 1)) == Some(sm[k as int]));
                            lemma_first_unknown_prefix(tm, sm, k + 1, sm[k as int]);
                        }
                        return Err(unknown(&subs[k]));
                    },
                },
            };
            let ghost before = ids@;
            ids.push(id);
            proof {
                assert(ids@.subrange(start.len() as int, ids@.len() as int) =~= before.subrange(
                    start.len() as int,
                    before.len() as int,
                ).push(id));
                assert(ids@.take(start.len() as int) =~= before.take(start.len() as int));
            }
            k = k + 1;
        }
        proof {
            assert(sm.take(sm.len() as int) =~= sm);
            assert(ids@ =~= start + ids@.subrange(start.len() as int, ids@.len() as int));
        }
        Ok(())
    }

    fn encode_segment(&self, s: &Vec<char>, lo: usize, hi: usize, ids: &mut Vec<TokenId>) -> (r: Result<(), TokenizerError>)
        requires
            lo <= hi <= s.len(),
        ensures
            match self.segment_ids(s@.subrange(lo as int, hi as int)) {
                Some(x) => r is Ok && final(ids)@ == old(ids)@ + x,
                None => r is Err,
            },
            r is Ok ==> pieces_unknown(self.token_map(), self.ranks(), self.pieces_of(s@.subrange(lo as int, hi as int))) is None,
            r matches Err(e) ==> pieces_unknown(self.token_map(), self.ranks(), self.pieces_of(s@.subrange(lo as int, hi as int))) matches Some(u)
                && e matches TokenizerError::UnknownToken(m) && m@ == u,
    {
        let pieces = self.pieces_exec(s, lo, hi);
        let ghost pm = syms_model(pieces@);
        let ghost tm = self.token_map();
        let ghost rk = self.ranks();
        let ghost start = ids@;
        let mut k: usize = 0;
        proof {
            assert(start + Seq::<TokenId>::empty() =~= start);
        }
        while k < pieces.len()
            invariant
                k <= pieces.len(),
                pm == syms_model(pieces@),
                pm == self.pieces_of(s@.subrange(lo as int, hi as int)),
                tm == self.token_map(),
                rk == self.ranks(),
                pieces_ids(tm, rk, pm.take(k as int)) matches Some(x) && ids@ == start + x,
                pieces_unknown(tm, rk, pm.take(k as int)) is None,
            decreases pieces.len() - k,
        {
            proof {
                assert(pm.take(k + 1).drop_last() =~= pm.take(k as int));
            }
            let subs = self.tokenize_word(&pieces[k]);
            let ghost before = ids@;
            match self.push_sub_ids(&subs, ids) {
                Ok(()) => {
                    proof {
                        let x = pieces_ids(tm, rk, pm.take(k as int)).unwrap();
                        let y = sub_ids(tm, bpe_word(pm[k as int], rk)).unwrap();
                        assert(ids@ =~= start + (x + y));
                    }
                },
                Err(e) => {
                    proof {
                        assert(pm.take(k + 1).last() == pm[k as int]);
                        assert(pm[k as int] == pieces@[k as int]@);
                        assert(sub_ids(tm, bpe_word(pm[k as int], rk)) is None);
                        lemma_pieces_ids_none_prefix(tm, rk, pm, k + 1);
                        let u = first_unknown(tm, bpe_word(pm[k as int], rk)).unwrap();
                        assert(pieces_unknown(tm, rk, pm.take(k + 1)) == Some(u));
                        lemma_pieces_unknown_prefix(tm, rk, pm, k + 1, u);
                    }
                    return Err(e);
                },
            }
            k = k + 1;
        }
        proof {
            assert(pm.take(pm.len() as int) =~= pm);
        }
        Ok(())
    }
}

proof fn lemma_sub_ids_none_prefix(tm: Map<Seq<char>, TokenId>, s: Seq<Seq<char>>, k: int)
    requires
        0 <= k <= s.len(),
        sub_ids(tm, s.take(k)) is None,
    ensures
        sub_ids(tm, s) is None,
    decreases s.len() - k,
{
    if k < s.len() {
        assert(s.take(k + 1).drop_last() =~= s.take(k));
        lemma_sub_ids_none_prefix(tm, s, k + 1);
    } else {
        assert(s.take(k) =~= s);
    }
}

proof fn lemma_pieces_ids_none_prefix(tm: Map<Seq<char>, TokenId>, rk: Map<Seq<char>, usize>, s: Seq<Seq<char>>, k: int)
    requires
        0 <= k <= s.len(),
        pieces_ids(tm, rk, s.take(k)) is None,
    ensures
        pieces_ids(tm, rk, s) is None,
    decreases s.len() - k,
{
    if k < s.len() {
        assert(s.take(k + 1).drop_last() =~= s.take(k));
        lemma_pieces_ids_none_prefix(tm, rk, s, k + 1);
    } else {
        assert(s.take(k) =~= s);
    }
}


impl BpeTokenizer {
    fn special_text_exec(&self, id: TokenId) -> (r: Option<&String>)
        ensures
            match special_text(self.specials_model(), id) {
                Some(t) => r matches Some(x) && x@ == t,
                None => r is None,
            },
    {
        let ghost sp = self.specials_model();
        let mut k: usize = self.specials.len();
        proof {
            assert(sp.take(k as int) =~= sp);
        }
        while k > 0
            invariant
                k <= self.specials.len(),
                sp == self.specials_model(),
                special_text(sp, id) == special_text(sp.take(k as int), id),
            decreases k,
        {
            proof {
                assert(sp.take(k as int).drop_last() =~= sp.take(k - 1));
                assert(sp.take(k as int).last() == sp[k - 1]);
            }
            if self.specials[k - 1].1 == id {
                return Some(&self.specials[k - 1].0);
            }
            k = k - 1;
        }
        None
    }

    fn flush_pending(&self, pending: &Vec<char>, out: &mut String) -> (r: Result<(), TokenizerError>)
        ensures
            match (if self.is_byte_level() {
                from_byte_level(pending@)
            } else {
                Some(pending@)
            }) {
                Some(t) => r is Ok && final(out)@ == old(out)@ + t,
                None => r is Err,
            },
            r matches Err(e) ==> e is MalformedFile,
    {
        if self.byte_level {
            match decode_byte_level(pending.as_slice()) {
                Some(t) => {
                    crate::text::push_str(out, t.as_str());
                    Ok(())
                },
                None => Err(TokenizerError::MalformedFile(
                    "ids do not decode to valid UTF-8 byte-level text".to_owned(),
                )),
            }
        } else {
            let t = string_from_chars(pending.as_slice());
            crate::text::push_str(out, t.as_str());
            Ok(())
        }
    }
}

impl Tokenizer for BpeTokenizer {
    /// The first sub-word without an id, named in an `UnknownToken` error.
    open spec fn encode_error(&self, text: Seq<char>, e: TokenizerError) -> bool {
        self.enc_unknown(text, 0, 0) matches Some(u) && e matches TokenizerError::UnknownToken(m) && m@ == u
    }

    open spec fn encode_spec(&self, text: Seq<char>) -> Option<Seq<TokenId>> {
        self.enc_from(text, 0, 0, Seq::empty())
    }

    open spec fn decode_spec(&self, ids: Seq<TokenId>) -> Option<Seq<char>> {
        self.dec_from(ids, 0, Seq::empty(), Seq::empty())
    }

    fn encode(&self, text: &str) -> (r: Result<Vec<TokenId>, TokenizerError>)
        ensures
            r matches Err(e) ==> self.enc_unknown(text@, 0, 0) matches Some(u)
                && e matches TokenizerError::UnknownToken(m) && m@ == u,
    {
        let s = chars_of(text);
        let mut ids: Vec<TokenId> = Vec::new();
        let mut start: usize = 0;
        let mut i: usize = 0;
        while i < s.len()
            invariant
                start <= i <= s.len(),
                s@ == text@,
                self.enc_from(s@, 0, 0, Seq::empty()) == self.enc_from(s@, i as int, start as int, ids@),
                self.enc_unknown(s@, 0, 0) == self.enc_unknown(s@, i as int, start as int),
            decreases s.len() - i,
        {
            match self.special_at_exec(&s, i) {
                Some((len, id)) => {
                    self.encode_segment(&s, start, i, &mut ids)?;
                    ids.push(id);
                    i = i + len;
                    start = i;
                },
                None => {
                    i = i + 1;
                },
            }
        }
        self.encode_segment(&s, start, s.len(), &mut ids)?;
        Ok(ids)
    }

    fn decode(&self, ids: &[TokenId]) -> (r: Result<String, TokenizerError>)
        ensures
            r matches Err(e) ==> match self.dec_unknown_id(ids@, 0, Seq::empty()) {
                Some(id) => e matches TokenizerError::UnknownToken(m) && m@ == decimal(id as nat),
                None => e is MalformedFile,
            },
    {
        let mut out = String::new();
        let mut pending: Vec<char> = Vec::new();
        let mut k: usize = 0;
        while k < ids.len()
            invariant
                k <= ids.len(),
                self.dec_from(ids@, 0, Seq::empty(), Seq::empty()) == self.dec_from(
                    ids@,
                    k as int,
                    pending@,
                    out@,
                ),
                self.dec_unknown_id(ids@, 0, Seq::empty()) == self.dec_unknown_id(ids@, k as int, pending@),
            decreases ids.len() - k,
        {
            let id = ids[k];
            match self.special_text_exec(id) {
                Some(t) => {
                    self.flush_pending(&pending, &mut out)?;
                    pending = Vec::new();
                    crate::text::push_str(&mut out, t.as_str());
                },
                None => match self.vocab.token(id) {
                    Some(tok) => {
                        let tc = chars_of(tok.as_str());
                        let mut j: usize = 0;
                        let ghost p0 = pending@;
                        while j < tc.len()
                            invariant
                                j <= tc.len(),
                                pending@ == p0 + tc@.take(j as int),
                            decreases tc.len() - j,
                        {
                            pending.push(tc[j]);
                            proof {
                                assert(pending@ =~= p0 + tc@.take(j + 1));
                            }
                            j = j + 1;
                        }
                        proof {
                            assert(tc@.take(tc@.len() as int) =~= tc@);
                        }
                    },
                    None => {
                        let mut msg = String::new();
                        push_decimal(&mut msg, id as u64);
                        return Err(TokenizerError::UnknownToken(msg));
                    },
                },
            }
            k = k + 1;
        }
        self.flush_pending(&pending, &mut out)?;
        Ok(out)
    }
}


/// The merge rules of a merges file: every line made of exactly two
/// whitespace-separated words (a count header line is skipped that way).
pub open spec fn merge_lines_from(ls: Seq<Seq<char>>) -> Seq<(Seq<char>, Seq<char>)>
    decreases ls.len(),
{
    if ls.len() == 0 {
        Seq::empty()
    } else {
        let prev = merge_lines_from(ls.drop_last());
        let ws = words(ls.last());
        if ws.len() == 2 {
            prev.push((ws[0], ws[1]))
        } else {
            prev
        }
    }
}

/// The lines of a merges file that hold rules: all of them, but for a
/// leading `#version` header line.
pub open spec fn rule_lines(ls: Seq<Seq<char>>) -> Seq<Seq<char>> {
    if ls.len() > 0 && ls[0].len() >= 8 && ls[0].take(8) == "#version"@ {
        ls.drop_first()
    } else {
        ls
    }
}

/// Parses a merges file: one `A B` pair per line; a leading `#version`
/// header and every line that is not a pair are skipped.
pub fn parse_merge_lines(text: &str) -> (out: Vec<(String, String)>)
    ensures
        out@.map_values(|m: (String, String)| (m.0@, m.1@)) == merge_lines_from(rule_lines(lines(text@))),
{
    let cs = chars_of(text);
    let ls = split_lines(cs.as_slice());
    let ghost lm = ls@.map_values(|w: Vec<char>| w@);
    let mut out: Vec<(String, String)> = Vec::new();
    let start: usize = if ls.len() > 0 && ls[0].len() >= 8 && crate::template_scan::range_is(ls[0].as_slice(), 0, 8, "#version") {
        1
    } else {
        0
    };
    let mut k: usize = start;
    let ghost rl = rule_lines(lm);
    proof {
        assert(out@.map_values(|m: (String, String)| (m.0@, m.1@)) =~= Seq::<(Seq<char>, Seq<char>)>::empty());
        if start == 1 {
            assert(lm[0] == ls@[0]@);
            assert(ls@[0]@.subrange(0, 8) =~= lm[0].take(8));
            assert(rl =~= lm.subrange(1, lm.len() as int));
        } else {
            if lm.len() > 0 && lm[0].len() >= 8 {
                assert(lm[0] == ls@[0]@);
                assert(ls@[0]@.subrange(0, 8) =~= lm[0].take(8));
            }
            assert(rl =~= lm.subrange(0, lm.len() as int));
        }
        assert(lm.subrange(start as int, start as int) =~= Seq::<Seq<char>>::empty());
    }
    while k < ls.len()
        invariant
            start <= k <= ls.len(),
            start <= 1,
            lm == ls@.map_values(|w: Vec<char>| w@),
            lm == lines(text@),
            rl == rule_lines(lm),
            rl == lm.subrange(start as int, lm.len() as int),
            out@.map_values(|m: (String, String)| (m.0@, m.1@)) == merge_lines_from(lm.subrange(start as int, k as int)),
        decreases ls.len() - k,
    {
        proof {
            assert(lm.subrange(start as int, k + 1).drop_last() =~= lm.subrange(start as int, k as int));
            assert(lm.subrange(start as int, k + 1).last() == ls@[k as int]@);
        }
        let parts = split_words(ls[k].as_slice());
        if parts.len() == 2 {
            let a = string_from_chars(parts[0].as_slice());
            let b = string_from_chars(parts[1].as_slice());
            let ghost before = out@;
            out.push((a, b));
            proof {
                let pm = parts@.map_values(|w: Vec<char>| w@);
                assert(pm[0] == parts@[0]@);
                assert(pm[1] == parts@[1]@);
                assert(out@.map_values(|m: (String, String)| (m.0@, m.1@)) =~= before.map_values(
                    |m: (String, String)| (m.0@, m.1@),
                ).push((pm[0], pm[1])));
            }
        }
        k = k + 1;
    }
    proof {
        assert(lm.subrange(start as int, k as int) =~= rl);
    }
    out
}

/// The merge rules of free-form merge text: the first two words of every
/// line that has at least two words and does not start with `#`.
pub open spec fn merge_text_rules(ls: Seq<Seq<char>>) -> Seq<(Seq<char>, Seq<char>)>
    decreases ls.len(),
{
    if ls.len() == 0 {
        Seq::empty()
    } else {
        let prev = merge_text_rules(ls.drop_last());
        let ws = words(ls.last());
        if ws.len() >= 2 && !(ws[0].len() > 0 && ws[0][0] == '#') {
            prev.push((ws[0], ws[1]))
        } else {
            prev
        }
    }
}

/// Parses merge rules written one `a b` pair per line, ignoring blank lines,
/// `#` comment lines and anything after the first two words of a line.
pub fn parse_merge_text(text: &str) -> (out: Vec<(String, String)>)
    ensures
        out@.map_values(|m: (String, String)| (m.0@, m.1@)) == merge_text_rules(lines(text@)),
{
    let cs = chars_of(text);
    let ls = split_lines(cs.as_slice());
    let ghost lm = ls@.map_values(|w: Vec<char>| w@);
    let mut out: Vec<(String, String)> = Vec::new();
    let mut k: usize = 0;
    proof {
        assert(out@.map_values(|m: (String, String)| (m.0@, m.1@)) =~= Seq::<(Seq<char>, Seq<char>)>::empty());
    }
    while k < ls.len()
        invariant
            k <= ls.len(),
            lm == ls@.map_values(|w: Vec<char>| w@),
            lm == lines(text@),
            out@.map_values(|m: (String, String)| (m.0@, m.1@)) == merge_text_rules(lm.take(k as int)),
        decreases ls.len() - k,
    {
        proof {
            assert(lm.take(k + 1).drop_last() =~= lm.take(k as int));
            assert(lm.take(k + 1).last() == ls@[k as int]@);
        }
        let parts = split_words(ls[k].as_slice());
        let ghost pm = parts@.map_values(|w: Vec<char>| w@);
        if parts.len() >= 2 && !(parts[0].len() > 0 && parts[0][0] == '#') {
            let a = string_from_chars(parts[0].as_slice());
            let b = string_from_chars(parts[1].as_slice());
            let ghost before = out@;
            out.push((a, b));
            proof {
                assert(pm[0] == parts@[0]@);
                assert(pm[1] == parts@[1]@);
                assert(out@.map_values(|m: (String, String)| (m.0@, m.1@)) =~= before.map_values(
                    |m: (String, String)| (m.0@, m.1@),
                ).push((pm[0], pm[1])));
            }
        } else {
            proof {
                if parts.len() >= 2 {
                    assert(pm[0] == parts@[0]@);
                }
                assert(out@.map_values(|m: (String, String)| (m.0@, m.1@)) == merge_text_rules(lm.take(k + 1)));
            }
        }
        k = k + 1;
    }
    proof {
        assert(lm.take(lm.len() as int) =~= lm);
    }
    out
}

} // verus!
