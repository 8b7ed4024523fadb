//! The tokenizer interface shared by the BPE and WordPiece schemes, their
//! error type, and helpers both use.

use vstd::prelude::*;

use crate::text::{is_white_space, push_char, string_from_chars, trim_end_chars, trim_end_ws};

verus! {

/// A single token id — the integer a model actually consumes.
pub type TokenId = u32;

/// Errors that can occur while tokenizing text or loading a tokenizer.
#[derive(Debug)]
pub enum TokenizerError {
    /// A sub-word is not in the vocabulary and no `<unk>` / `[UNK]` fallback
    /// is configured, or an id is missing from the inverse vocabulary.
    UnknownToken(String),
    /// An I/O error while loading a vocabulary or merge file.
    Io(String),
    /// A vocabulary, merge or configuration file could not be parsed.
    MalformedFile(String),
}

/// A tokenizer that maps text to a sequence of [`TokenId`]s and back.
pub trait Tokenizer {
    /// The ids `text` encodes to, or `None` when some piece of it cannot be
    /// represented.
    spec fn encode_spec(&self, text: Seq<char>) -> Option<Seq<TokenId>>;

    /// The text `ids` decode to, or `None` when some id is unknown.
    spec fn decode_spec(&self, ids: Seq<TokenId>) -> Option<Seq<char>>;

    /// Whether `e` is the error that encoding `text` fails with.
    spec fn encode_error(&self, text: Seq<char>, e: TokenizerError) -> bool;

    /// Encodes `text` into a sequence of token ids.
    fn encode(&self, text: &str) -> (r: Result<Vec<TokenId>, TokenizerError>)
        ensures
            match self.encode_spec(text@) {
                Some(ids) => r matches Ok(v) && v@ == ids,
                None => r matches Err(e) && self.encode_error(text@, e),
            },
    ;

    /// Decodes `ids` back into text.
    fn decode(&self, ids: &[TokenId]) -> (r: Result<String, TokenizerError>)
        ensures
            match self.decode_spec(ids@) {
                Some(t) => r matches Ok(s) && s@ == t,
                None => r is Err,
            },
    ;
}

/// The whitespace-separated words of `s[i..]`, after the words `acc` and the
/// pending word `cur` (std's `split_whitespace`).
pub open spec fn words_from(s: Seq<char>, i: int, cur: Seq<char>, acc: Seq<Seq<char>>) -> Seq<
    Seq<char>,
>
    decreases s.len() - i,
{
    if !(0 <= i < s.len()) {
        if cur.len() > 0 {
            acc.push(cur)
        } else {
            acc
        }
    } else if is_white_space(s[i]) {
        words_from(s, i + 1, Seq::empty(), if cur.len() > 0 { acc.push(cur) } else { acc })
    } else {
        words_from(s, i + 1, cur.push(s[i]), acc)
    }
}

/// The whitespace-separated words of `s`, in order.
pub open spec fn words(s: Seq<char>) -> Seq<Seq<char>> {
    words_from(s, 0, Seq::empty(), Seq::empty())
}

/// Splits `text` into whitespace-delimited words, skipping empties.
pub fn split_words(text: &[char]) -> (out: Vec<Vec<char>>)
    ensures
        out@.map_values(|w: Vec<char>| w@) == words(text@),
{
    let mut out: Vec<Vec<char>> = Vec::new();
    let mut cur: Vec<char> = Vec::new();
    let mut i: usize = 0;
    proof {
        assert(out@.map_values(|w: Vec<char>| w@) =~= Seq::<Seq<char>>::empty());
    }
    while i < text.len()
        invariant
            i <= text.len(),
            words(text@) == words_from(text@, i as int, cur@, out@.map_values(|w: Vec<char>| w@)),
        decreases text.len() - i,
    {
        let c = text[i];
        if crate::text::char_is_whitespace(c) {
            if cur.len() > 0 {
                let ghost before = out@;
                out.push(cur);
                proof {
                    assert(out@.map_values(|w: Vec<char>| w@) =~= before.map_values(
                        |w: Vec<char>| w@,
                    ).push(out@.last()@));
                }
            }
            cur = Vec::new();
        } else {
            cur.push(c);
        }
        i = i + 1;
    }
    if cur.len() > 0 {
        let ghost before = out@;
        out.push(cur);
        proof {
            assert(out@.map_values(|w: Vec<char>| w@) =~= before.map_values(|w: Vec<char>| w@).push(
                out@.last()@,
            ));
        }
    }
    out
}

/// The lines of `s[i..]` (split at `\n`, a final `\r` dropped, no empty
/// final line), after the lines `acc` and the pending line `cur`.
pub open spec fn lines_from(s: Seq<char>, i: int, cur: Seq<char>, acc: Seq<Seq<char>>) -> Seq<
    Seq<char>,
>
    decreases s.len() - i,
{
    if !(0 <= i < s.len()) {
        if cur.len() > 0 {
            acc.push(strip_cr(cur))
        } else {
            acc
        }
    } else if s[i] == '\n' {
        lines_from(s, i + 1, Seq::empty(), acc.push(strip_cr(cur)))
    } else {
        lines_from(s, i + 1, cur.push(s[i]), acc)
    }
}

/// `l` without one trailing `\r`.
pub open spec fn strip_cr(l: Seq<char>) -> Seq<char> {
    if l.len() > 0 && l.last() == '\r' {
        l.drop_last()
    } else {
        l
    }
}

/// The lines of `s` (std's `str::lines`).
pub open spec fn lines(s: Seq<char>) -> Seq<Seq<char>> {
    lines_from(s, 0, Seq::empty(), Seq::empty())
}

/// The lines of `text`.
pub fn split_lines(text: &[char]) -> (out: Vec<Vec<char>>)
    ensures
        out@.map_values(|w: Vec<char>| w@) == lines(text@),
{
    let mut out: Vec<Vec<char>> = Vec::new();
    let mut cur: Vec<char> = Vec::new();
    let mut i: usize = 0;
    proof {
        assert(out@.map_values(|w: Vec<char>| w@) =~= Seq::<Seq<char>>::empty());
    }
    while i < text.len()
        invariant
            i <= text.len(),
            lines(text@) == lines_from(text@, i as int, cur@, out@.map_values(|w: Vec<char>| w@)),
        decreases text.len() - i,
    {
        let c = text[i];
        if c == '\n' {
            let line = strip_cr_vec(cur);
            let ghost before = out@;
            out.push(line);
            proof {
                assert(out@.map_values(|w: Vec<char>| w@) =~= before.map_values(
                    |w: Vec<char>| w@,
                ).push(out@.last()@));
            }
            cur = Vec::new();
        } else {
            cur.push(c);
        }
        i = i + 1;
    }
    if cur.len() > 0 {
        let line = strip_cr_vec(cur);
        let ghost before = out@;
        out.push(line);
        proof {
            assert(out@.map_values(|w: Vec<char>| w@) =~= before.map_values(|w: Vec<char>| w@).push(
                out@.last()@,
            ));
        }
    }
    out
}

fn strip_cr_vec(l: Vec<char>) -> (out: Vec<char>)
    ensures
        out@ == strip_cr(l@),
{
    let mut l = l;
    if l.len() > 0 && l[l.len() - 1] == '\r' {
        l.pop();
    }
    l
}

/// The vocabulary a one-token-per-line file describes: each non-blank line
/// (trailing whitespace removed) maps to its line index, in order; a later
/// duplicate overrides an earlier one.
pub open spec fn vocab_lines_from(ls: Seq<Seq<char>>, i: int) -> Seq<(Seq<char>, TokenId)>
    decreases ls.len() - i,
{
    if !(0 <= i < ls.len()) {
        Seq::empty()
    } else {
        let t = trim_end_ws(ls[i]);
        let rest = vocab_lines_from(ls, i + 1);
        if t.len() == 0 {
            rest
        } else {
            seq![(t, i as TokenId)] + rest
        }
    }
}

/// Parses a one-token-per-line vocabulary (line index = token id), skipping
/// blank lines; entries come in line order.
pub fn parse_vocab_lines(text: &str) -> (out: Vec<(String, TokenId)>)
    ensures
        out@.map_values(|e: (String, TokenId)| (e.0@, e.1)) == vocab_lines_from(
            lines(text@),
            0,
        ),
{
    let cs = crate::text::chars_of(text);
    let ls = split_lines(cs.as_slice());
    let ghost lm = ls@.map_values(|w: Vec<char>| w@);
    let mut out: Vec<(String, TokenId)> = Vec::new();
    let mut k: usize = 0;
    proof {
        assert(out@.map_values(|e: (String, TokenId)| (e.0@, e.1)) =~= Seq::<
            (Seq<char>, TokenId),
        >::empty());
    }
    while k < ls.len()
        invariant
            k <= ls.len(),
            lm == ls@.map_values(|w: Vec<char>| w@),
            lm == lines(text@),
            out@.map_values(|e: (String, TokenId)| (e.0@, e.1)) + vocab_lines_from(lm, k as int)
                == vocab_lines_from(lm, 0),
        decreases ls.len() - k,
    {
        let t = trim_end_chars(ls[k].as_slice());
        let ghost om = out@.map_values(|e: (String, TokenId)| (e.0@, e.1));
        let ghost rest = vocab_lines_from(lm, k + 1);
        if t.len() > 0 {
            out.push((string_from_chars(t.as_slice()), k as TokenId));
            proof {
                assert(out@.map_values(|e: (String, TokenId)| (e.0@, e.1)) =~= om.push(
                    (t@, k as TokenId),
                ));
                assert(om.push((t@, k as TokenId)) + rest =~= om + (seq![(t@, k as TokenId)]
                    + rest));
            }
        }
        k = k + 1;
    }
    proof {
        assert(vocab_lines_from(lm, ls@.len() as int) =~= Seq::<(Seq<char>, TokenId)>::empty());
        assert(out@.map_values(|e: (String, TokenId)| (e.0@, e.1)) + Seq::<
            (Seq<char>, TokenId),
        >::empty() =~= out@.map_values(|e: (String, TokenId)| (e.0@, e.1)));
    }
    out
}

} // verus!
