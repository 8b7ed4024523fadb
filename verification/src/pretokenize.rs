//! Pre-tokenization and the GPT-2 byte-level alphabet.

use vstd::prelude::*;
use vstd::utf8::{decode_utf8, encode_utf8, valid_utf8};

use crate::text::{char_from_u32, char_is_whitespace, is_scalar, is_white_space, push_char, string_from_utf8};

verus! {

/// Bytes that the byte-level alphabet maps to themselves: printable ASCII and
/// most of Latin-1.
pub open spec fn printable_byte(b: int) -> bool {
    (33 <= b <= 126) || (161 <= b <= 172) || (174 <= b <= 255)
}

/// How many bytes below `b` are not printable.
pub open spec fn gap_rank(b: int) -> nat
    decreases b,
{
    if b <= 0 {
        0
    } else {
        gap_rank(b - 1) + if printable_byte(b - 1) {
            0nat
        } else {
            1nat
        }
    }
}

/// The character byte `b` stands for in the byte-level alphabet: itself if
/// printable, else code point 256 plus its rank among the other bytes.
pub open spec fn byte_char(b: u8) -> char {
    if printable_byte(b as int) {
        b as char
    } else {
        (256 + gap_rank(b as int)) as char
    }
}

/// `gap_rank` grows by one exactly at each unprintable byte.
pub proof fn lemma_gap_rank(a: int, b: int)
    requires
        0 <= a <= b,
    ensures
        gap_rank(a) <= gap_rank(b),
        gap_rank(b) <= b,
        a < b && !printable_byte(a) ==> gap_rank(a) < gap_rank(b),
    decreases b - a,
{
    if a < b {
        lemma_gap_rank(a, b - 1);
    } else {
        lemma_gap_rank_le(b);
    }
}

proof fn lemma_gap_rank_le(b: int)
    requires
        0 <= b,
    ensures
        gap_rank(b) <= b,
    decreases b,
{
    if b > 0 {
        lemma_gap_rank_le(b - 1);
    }
}

/// Distinct bytes stand for distinct characters.
pub proof fn lemma_byte_char_injective(a: u8, b: u8)
    ensures
        byte_char(a) == byte_char(b) ==> a == b,
{
    lemma_gap_rank(0, a as int);
    lemma_gap_rank(0, b as int);
    if a < b {
        lemma_gap_rank(a as int, b as int);
    } else if b < a {
        lemma_gap_rank(b as int, a as int);
    }
    if byte_char(a) == byte_char(b) && a != b {
        if printable_byte(a as int) && printable_byte(b as int) {
            assert((a as char) as u32 == a as u32);
        } else if !printable_byte(a as int) && !printable_byte(b as int) {
            assert(((256 + gap_rank(a as int)) as char) as u32 == 256 + gap_rank(a as int));
            assert(((256 + gap_rank(b as int)) as char) as u32 == 256 + gap_rank(b as int));
        } else if printable_byte(a as int) {
            assert((a as char) as u32 == a as u32);
            assert(((256 + gap_rank(b as int)) as char) as u32 == 256 + gap_rank(b as int));
        } else {
            assert((b as char) as u32 == b as u32);
            assert(((256 + gap_rank(a as int)) as char) as u32 == 256 + gap_rank(a as int));
        }
    }
}

/// The GPT-2 byte-to-unicode table: entry `b` is the character byte `b`
/// stands for.
pub fn byte_to_unicode() -> (table: Vec<char>)
    ensures
        table@.len() == 256,
        forall|b: int| 0 <= b < 256 ==> #[trigger] table@[b] == byte_char(b as u8),
{
    let mut table: Vec<char> = Vec::new();
    let mut n: u32 = 0;
    let mut b: u32 = 0;
    while b < 256
        invariant
            b <= 256,
            table@.len() == b,
            n == gap_rank(b as int),
            forall|k: int| 0 <= k < b ==> #[trigger] table@[k] == byte_char(k as u8),
        decreases 256 - b,
    {
        proof {
            lemma_gap_rank(0, b as int);
        }
        let printable = (33 <= b && b <= 126) || (161 <= b && b <= 172) || (174 <= b && b <= 255);
        if printable {
            table.push((b as u8) as char);
        } else {
            let c = match char_from_u32(256 + n) {
                Some(c) => c,
                None => {
                    proof {
                        assert(is_scalar((256 + n) as u32));
                    }
                    ' '
                },
            };
            table.push(c);
            n = n + 1;
        }
        b = b + 1;
    }
    table
}

/// The byte-level form of `s`: each UTF-8 byte as its alphabet character.
pub open spec fn byte_level(s: Seq<char>) -> Seq<char> {
    encode_utf8(s).map_values(|b: u8| byte_char(b))
}

/// The byte a byte-level character stands for, if it is one.
pub open spec fn char_byte(c: char) -> Option<u8> {
    if exists|b: u8| byte_char(b) == c {
        Some(choose|b: u8| byte_char(b) == c)
    } else {
        None
    }
}

/// The bytes a byte-level string stands for, if every character is in the
/// alphabet.
pub open spec fn byte_level_bytes(s: Seq<char>) -> Option<Seq<u8>> {
    if forall|i: int| 0 <= i < s.len() ==> (#[trigger] char_byte(s[i])) is Some {
        Some(s.map_values(|c: char| char_byte(c).unwrap()))
    } else {
        None
    }
}

/// The text a byte-level string encodes, if it is made of alphabet
/// characters whose bytes are valid UTF-8.
pub open spec fn from_byte_level(s: Seq<char>) -> Option<Seq<char>> {
    match byte_level_bytes(s) {
        Some(bytes) => if valid_utf8(bytes) {
            Some(decode_utf8(bytes))
        } else {
            None
        },
        None => None,
    }
}

/// The bytes of `s` (std's `str::as_bytes`).
fn bytes_of(s: &str) -> (b: Vec<u8>)
    ensures
        b@ == encode_utf8(s@),
{
    let bs = s.as_bytes();
    let mut out: Vec<u8> = Vec::new();
    let mut i: usize = 0;
    while i < bs.len()
        invariant
            i <= bs.len(),
            bs@ == encode_utf8(s@),
            out@ == bs@.take(i as int),
        decreases bs.len() - i,
    {
        out.push(bs[i]);
        proof {
            assert(out@ =~= bs@.take(i + 1));
        }
        i = i + 1;
    }
    proof {
        assert(bs@.take(bs@.len() as int) =~= bs@);
    }
    out
}

/// Encodes `text`'s UTF-8 bytes into the byte-level alphabet.
pub fn encode_byte_level(text: &str) -> (out: String)
    ensures
        out@ == byte_level(text@),
{
    let table = byte_to_unicode();
    let bytes = bytes_of(text);
    let mut out = String::new();
    let mut i: usize = 0;
    while i < bytes.len()
        invariant
            i <= bytes.len(),
            table@.len() == 256,
            forall|b: int| 0 <= b < 256 ==> #[trigger] table@[b] == byte_char(b as u8),
            out@ == bytes@.take(i as int).map_values(|b: u8| byte_char(b)),
        decreases bytes.len() - i,
    {
        let b = bytes[i];
        push_char(&mut out, table[b as usize]);
        proof {
            assert(bytes@.take(i + 1).map_values(|b: u8| byte_char(b)) =~= bytes@.take(
                i as int,
            ).map_values(|b: u8| byte_char(b)).push(byte_char(b)));
        }
        i = i + 1;
    }
    proof {
        assert(bytes@.take(bytes@.len() as int) =~= bytes@);
    }
    out
}

/// Decodes a byte-level string back into its text; `None` if a character is
/// outside the alphabet or the bytes are not UTF-8.
pub fn decode_byte_level(text: &[char]) -> (r: Option<String>)
    ensures
        match from_byte_level(text@) {
            Some(t) => r matches Some(s) && s@ == t,
            None => r is None,
        },
{
    let table = byte_to_unicode();
    let mut bytes: Vec<u8> = Vec::new();
    let mut i: usize = 0;
    while i < text.len()
        invariant
            i <= text.len(),
            table@.len() == 256,
            forall|b: int| 0 <= b < 256 ==> #[trigger] table@[b] == byte_char(b as u8),
            bytes@.len() == i,
            forall|k: int| 0 <= k < i ==> (#[trigger] char_byte(text@[k])) == Some(bytes@[k]),
        decreases text.len() - i,
    {
        let ch = text[i];
        let mut j: usize = 0;
        while j < 256 && table[j] != ch
            invariant
                j <= 256,
                table@.len() == 256,
                forall|b: int| 0 <= b < 256 ==> #[trigger] table@[b] == byte_char(b as u8),
                forall|k: int| 0 <= k < j ==> table@[k] != ch,
            decreases 256 - j,
        {
            j = j + 1;
        }
        if j == 256 {
            proof {
                assert forall|b: u8| byte_char(b) != ch by {
                    assert(table@[b as int] == byte_char(b));
                }
                assert(char_byte(text@[i as int]) is None);
            }
            return None;
        }
        proof {
            let b = j as u8;
            assert(byte_char(b) == ch);
            assert forall|x: u8| byte_char(x) == ch implies x == b by {
                lemma_byte_char_injective(x, b);
            }
        }
        bytes.push(j as u8);
        i = i + 1;
    }
    proof {
        assert(text@.map_values(|c: char| char_byte(c).unwrap()) =~= bytes@);
    }
    string_from_utf8(bytes)
}

/// Reading back the byte-level form of any text gives the text.
pub proof fn lemma_byte_level_round_trip(s: Seq<char>)
    ensures
        from_byte_level(byte_level(s)) == Some(s),
{
    let bytes = encode_utf8(s);
    let bl = byte_level(s);
    assert forall|i: int| 0 <= i < bl.len() implies (#[trigger] char_byte(bl[i])) == Some(bytes[i]) by {
        assert(bl[i] == byte_char(bytes[i]));
        assert forall|x: u8| byte_char(x) == bl[i] implies x == bytes[i] by {
            lemma_byte_char_injective(x, bytes[i]);
        }
    }
    assert(bl.map_values(|c: char| char_byte(c).unwrap()) =~= bytes);
    vstd::utf8::encode_utf8_valid_utf8(s);
    vstd::utf8::encode_utf8_decode_utf8(s);
}


/// Whether `c` has the Unicode `Alphabetic` property (std's
/// `char::is_alphabetic`).
pub uninterp spec fn alphabetic(c: char) -> bool;

/// Whether `c` is in a Unicode numeric category (std's `char::is_numeric`).
pub uninterp spec fn numeric(c: char) -> bool;

/// The first character of `c`'s lowercase mapping (std's
/// `char::to_lowercase`, first item).
pub uninterp spec fn lower_first(c: char) -> char;

/// std's `char::is_alphabetic`; ASCII letters are alphabetic and other
/// ASCII characters are not.
#[verifier::external_body]
fn char_is_alphabetic(c: char) -> (b: bool)
    ensures
        b == alphabetic(c),
        (c as u32) < 128 ==> (b <==> (('a' <= c && c <= 'z') || ('A' <= c && c <= 'Z'))),
{
    c.is_alphabetic()
}

/// std's `char::is_numeric`; among ASCII characters exactly the digits are
/// numeric.
#[verifier::external_body]
fn char_is_numeric(c: char) -> (b: bool)
    ensures
        b == numeric(c),
        (c as u32) < 128 ==> (b <==> ('0' <= c && c <= '9')),
{
    c.is_numeric()
}

/// The first character of std's `char::to_lowercase` (or `c` if empty);
/// ASCII upper-case letters map to their lower-case forms and other ASCII
/// characters to themselves.
#[verifier::external_body]
fn char_lower_first(c: char) -> (l: char)
    ensures
        l == lower_first(c),
        ('A' <= c && c <= 'Z') ==> l as u32 == c as u32 + 32,
        (c as u32) < 128 && !('A' <= c && c <= 'Z') ==> l == c,
{
    c.to_lowercase().next().unwrap_or(c)
}

/// The English contractions GPT-2 keeps as tokens.
pub open spec fn contraction(k: int) -> Seq<char> {
    if k == 0 {
        seq!['\'', 's']
    } else if k == 1 {
        seq!['\'', 't']
    } else if k == 2 {
        seq!['\'', 'm']
    } else if k == 3 {
        seq!['\'', 'd']
    } else if k == 4 {
        seq!['\'', 'r', 'e']
    } else if k == 5 {
        seq!['\'', 'v', 'e']
    } else {
        seq!['\'', 'l', 'l']
    }
}

/// The first contraction (in list order) that occurs at `i`.
pub open spec fn contraction_at(s: Seq<char>, i: int) -> Option<Seq<char>> {
    if 0 <= i < s.len() && s[i] == '\'' {
        first_contraction(s, i, 0)
    } else {
        None
    }
}

/// The first contraction from index `k` of the list that occurs at `i`.
pub open spec fn first_contraction(s: Seq<char>, i: int, k: int) -> Option<Seq<char>>
    decreases 7 - k,
{
    if k >= 7 || k < 0 {
        None
    } else {
        let p = contraction(k);
        if i + p.len() <= s.len() && s.subrange(i, i + p.len()) == p {
            Some(p)
        } else {
            first_contraction(s, i, k + 1)
        }
    }
}

/// Character classes used by the GPT-2 splitter.
pub open spec fn in_class(c: char, class: int) -> bool {
    if class == 0 {
        alphabetic(c)
    } else if class == 1 {
        numeric(c)
    } else if class == 2 {
        !is_white_space(c) && !(alphabetic(c) || numeric(c))
    } else {
        is_white_space(c)
    }
}

/// End of the run of `class` characters from `j`.
pub open spec fn run_end(s: Seq<char>, j: int, class: int) -> int
    decreases s.len() - j,
{
    if 0 <= j < s.len() && in_class(s[j], class) {
        run_end(s, j + 1, class)
    } else {
        j
    }
}

/// GPT-2 pre-tokenization of `s[i..]`, after the pieces `acc`: runs of
/// letters, digits, or other non-space characters, each taking one leading
/// space; contractions; and runs of whitespace.
pub open spec fn gpt2_from(s: Seq<char>, i: int, acc: Seq<Seq<char>>) -> Seq<Seq<char>>
    decreases s.len() - i,
{
    if !(0 <= i < s.len()) {
        acc
    } else {
        match contraction_at(s, i) {
            Some(p) => if p.len() > 0 && i + p.len() <= s.len() {
                gpt2_from(s, i + p.len(), acc.push(p))
            } else {
                acc
            },
            None => {
                let lead = s[i] == ' ' && i + 1 < s.len() && !is_white_space(s[i + 1]);
                let j = if lead {
                    i + 1
                } else {
                    i
                };
                let class = if alphabetic(s[j]) {
                    0int
                } else if numeric(s[j]) {
                    1int
                } else if !is_white_space(s[j]) {
                    2int
                } else {
                    3int
                };
                let e = run_end(s, j, class);
                if e <= i || e > s.len() {
                    acc
                } else {
                    gpt2_from(s, e, acc.push(s.subrange(i, e)))
                }
            },
        }
    }
}

/// The GPT-2 pre-tokenization of `s`.
pub open spec fn gpt2_pieces(s: Seq<char>) -> Seq<Seq<char>> {
    gpt2_from(s, 0, Seq::empty())
}

proof fn lemma_first_contraction(s: Seq<char>, i: int, k: int)
    ensures
        first_contraction(s, i, k) matches Some(p) ==> p.len() >= 2 && i + p.len() <= s.len(),
    decreases 7 - k,
{
    if 0 <= k < 7 {
        lemma_first_contraction(s, i, k + 1);
    }
}

fn contraction_exec(k: usize) -> (p: Vec<char>)
    requires
        k < 7,
    ensures
        p@ == contraction(k as int),
{
    let mut p: Vec<char> = Vec::new();
    p.push('\'');
    if k == 0 {
        p.push('s');
    } else if k == 1 {
        p.push('t');
    } else if k == 2 {
        p.push('m');
    } else if k == 3 {
        p.push('d');
    } else if k == 4 {
        p.push('r');
        p.push('e');
    } else if k == 5 {
        p.push('v');
        p.push('e');
    } else {
        p.push('l');
        p.push('l');
    }
    proof {
        assert(p@ =~= contraction(k as int));
    }
    p
}

fn matches_at(s: &Vec<char>, i: usize, p: &Vec<char>) -> (b: bool)
    requires
        i <= s.len(),
    ensures
        b == (i + p@.len() <= s@.len() && s@.subrange(i as int, i + p@.len()) == p@),
{
    if s.len() - i < p.len() {
        return false;
    }
    let mut k: usize = 0;
    while k < p.len()
        invariant
            k <= p.len(),
            i + p.len() <= s.len(),
            forall|j: int| 0 <= j < k ==> s@[i + j] == p@[j],
        decreases p.len() - k,
    {
        if s[i + k] != p[k] {
            proof {
                assert(s@.subrange(i as int, i + p@.len())[k as int] != p@[k as int]);
            }
            return false;
        }
        k = k + 1;
    }
    proof {
        assert(s@.subrange(i as int, i + p@.len()) =~= p@);
    }
    true
}

fn contraction_at_exec(s: &Vec<char>, i: usize) -> (r: Option<Vec<char>>)
    requires
        i < s.len(),
    ensures
        match contraction_at(s@, i as int) {
            Some(p) => r matches Some(x) && x@ == p,
            None => r is None,
        },
{
    if s[i] != '\'' {
        return None;
    }
    let mut k: usize = 0;
    while k < 7
        invariant
            k <= 7,
            i < s.len(),
            s@[i as int] == '\'',
            contraction_at(s@, i as int) == first_contraction(s@, i as int, k as int),
        decreases 7 - k,
    {
        let p = contraction_exec(k);
        if matches_at(s, i, &p) {
            return Some(p);
        }
        k = k + 1;
    }
    None
}

fn in_class_exec(c: char, class: u8) -> (b: bool)
    requires
        class <= 3,
    ensures
        b == in_class(c, class as int),
{
    if class == 0 {
        char_is_alphabetic(c)
    } else if class == 1 {
        char_is_numeric(c)
    } else if class == 2 {
        !char_is_whitespace(c) && !(char_is_alphabetic(c) || char_is_numeric(c))
    } else {
        char_is_whitespace(c)
    }
}

/// GPT-2 style pre-tokenization without a regex engine: runs of letters,
/// digits, and other non-space characters, each with at most one leading
/// space; the common English contractions; and runs of whitespace.
pub fn gpt2_split(text: &str) -> (out: Vec<String>)
    ensures
        out@.map_values(|t: String| t@) == gpt2_pieces(text@),
{
    let s = crate::text::chars_of(text);
    let n = s.len();
    let mut tokens: Vec<String> = Vec::new();
    let mut i: usize = 0;
    proof {
        assert(tokens@.map_values(|t: String| t@) =~= Seq::<Seq<char>>::empty());
    }
    while i < n
        invariant
            i <= n,
            n == s.len(),
            s@ == text@,
            gpt2_pieces(s@) == gpt2_from(s@, i as int, tokens@.map_values(|t: String| t@)),
        decreases n - i,
    {
        let ghost tm = tokens@.map_values(|t: String| t@);
        if let Some(p) = contraction_at_exec(&s, i) {
            let len = p.len();
            let t = crate::text::string_from_chars(p.as_slice());
            tokens.push(t);
            proof {
                assert(tokens@.map_values(|t: String| t@) =~= tm.push(p@));
                lemma_first_contraction(s@, i as int, 0);
            }
            i = i + len;
        } else {
            let lead = s[i] == ' ' && i + 1 < n && !char_is_whitespace(s[i + 1]);
            let j = if lead {
                i + 1
            } else {
                i
            };
            let class: u8 = if char_is_alphabetic(s[j]) {
                0
            } else if char_is_numeric(s[j]) {
                1
            } else if !char_is_whitespace(s[j]) {
                2
            } else {
                3
            };
            let mut e = j;
            while e < n && in_class_exec(s[e], class)
                invariant
                    j <= e <= n,
                    n == s.len(),
                    class <= 3,
                    run_end(s@, j as int, class as int) == run_end(s@, e as int, class as int),
                decreases n - e,
            {
                e = e + 1;
            }
            proof {
                assert(in_class(s@[j as int], class as int));
            }
            let piece = crate::text::slice_chars(s.as_slice(), i, e);
            tokens.push(crate::text::string_from_chars(piece.as_slice()));
            proof {
                assert(tokens@.map_values(|t: String| t@) =~= tm.push(s@.subrange(i as int, e as int)));
            }
            i = e;
        }
    }
    tokens
}

/// ASCII punctuation, as BERT's basic tokenizer isolates it.
pub open spec fn is_punctuation(c: char) -> bool {
    let v = c as u32;
    (0x21 <= v <= 0x2F) || (0x3A <= v <= 0x40) || (0x5B <= v <= 0x60) || (0x7B <= v <= 0x7E)
}

/// The CJK unified-ideograph ranges BERT isolates.
pub open spec fn is_cjk(c: char) -> bool {
    let v = c as u32;
    (0x4E00 <= v <= 0x9FFF) || (0x3400 <= v <= 0x4DBF) || (0x20000 <= v <= 0x2A6DF) || (0x2A700
        <= v <= 0x2B73F) || (0xF900 <= v <= 0xFAFF)
}

fn is_punctuation_exec(c: char) -> (b: bool)
    ensures
        b == is_punctuation(c),
{
    let v = c as u32;
    (0x21 <= v && v <= 0x2F) || (0x3A <= v && v <= 0x40) || (0x5B <= v && v <= 0x60) || (0x7B <= v
        && v <= 0x7E)
}

fn is_cjk_exec(c: char) -> (b: bool)
    ensures
        b == is_cjk(c),
{
    let v = c as u32;
    (0x4E00 <= v && v <= 0x9FFF) || (0x3400 <= v && v <= 0x4DBF) || (0x20000 <= v && v <= 0x2A6DF)
        || (0x2A700 <= v && v <= 0x2B73F) || (0xF900 <= v && v <= 0xFAFF)
}

/// `out` with `cur` appended unless it is empty.
pub open spec fn flush(out: Seq<Seq<char>>, cur: Seq<char>) -> Seq<Seq<char>> {
    if cur.len() > 0 {
        out.push(cur)
    } else {
        out
    }
}

/// BERT's basic tokenization of `s[i..]` after the tokens `out` and the
/// pending word `cur`.
pub open spec fn bert_from(s: Seq<char>, i: int, lowercase: bool, cur: Seq<char>, out: Seq<
    Seq<char>,
>) -> Seq<Seq<char>>
    decreases s.len() - i,
{
    if !(0 <= i < s.len()) {
        flush(out, cur)
    } else if is_white_space(s[i]) {
        bert_from(s, i + 1, lowercase, Seq::empty(), flush(out, cur))
    } else {
        let c = if lowercase {
            lower_first(s[i])
        } else {
            s[i]
        };
        if is_punctuation(c) || is_cjk(c) {
            bert_from(s, i + 1, lowercase, Seq::empty(), flush(out, cur).push(seq![c]))
        } else {
            bert_from(s, i + 1, lowercase, cur.push(c), out)
        }
    }
}

/// BERT's basic tokenization of `s`: split on whitespace, isolate
/// punctuation and CJK characters, optionally lowercase.
pub open spec fn bert_words(s: Seq<char>, lowercase: bool) -> Seq<Seq<char>> {
    bert_from(s, 0, lowercase, Seq::empty(), Seq::empty())
}

/// Every character of `s` replaced by the first character of its lowercase
/// mapping.
pub open spec fn lowered(s: Seq<char>) -> Seq<char> {
    s.map_values(|c: char| lower_first(c))
}

/// Lowercasing keeps whitespace and non-whitespace apart on `s`.
pub open spec fn lowering_keeps_spaces(s: Seq<char>) -> bool {
    forall|i: int| 0 <= i < s.len() ==> is_white_space(lower_first(#[trigger] s[i])) == is_white_space(s[i])
}

proof fn lemma_bert_from_lowered(s: Seq<char>, i: int, cur: Seq<char>, out: Seq<Seq<char>>)
    requires
        0 <= i,
        lowering_keeps_spaces(s),
    ensures
        bert_from(s, i, true, cur, out) == bert_from(lowered(s), i, false, cur, out),
    decreases s.len() - i,
{
    let ls = lowered(s);
    if i < s.len() {
        assert(ls[i] == lower_first(s[i]));
        assert(is_white_space(lower_first(s[i])) == is_white_space(s[i]));
        let c = lower_first(s[i]);
        if is_white_space(s[i]) {
            lemma_bert_from_lowered(s, i + 1, Seq::empty(), flush(out, cur));
        } else if is_punctuation(c) || is_cjk(c) {
            lemma_bert_from_lowered(s, i + 1, Seq::empty(), flush(out, cur).push(seq![c]));
        } else {
            lemma_bert_from_lowered(s, i + 1, cur.push(c), out);
        }
    }
}

/// Lowercasing inside BERT's basic tokenization is the same as lowercasing
/// the text first, on text whose whitespace lowercasing keeps apart.
pub proof fn lemma_bert_words_lowered(s: Seq<char>)
    requires
        lowering_keeps_spaces(s),
    ensures
        bert_words(s, true) == bert_words(lowered(s), false),
{
    lemma_bert_from_lowered(s, 0, Seq::empty(), Seq::empty());
}

fn flush_exec(out: &mut Vec<Vec<char>>, cur: Vec<char>)
    ensures
        final(out)@.map_values(|w: Vec<char>| w@) == flush(old(out)@.map_values(|w: Vec<char>| w@), cur@),
{
    if cur.len() > 0 {
        let ghost before = out@;
        out.push(cur);
        proof {
            assert(out@.map_values(|w: Vec<char>| w@) =~= before.map_values(|w: Vec<char>| w@).push(
                cur@,
            ));
        }
    }
}

/// BERT "basic tokenizer": splits on whitespace and punctuation, isolates
/// CJK characters, and optionally lowercases.
pub fn bert_basic(text: &[char], lowercase: bool) -> (out: Vec<Vec<char>>)
    ensures
        out@.map_values(|w: Vec<char>| w@) == bert_words(text@, lowercase),
{
    let mut out: Vec<Vec<char>> = Vec::new();
    let mut cur: Vec<char> = Vec::new();
    let mut i: usize = 0;
    proof {
        assert(out@.map_values(|w: Vec<char>| w@) =~= Seq::<Seq<char>>::empty());
    }
    while i < text.len()
        invariant
            i <= text.len(),
            bert_words(text@, lowercase) == bert_from(
                text@,
                i as int,
                lowercase,
                cur@,
                out@.map_values(|w: Vec<char>| w@),
            ),
        decreases text.len() - i,
    {
        let ch = text[i];
        if char_is_whitespace(ch) {
            flush_exec(&mut out, cur);
            cur = Vec::new();
        } else {
            let c = if lowercase {
                char_lower_first(ch)
            } else {
                ch
            };
            if is_punctuation_exec(c) || is_cjk_exec(c) {
                flush_exec(&mut out, cur);
                cur = Vec::new();
                let mut single: Vec<char> = Vec::new();
                single.push(c);
                let ghost before = out@;
                out.push(single);
                proof {
                    assert(single@ =~= seq![c]);
                    assert(out@.map_values(|w: Vec<char>| w@) =~= before.map_values(
                        |w: Vec<char>| w@,
                    ).push(seq![c]));
                }
            } else {
                cur.push(c);
            }
        }
        i = i + 1;
    }
    flush_exec(&mut out, cur);
    out
}

} // verus!
