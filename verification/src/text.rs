//! Character-level helpers shared by the text-processing modules.

use vstd::prelude::*;
use vstd::utf8::{decode_utf8, valid_utf8};

verus! {

/// Appends `c` to `s` (std's `String::push`).
#[verifier::external_body]
pub(crate) fn push_char(s: &mut String, c: char)
    ensures
        final(s)@ == old(s)@.push(c),
{
    s.push(c);
}

/// Appends every character of `t` to `s` (std's `String::push_str`).
#[verifier::external_body]
pub(crate) fn push_str(s: &mut String, t: &str)
    ensures
        final(s)@ == old(s)@ + t@,
{
    s.push_str(t);
}

/// The characters of `s`, in order.
pub fn chars_of(s: &str) -> (out: Vec<char>)
    ensures
        out@ == s@,
{
    let mut out: Vec<char> = Vec::new();
    for c in it: s.chars()
        invariant
            out@ == it.seq().take(it.index() as int),
            it.seq() == s@,
    {
        out.push(c);
    }
    out
}

/// Builds a string from a slice of characters.
pub fn string_from_chars(cs: &[char]) -> (out: String)
    ensures
        out@ == cs@,
{
    let mut out = String::new();
    let mut i: usize = 0;
    while i < cs.len()
        invariant
            i <= cs.len(),
            out@ == cs@.take(i as int),
        decreases cs.len() - i,
    {
        push_char(&mut out, cs[i]);
        proof {
            assert(cs@.take(i as int).push(cs@[i as int]) =~= cs@.take(i + 1));
        }
        i = i + 1;
    }
    proof {
        assert(cs@.take(cs@.len() as int) =~= cs@);
    }
    out
}

} // verus!

verus! {

/// The decimal digit character for `d < 10`.
pub open spec fn digit_char(d: nat) -> char {
    ((d + 48) as u8) as char
}

/// Decimal rendering of `n` without leading zeros.
pub open spec fn decimal(n: nat) -> Seq<char>
    decreases n,
{
    if n < 10 {
        seq![digit_char(n)]
    } else {
        decimal(n / 10).push(digit_char(n % 10))
    }
}

/// Appends the decimal rendering of `n` to `s`.
pub fn push_decimal(s: &mut String, n: u64)
    ensures
        final(s)@ == old(s)@ + decimal(n as nat),
    decreases n,
{
    if n >= 10 {
        push_decimal(s, n / 10);
    }
    let d = (n % 10) as u8;
    push_char(s, (d + 48) as char);
    proof {
        if n >= 10 {
            assert(old(s)@ + decimal(n as nat) =~= old(s)@ + decimal((n / 10) as nat) + seq![
                digit_char((n % 10) as nat),
            ]);
        }
    }
}

/// Lower-case hexadecimal digit for `d < 16`.
pub open spec fn hex_digit(d: nat) -> char {
    if d < 10 {
        ((d + 48) as u8) as char
    } else {
        ((d + 87) as u8) as char
    }
}

/// Two lower-case hex digits per byte, most significant nibble first.
pub open spec fn hex_lower(bytes: Seq<u8>) -> Seq<char>
    decreases bytes.len(),
{
    if bytes.len() == 0 {
        Seq::empty()
    } else {
        hex_lower(bytes.drop_last()) + seq![
            hex_digit((bytes.last() / 16) as nat),
            hex_digit((bytes.last() % 16) as nat),
        ]
    }
}

fn hex_char(d: u8) -> (c: char)
    requires
        d < 16,
    ensures
        c == hex_digit(d as nat),
{
    if d < 10 {
        (d + 48) as char
    } else {
        (d + 87) as char
    }
}

/// Encodes `bytes` as lower-case hexadecimal text.
pub fn hex_encode(bytes: &[u8]) -> (s: String)
    ensures
        s@ == hex_lower(bytes@),
{
    let mut s = String::new();
    let mut i: usize = 0;
    while i < bytes.len()
        invariant
            i <= bytes.len(),
            s@ == hex_lower(bytes@.take(i as int)),
        decreases bytes.len() - i,
    {
        let b = bytes[i];
        push_char(&mut s, hex_char(b / 16));
        push_char(&mut s, hex_char(b % 16));
        proof {
            assert(bytes@.take(i + 1).drop_last() =~= bytes@.take(i as int));
            assert(s@ =~= hex_lower(bytes@.take(i + 1)));
        }
        i = i + 1;
    }
    proof {
        assert(bytes@.take(bytes@.len() as int) =~= bytes@);
    }
    s
}

/// ASCII hexadecimal digits (either case).
pub open spec fn is_hex_char(c: char) -> bool {
    ('0' <= c && c <= '9') || ('a' <= c && c <= 'f') || ('A' <= c && c <= 'F')
}

/// Index of the first character of `s` that is not `c` (or `s.len()`).
pub open spec fn first_not(s: Seq<char>, c: char, from: int) -> int
    decreases s.len() - from,
{
    if from >= s.len() || s[from] != c {
        from
    } else {
        first_not(s, c, from + 1)
    }
}

/// Index just past the last character of `s[lo..]` that is not `c` (or `lo`).
pub open spec fn last_not(s: Seq<char>, c: char, lo: int, hi: int) -> int
    decreases hi - lo,
{
    if hi <= lo || s[hi - 1] != c {
        hi
    } else {
        last_not(s, c, lo, hi - 1)
    }
}

/// `s` with every leading and trailing `c` removed (std's `trim_matches`).
pub open spec fn trim_char(s: Seq<char>, c: char) -> Seq<char> {
    let lo = first_not(s, c, 0);
    let hi = last_not(s, c, lo, s.len() as int);
    s.subrange(lo, hi)
}

proof fn lemma_first_not_bounds(s: Seq<char>, c: char, from: int)
    requires
        0 <= from <= s.len(),
    ensures
        from <= first_not(s, c, from) <= s.len(),
    decreases s.len() - from,
{
    if from < s.len() && s[from] == c {
        lemma_first_not_bounds(s, c, from + 1);
    }
}

proof fn lemma_last_not_bounds(s: Seq<char>, c: char, lo: int, hi: int)
    requires
        0 <= lo <= hi <= s.len(),
    ensures
        lo <= last_not(s, c, lo, hi) <= hi,
    decreases hi - lo,
{
    if lo < hi && s[hi - 1] == c {
        lemma_last_not_bounds(s, c, lo, hi - 1);
    }
}

/// Removes every leading and trailing `c` from `s`.
pub fn trim_char_vec(s: &[char], c: char) -> (out: Vec<char>)
    ensures
        out@ == trim_char(s@, c),
{
    let mut lo: usize = 0;
    while lo < s.len() && s[lo] == c
        invariant
            lo <= s.len(),
            first_not(s@, c, 0) == first_not(s@, c, lo as int),
        decreases s.len() - lo,
    {
        lo = lo + 1;
    }
    let mut hi: usize = s.len();
    while hi > lo && s[hi - 1] == c
        invariant
            lo <= hi <= s.len(),
            last_not(s@, c, lo as int, s@.len() as int) == last_not(s@, c, lo as int, hi as int),
        decreases hi - lo,
    {
        hi = hi - 1;
    }
    let mut out: Vec<char> = Vec::new();
    let mut k: usize = lo;
    while k < hi
        invariant
            lo <= k <= hi <= s.len(),
            out@ == s@.subrange(lo as int, k as int),
        decreases hi - k,
    {
        out.push(s[k]);
        proof {
            assert(out@ =~= s@.subrange(lo as int, k + 1));
        }
        k = k + 1;
    }
    out
}

} // verus!

verus! {

/// A Unicode scalar value: a code point that is not a surrogate.
pub open spec fn is_scalar(i: u32) -> bool {
    i <= 0x10FFFF && !(0xD800 <= i && i <= 0xDFFF)
}

/// The character with code point `i`, if `i` is a Unicode scalar value
/// (std's `char::from_u32`).
#[verifier::external_body]
pub(crate) fn char_from_u32(i: u32) -> (r: Option<char>)
    ensures
        is_scalar(i) ==> r == Some(i as char),
        !is_scalar(i) ==> r is None,
{
    char::from_u32(i)
}

/// One step of the automaton that recognises the decimal literals accepted
/// by std's `f64` parser: an optional sign, digits with at most one `.`
/// (at least one digit), then an optional exponent `e`/`E`, optional sign and
/// at least one digit. State 9 rejects.
pub open spec fn float_step(st: nat, c: char) -> nat {
    let digit = '0' <= c && c <= '9';
    let sign = c == '+' || c == '-';
    let exp = c == 'e' || c == 'E';
    if st == 0 {
        if sign { 1 } else if digit { 2 } else if c == '.' { 4 } else { 9 }
    } else if st == 1 {
        if digit { 2 } else if c == '.' { 4 } else { 9 }
    } else if st == 2 {
        if digit { 2 } else if c == '.' { 3 } else if exp { 6 } else { 9 }
    } else if st == 3 {
        if digit { 5 } else if exp { 6 } else { 9 }
    } else if st == 4 {
        if digit { 5 } else { 9 }
    } else if st == 5 {
        if digit { 5 } else if exp { 6 } else { 9 }
    } else if st == 6 {
        if sign { 7 } else if digit { 8 } else { 9 }
    } else if st == 7 {
        if digit { 8 } else { 9 }
    } else if st == 8 {
        if digit { 8 } else { 9 }
    } else {
        9
    }
}

/// The automaton's state after reading `t`.
pub open spec fn float_run(t: Seq<char>) -> nat
    decreases t.len(),
{
    if t.len() == 0 {
        0
    } else {
        float_step(float_run(t.drop_last()), t.last())
    }
}

/// `t` is a decimal floating-point literal that std's `f64` parser accepts.
pub open spec fn float_literal(t: Seq<char>) -> bool {
    let st = float_run(t);
    st == 2 || st == 3 || st == 5 || st == 8
}

fn float_step_exec(st: u8, c: char) -> (r: u8)
    requires
        st <= 9,
    ensures
        r as nat == float_step(st as nat, c),
        r <= 9,
{
    let digit = '0' <= c && c <= '9';
    let sign = c == '+' || c == '-';
    let exp = c == 'e' || c == 'E';
    if st == 0 {
        if sign { 1 } else if digit { 2 } else if c == '.' { 4 } else { 9 }
    } else if st == 1 {
        if digit { 2 } else if c == '.' { 4 } else { 9 }
    } else if st == 2 {
        if digit { 2 } else if c == '.' { 3 } else if exp { 6 } else { 9 }
    } else if st == 3 {
        if digit { 5 } else if exp { 6 } else { 9 }
    } else if st == 4 {
        if digit { 5 } else { 9 }
    } else if st == 5 {
        if digit { 5 } else if exp { 6 } else { 9 }
    } else if st == 6 {
        if sign { 7 } else if digit { 8 } else { 9 }
    } else if st == 7 {
        if digit { 8 } else { 9 }
    } else if st == 8 {
        if digit { 8 } else { 9 }
    } else {
        9
    }
}

/// Whether `t[lo..hi]` is a decimal floating-point literal.
pub fn is_float_literal(t: &[char], lo: usize, hi: usize) -> (b: bool)
    requires
        lo <= hi <= t.len(),
    ensures
        b == float_literal(t@.subrange(lo as int, hi as int)),
{
    let mut st: u8 = 0;
    let mut i: usize = lo;
    while i < hi
        invariant
            lo <= i <= hi <= t.len(),
            st <= 9,
            st as nat == float_run(t@.subrange(lo as int, i as int)),
        decreases hi - i,
    {
        proof {
            assert(t@.subrange(lo as int, i + 1).drop_last() =~= t@.subrange(lo as int, i as int));
        }
        st = float_step_exec(st, t[i]);
        i = i + 1;
    }
    st == 2 || st == 3 || st == 5 || st == 8
}

} // verus!

verus! {

/// Unicode `White_Space` characters (std's `char::is_whitespace`).
pub open spec fn is_white_space(c: char) -> bool {
    ('\t' <= c && c <= '\r') || c == ' ' || c == '\u{85}' || c == '\u{a0}' || c == '\u{1680}' || (
    '\u{2000}' <= c && c <= '\u{200a}') || c == '\u{2028}' || c == '\u{2029}' || c == '\u{202f}'
        || c == '\u{205f}' || c == '\u{3000}'
}

/// Whether `c` is Unicode whitespace.
pub fn char_is_whitespace(c: char) -> (b: bool)
    ensures
        b == is_white_space(c),
{
    ('\t' <= c && c <= '\r') || c == ' ' || c == '\u{85}' || c == '\u{a0}' || c == '\u{1680}' || (
    '\u{2000}' <= c && c <= '\u{200a}') || c == '\u{2028}' || c == '\u{2029}' || c == '\u{202f}'
        || c == '\u{205f}' || c == '\u{3000}'
}

/// Index of the first non-whitespace character of `s` at or after `i`.
pub open spec fn ws_skip(s: Seq<char>, i: int) -> int
    decreases s.len() - i,
{
    if 0 <= i < s.len() && is_white_space(s[i]) {
        ws_skip(s, i + 1)
    } else {
        i
    }
}

/// Index just past the last non-whitespace character of `s[lo..hi]`
/// (or `lo`).
pub open spec fn ws_back(s: Seq<char>, lo: int, hi: int) -> int
    decreases hi - lo,
{
    if lo < hi && is_white_space(s[hi - 1]) {
        ws_back(s, lo, hi - 1)
    } else {
        hi
    }
}

/// `s` without leading and trailing whitespace (std's `str::trim`).
pub open spec fn trim_ws(s: Seq<char>) -> Seq<char> {
    let lo = ws_skip(s, 0);
    s.subrange(lo, ws_back(s, lo, s.len() as int))
}

/// `s` without trailing whitespace (std's `str::trim_end`).
pub open spec fn trim_end_ws(s: Seq<char>) -> Seq<char> {
    s.subrange(0, ws_back(s, 0, s.len() as int))
}

/// `ws_skip` stays within `s`.
pub proof fn lemma_ws_skip_bounds(s: Seq<char>, i: int)
    requires
        0 <= i <= s.len(),
    ensures
        i <= ws_skip(s, i) <= s.len(),
    decreases s.len() - i,
{
    if i < s.len() && is_white_space(s[i]) {
        lemma_ws_skip_bounds(s, i + 1);
    }
}

/// `ws_back` stays within `[lo, hi]`.
pub proof fn lemma_ws_back_bounds(s: Seq<char>, lo: int, hi: int)
    requires
        lo <= hi,
    ensures
        lo <= ws_back(s, lo, hi) <= hi,
    decreases hi - lo,
{
    if lo < hi && is_white_space(s[hi - 1]) {
        lemma_ws_back_bounds(s, lo, hi - 1);
    }
}

/// The characters `s[lo..hi]`.
pub fn slice_chars(s: &[char], lo: usize, hi: usize) -> (out: Vec<char>)
    requires
        lo <= hi <= s.len(),
    ensures
        out@ == s@.subrange(lo as int, hi as int),
{
    let mut out: Vec<char> = Vec::new();
    let mut k: usize = lo;
    while k < hi
        invariant
            lo <= k <= hi <= s.len(),
            out@ == s@.subrange(lo as int, k as int),
        decreases hi - k,
    {
        out.push(s[k]);
        proof {
            assert(out@ =~= s@.subrange(lo as int, k + 1));
        }
        k = k + 1;
    }
    out
}

/// `s` without leading and trailing whitespace.
pub fn trim_chars(s: &[char]) -> (out: Vec<char>)
    ensures
        out@ == trim_ws(s@),
{
    let mut lo: usize = 0;
    while lo < s.len() && char_is_whitespace(s[lo])
        invariant
            lo <= s.len(),
            ws_skip(s@, 0) == ws_skip(s@, lo as int),
        decreases s.len() - lo,
    {
        lo = lo + 1;
    }
    let mut hi: usize = s.len();
    while hi > lo && char_is_whitespace(s[hi - 1])
        invariant
            lo <= hi <= s.len(),
            lo == ws_skip(s@, 0),
            ws_back(s@, lo as int, s@.len() as int) == ws_back(s@, lo as int, hi as int),
        decreases hi - lo,
    {
        hi = hi - 1;
    }
    slice_chars(s, lo, hi)
}

/// `s` without trailing whitespace.
pub fn trim_end_chars(s: &[char]) -> (out: Vec<char>)
    ensures
        out@ == trim_end_ws(s@),
{
    let mut hi: usize = s.len();
    while hi > 0 && char_is_whitespace(s[hi - 1])
        invariant
            hi <= s.len(),
            ws_back(s@, 0, s@.len() as int) == ws_back(s@, 0, hi as int),
        decreases hi,
    {
        hi = hi - 1;
    }
    slice_chars(s, 0, hi)
}

/// Number of bytes in the UTF-8 encoding of `c`.
pub open spec fn utf8_len(c: char) -> nat {
    if (c as u32) < 0x80 {
        1
    } else if (c as u32) < 0x800 {
        2
    } else if (c as u32) < 0x10000 {
        3
    } else {
        4
    }
}

/// Number of bytes in the UTF-8 encoding of `s`.
pub open spec fn byte_len(s: Seq<char>) -> nat
    decreases s.len(),
{
    if s.len() == 0 {
        0
    } else {
        byte_len(s.drop_last()) + utf8_len(s.last())
    }
}

/// Number of bytes in the UTF-8 encoding of `c` (std's `char::len_utf8`).
pub fn char_utf8_len(c: char) -> (n: usize)
    ensures
        n == utf8_len(c),
{
    let v = c as u32;
    if v < 0x80 {
        1
    } else if v < 0x800 {
        2
    } else if v < 0x10000 {
        3
    } else {
        4
    }
}

/// The text of `bytes`, if they are UTF-8 (std's `String::from_utf8`).
#[verifier::external_body]
pub(crate) fn string_from_utf8(bytes: Vec<u8>) -> (r: Option<String>)
    ensures
        r is Some <==> valid_utf8(bytes@),
        r matches Some(s) ==> s@ == decode_utf8(bytes@),
{
    String::from_utf8(bytes).ok()
}

} // verus!
