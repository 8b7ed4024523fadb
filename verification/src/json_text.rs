//! Reading JSON text into a [`JsonValue`] tree.
//!
//! The grammar is RFC 8259's: objects, arrays, strings with `\uXXXX` escapes
//! and surrogate pairs, numbers, booleans and `null`, separated by optional
//! whitespace. Numbers keep their text, which must be a literal that std's
//! `f64` parser accepts. Object members keep their order.

use vstd::prelude::*;

use crate::json::{array_model, lemma_array_model, lemma_members_model, members_model, Json, JsonValue};
use crate::text::{char_from_u32, chars_of, decimal, float_literal, is_float_literal, is_scalar, push_char, push_decimal, push_str};

verus! {

/// JSON insignificant whitespace.
pub open spec fn is_json_ws(c: char) -> bool {
    c == ' ' || c == '\t' || c == '\n' || c == '\r'
}

/// `s[p]` exists and is `c`.
pub open spec fn at(s: Seq<char>, p: int, c: char) -> bool {
    0 <= p < s.len() && s[p] == c
}

/// The first position at or after `p` that is not whitespace.
pub open spec fn ws_end(s: Seq<char>, p: int) -> int
    decreases s.len() - p,
{
    if 0 <= p < s.len() && is_json_ws(s[p]) {
        ws_end(s, p + 1)
    } else {
        p
    }
}

/// The value of a hexadecimal digit.
pub open spec fn hex_val(c: char) -> Option<u32> {
    if '0' <= c && c <= '9' {
        Some((c as u32 - '0' as u32) as u32)
    } else if 'a' <= c && c <= 'f' {
        Some((c as u32 - 'a' as u32 + 10) as u32)
    } else if 'A' <= c && c <= 'F' {
        Some((c as u32 - 'A' as u32 + 10) as u32)
    } else {
        None
    }
}

/// The four hex digits at `p`, as a number.
pub open spec fn hex4(s: Seq<char>, p: int) -> Option<u32> {
    if 0 <= p && p + 4 <= s.len() {
        match (hex_val(s[p]), hex_val(s[p + 1]), hex_val(s[p + 2]), hex_val(s[p + 3])) {
            (Some(a), Some(b), Some(c), Some(d)) => Some(
                (a * 4096 + b * 256 + c * 16 + d) as u32,
            ),
            _ => None,
        }
    } else {
        None
    }
}

/// The character a surrogate pair stands for.
pub open spec fn surrogate_pair(hi: u32, lo: u32) -> char {
    (0x10000 + (hi - 0xD800) * 1024 + (lo - 0xDC00)) as char
}

/// The rest of a string literal from `p` (just after the opening quote or
/// after what `acc` already decoded): its text and the position just past
/// the closing quote.
pub open spec fn string_body(s: Seq<char>, p: int, acc: Seq<char>) -> Option<(Seq<char>, int)>
    decreases s.len() - p,
{
    if !(0 <= p < s.len()) {
        None
    } else if s[p] == '"' {
        Some((acc, p + 1))
    } else if s[p] != '\\' {
        string_body(s, p + 1, acc.push(s[p]))
    } else if p + 1 >= s.len() {
        None
    } else {
        let e = s[p + 1];
        if e == '"' || e == '\\' || e == '/' {
            string_body(s, p + 2, acc.push(e))
        } else if e == 'b' {
            string_body(s, p + 2, acc.push('\u{8}'))
        } else if e == 'f' {
            string_body(s, p + 2, acc.push('\u{c}'))
        } else if e == 'n' {
            string_body(s, p + 2, acc.push('\n'))
        } else if e == 'r' {
            string_body(s, p + 2, acc.push('\r'))
        } else if e == 't' {
            string_body(s, p + 2, acc.push('\t'))
        } else if e == 'u' {
            match hex4(s, p + 2) {
                None => None,
                Some(cp) => if 0xD800 <= cp && cp <= 0xDBFF {
                    if at(s, p + 6, '\\') && at(s, p + 7, 'u') {
                        match hex4(s, p + 8) {
                            Some(lo) => if 0xDC00 <= lo && lo <= 0xDFFF {
                                string_body(s, p + 12, acc.push(surrogate_pair(cp, lo)))
                            } else {
                                None
                            },
                            None => None,
                        }
                    } else {
                        None
                    }
                } else if is_scalar(cp) {
                    string_body(s, p + 6, acc.push(cp as char))
                } else {
                    None
                },
            }
        } else {
            None
        }
    }
}

/// Characters that may continue a number literal.
pub open spec fn is_num_char(c: char) -> bool {
    ('0' <= c && c <= '9') || c == '.' || c == 'e' || c == 'E' || c == '+' || c == '-'
}

/// The end of the run of number characters starting at `p`.
pub open spec fn num_end(s: Seq<char>, p: int) -> int
    decreases s.len() - p,
{
    if 0 <= p < s.len() && is_num_char(s[p]) {
        num_end(s, p + 1)
    } else {
        p
    }
}

/// `lit` occurs at `p`.
pub open spec fn has_literal(s: Seq<char>, p: int, lit: Seq<char>) -> bool {
    0 <= p && p + lit.len() <= s.len() && s.subrange(p, p + lit.len()) == lit
}

/// A scalar (non-container) value starting at `q`.
pub open spec fn scalar_value(s: Seq<char>, q: int) -> Option<(Json, int)> {
    let c = s[q];
    if c == '"' {
        match string_body(s, q + 1, Seq::empty()) {
            Some((t, e)) => Some((Json::Str(t), e)),
            None => None,
        }
    } else if c == 't' || c == 'f' {
        if has_literal(s, q, "true"@) {
            Some((Json::Bool(true), q + 4))
        } else if has_literal(s, q, "false"@) {
            Some((Json::Bool(false), q + 5))
        } else {
            None
        }
    } else if c == 'n' {
        if has_literal(s, q, "null"@) {
            Some((Json::Null, q + 4))
        } else {
            None
        }
    } else if c == '-' || ('0' <= c && c <= '9') {
        let e = num_end(s, q);
        if float_literal(s.subrange(q, e)) {
            Some((Json::Number(s.subrange(q, e)), e))
        } else {
            None
        }
    } else {
        None
    }
}

/// The value starting at `p` (after optional whitespace), and the position
/// just past it.
pub open spec fn value_at(s: Seq<char>, p: int) -> Option<(Json, int)>
    decreases s.len() - p, 0int,
{
    let q = ws_end(s, p);
    proof {
        lemma_ws_end(s, p);
    }
    if !(0 <= q < s.len()) {
        None
    } else if s[q] == '{' {
        object_at(s, q + 1)
    } else if s[q] == '[' {
        array_at(s, q + 1)
    } else {
        scalar_value(s, q)
    }
}

/// An object's members from `p` (just after `{`).
pub open spec fn object_at(s: Seq<char>, p: int) -> Option<(Json, int)>
    decreases s.len() - p, 1int,
{
    let q = ws_end(s, p);
    proof {
        lemma_ws_end(s, p);
    }
    if at(s, q, '}') {
        Some((Json::Object(Seq::empty()), q + 1))
    } else if 0 <= p <= s.len() {
        members_at(s, q, Seq::empty())
    } else {
        None
    }
}

/// The remaining members of an object from `p`, after the members `acc`.
pub open spec fn members_at(s: Seq<char>, p: int, acc: Seq<(Seq<char>, Json)>) -> Option<
    (Json, int),
>
    decreases s.len() - p, 0int,
{
    let q = ws_end(s, p);
    proof {
        lemma_ws_end(s, p);
    }
    if !at(s, q, '"') {
        None
    } else {
        match string_body(s, q + 1, Seq::empty()) {
            None => None,
            Some((k, q2)) => {
                proof {
                    lemma_string_body_end(s, q + 1, Seq::empty());
                    lemma_ws_end(s, q2);
                }
                let q3 = ws_end(s, q2);
                if !at(s, q3, ':') {
                    None
                } else {
                    match value_at(s, q3 + 1) {
                        None => None,
                        Some((v, q4)) => {
                            let q5 = ws_end(s, q4);
                            if at(s, q5, ',') {
                                if q5 + 1 <= p {
                                    None
                                } else {
                                    members_at(s, q5 + 1, acc.push((k, v)))
                                }
                            } else if at(s, q5, '}') {
                                Some((Json::Object(acc.push((k, v))), q5 + 1))
                            } else {
                                None
                            }
                        },
                    }
                }
            },
        }
    }
}

/// An array's elements from `p` (just after `[`).
pub open spec fn array_at(s: Seq<char>, p: int) -> Option<(Json, int)>
    decreases s.len() - p, 2int,
{
    let q = ws_end(s, p);
    proof {
        lemma_ws_end(s, p);
    }
    if at(s, q, ']') {
        Some((Json::Array(Seq::empty()), q + 1))
    } else if 0 <= p <= s.len() {
        items_at(s, q, Seq::empty())
    } else {
        None
    }
}

/// The remaining elements of an array from `p`, after the elements `acc`.
pub open spec fn items_at(s: Seq<char>, p: int, acc: Seq<Json>) -> Option<(Json, int)>
    decreases s.len() - p, 1int,
{
    if !(0 <= p <= s.len()) {
        None
    } else {
        match value_at(s, p) {
            None => None,
            Some((v, q)) => {
                let q2 = ws_end(s, q);
                if at(s, q2, ',') {
                    if q2 + 1 <= p {
                        None
                    } else {
                        items_at(s, q2 + 1, acc.push(v))
                    }
                } else if at(s, q2, ']') {
                    Some((Json::Array(acc.push(v)), q2 + 1))
                } else {
                    None
                }
            },
        }
    }
}

/// The document `s` holds: one value, with only whitespace around it.
pub open spec fn json_document(s: Seq<char>) -> Option<Json> {
    match value_at(s, 0) {
        Some((v, e)) => if ws_end(s, e) == s.len() {
            Some(v)
        } else {
            None
        },
        None => None,
    }
}

/// `ws_end` does not move backwards.
pub proof fn lemma_ws_end(s: Seq<char>, p: int)
    ensures
        ws_end(s, p) >= p,
        0 <= p <= s.len() ==> ws_end(s, p) <= s.len(),
        ws_end(s, ws_end(s, p)) == ws_end(s, p),
    decreases s.len() - p,
{
    if 0 <= p < s.len() && is_json_ws(s[p]) {
        lemma_ws_end(s, p + 1);
    }
}

/// A string literal ends after where it starts.
pub proof fn lemma_string_body_end(s: Seq<char>, p: int, acc: Seq<char>)
    ensures
        string_body(s, p, acc) matches Some((t, e)) ==> p < e <= s.len(),
    decreases s.len() - p,
{
    if 0 <= p < s.len() && s[p] != '"' {
        if s[p] != '\\' {
            lemma_string_body_end(s, p + 1, acc.push(s[p]));
        } else if p + 1 < s.len() {
            let e = s[p + 1];
            lemma_string_body_end(s, p + 2, acc.push(e));
            lemma_string_body_end(s, p + 2, acc.push('\u{8}'));
            lemma_string_body_end(s, p + 2, acc.push('\u{c}'));
            lemma_string_body_end(s, p + 2, acc.push('\n'));
            lemma_string_body_end(s, p + 2, acc.push('\r'));
            lemma_string_body_end(s, p + 2, acc.push('\t'));
            if let Some(cp) = hex4(s, p + 2) {
                if let Some(lo) = hex4(s, p + 8) {
                    lemma_string_body_end(s, p + 12, acc.push(surrogate_pair(cp, lo)));
                }
                lemma_string_body_end(s, p + 6, acc.push(cp as char));
            }
        }
    }
}


/// `msg`, then ` (at char `, the decimal `pos` and `)`.
fn err_at(msg: &str, pos: usize) -> (e: String)
    ensures
        e@ == msg@ + " (at char "@ + decimal(pos as nat) + seq![')'],
{
    let mut e = msg.to_owned();
    push_str(&mut e, " (at char ");
    push_decimal(&mut e, pos as u64);
    push_char(&mut e, ')');
    e
}

fn skip_ws(s: &Vec<char>, p: usize) -> (q: usize)
    requires
        p <= s.len(),
    ensures
        q == ws_end(s@, p as int),
        p <= q <= s.len(),
{
    let mut q = p;
    while q < s.len() && (s[q] == ' ' || s[q] == '\t' || s[q] == '\n' || s[q] == '\r')
        invariant
            p <= q <= s.len(),
            ws_end(s@, p as int) == ws_end(s@, q as int),
        decreases s.len() - q,
    {
        q = q + 1;
    }
    q
}

fn hex_digit_value(c: char) -> (r: Option<u32>)
    ensures
        r == hex_val(c),
{
    if '0' <= c && c <= '9' {
        Some((c as u32) - ('0' as u32))
    } else if 'a' <= c && c <= 'f' {
        Some((c as u32) - ('a' as u32) + 10)
    } else if 'A' <= c && c <= 'F' {
        Some((c as u32) - ('A' as u32) + 10)
    } else {
        None
    }
}

fn parse_hex4(s: &Vec<char>, p: usize) -> (r: Option<u32>)
    ensures
        r == hex4(s@, p as int),
{
    if p > s.len() || s.len() - p < 4 {
        return None;
    }
    let a = match hex_digit_value(s[p]) {
        Some(v) => v,
        None => {
            return None;
        },
    };
    let b = match hex_digit_value(s[p + 1]) {
        Some(v) => v,
        None => {
            return None;
        },
    };
    let c = match hex_digit_value(s[p + 2]) {
        Some(v) => v,
        None => {
            return None;
        },
    };
    let d = match hex_digit_value(s[p + 3]) {
        Some(v) => v,
        None => {
            return None;
        },
    };
    Some(a * 4096 + b * 256 + c * 16 + d)
}

/// Reads the rest of a string literal from `p`, just after its opening
/// quote; returns the decoded text and the position past the closing quote.
fn parse_string_body(s: &Vec<char>, p: usize) -> (r: Result<(String, usize), String>)
    requires
        p <= s.len(),
    ensures
        match string_body(s@, p as int, Seq::empty()) {
            Some((t, e)) => r matches Ok((x, q)) && x@ == t && q == e,
            None => r is Err,
        },
{
    let mut out = String::new();
    let mut i = p;
    while i < s.len()
        invariant
            p <= i <= s.len(),
            string_body(s@, p as int, Seq::empty()) == string_body(s@, i as int, out@),
        decreases s.len() - i,
    {
        let c = s[i];
        if c == '"' {
            return Ok((out, i + 1));
        }
        if c != '\\' {
            push_char(&mut out, c);
            i = i + 1;
        } else {
            if i + 1 >= s.len() {
                return Err(err_at("unterminated escape", i + 1));
            }
            let e = s[i + 1];
            if e == '"' || e == '\\' || e == '/' {
                push_char(&mut out, e);
                i = i + 2;
            } else if e == 'b' {
                push_char(&mut out, '\u{8}');
                i = i + 2;
            } else if e == 'f' {
                push_char(&mut out, '\u{c}');
                i = i + 2;
            } else if e == 'n' {
                push_char(&mut out, '\n');
                i = i + 2;
            } else if e == 'r' {
                push_char(&mut out, '\r');
                i = i + 2;
            } else if e == 't' {
                push_char(&mut out, '\t');
                i = i + 2;
            } else if e == 'u' {
                let cp = match parse_hex4(s, i + 2) {
                    Some(v) => v,
                    None => {
                        return Err(err_at(hex4_fault(s, i + 2), i + 2));
                    },
                };
                if 0xD800 <= cp && cp <= 0xDBFF {
                    if s.len() - i > 6 && s[i + 6] == '\\' && !(s.len() - i > 7 && s[i + 7] == 'u') {
                        return Err(err_at("expected low surrogate escape", i + 7));
                    }
                    if s.len() - i > 7 && s[i + 6] == '\\' && s[i + 7] == 'u' {
                        let lo = match parse_hex4(s, i + 8) {
                            Some(v) => v,
                            None => {
                                return Err(err_at(hex4_fault(s, i + 8), i + 8));
                            },
                        };
                        if !(0xDC00 <= lo && lo <= 0xDFFF) {
                            return Err(err_at("invalid low surrogate", i + 12));
                        }
                        let code = 0x10000 + (cp - 0xD800) * 1024 + (lo - 0xDC00);
                        match char_from_u32(code) {
                            Some(ch) => {
                                push_char(&mut out, ch);
                            },
                            None => {
                                return Err(err_at("invalid surrogate pair", i + 12));
                            },
                        }
                        i = i + 12;
                    } else {
                        return Err(err_at("lone high surrogate", i + 6));
                    }
                } else {
                    match char_from_u32(cp) {
                        Some(ch) => {
                            push_char(&mut out, ch);
                        },
                        None => {
                            return Err(err_at("invalid \\u escape", i + 6));
                        },
                    }
                    i = i + 6;
                }
            } else {
                return Err(err_at("invalid escape character", i + 1));
            }
        }
    }
    Err(err_at("unterminated string", i))
}

/// Why the four hex digits at `p` do not form a `\u` escape: the text ends
/// before a digit, or a character is not a hex digit, whichever comes first.
fn hex4_fault(s: &Vec<char>, p: usize) -> &'static str {
    let mut j: usize = 0;
    while j < 4
        invariant
            j <= 4,
        decreases 4 - j,
    {
        if p >= s.len() || s.len() - p <= j {
            return "truncated \\u escape";
        }
        if hex_digit_value(s[p + j]).is_none() {
            return "invalid hex digit in \\u escape";
        }
        j = j + 1;
    }
    "invalid \\u escape"
}

fn has_lit(s: &Vec<char>, p: usize, lit: &str) -> (b: bool)
    requires
        p <= s.len(),
    ensures
        b == has_literal(s@, p as int, lit@),
{
    let l = chars_of(lit);
    if s.len() - p < l.len() {
        return false;
    }
    let mut k: usize = 0;
    while k < l.len()
        invariant
            k <= l.len(),
            l@ == lit@,
            p + l.len() <= s.len(),
            forall|j: int| 0 <= j < k ==> s@[p + j] == l@[j],
        decreases l.len() - k,
    {
        if s[p + k] != l[k] {
            proof {
                assert(s@.subrange(p as int, p + l.len())[k as int] != lit@[k as int]);
            }
            return false;
        }
        k = k + 1;
    }
    proof {
        assert(s@.subrange(p as int, p + l.len()) =~= lit@);
    }
    true
}

fn chars_to_string(s: &Vec<char>, lo: usize, hi: usize) -> (out: String)
    requires
        lo <= hi <= s.len(),
    ensures
        out@ == s@.subrange(lo as int, hi as int),
{
    let mut out = String::new();
    let mut i = lo;
    while i < hi
        invariant
            lo <= i <= hi <= s.len(),
            out@ == s@.subrange(lo as int, i as int),
        decreases hi - i,
    {
        push_char(&mut out, s[i]);
        proof {
            assert(s@.subrange(lo as int, i + 1) =~= s@.subrange(lo as int, i as int).push(s@[i as int]));
        }
        i = i + 1;
    }
    out
}

fn parse_scalar(s: &Vec<char>, q: usize) -> (r: Result<(JsonValue, usize), String>)
    requires
        q < s.len(),
    ensures
        match scalar_value(s@, q as int) {
            Some((d, e)) => r matches Ok((v, x)) && v@ == d && x == e,
            None => r is Err,
        },
        r matches Ok((v, x)) ==> q < x <= s.len(),
{
    let c = s[q];
    proof {
        reveal_strlit("true");
        reveal_strlit("false");
        reveal_strlit("null");
    }
    if c == '"' {
        proof {
            lemma_string_body_end(s@, q + 1, Seq::empty());
        }
        let (t, e) = parse_string_body(s, q + 1)?;
        Ok((JsonValue::String(t), e))
    } else if c == 't' || c == 'f' {
        if has_lit(s, q, "true") {
            Ok((JsonValue::Bool(true), q + 4))
        } else if has_lit(s, q, "false") {
            Ok((JsonValue::Bool(false), q + 5))
        } else {
            Err(err_at("invalid literal", q))
        }
    } else if c == 'n' {
        if has_lit(s, q, "null") {
            Ok((JsonValue::Null, q + 4))
        } else {
            Err(err_at("invalid literal", q))
        }
    } else if c == '-' || ('0' <= c && c <= '9') {
        let mut e = q;
        while e < s.len() && (('0' <= s[e] && s[e] <= '9') || s[e] == '.' || s[e] == 'e'
            || s[e] == 'E' || s[e] == '+' || s[e] == '-')
            invariant
                q <= e <= s.len(),
                num_end(s@, q as int) == num_end(s@, e as int),
            decreases s.len() - e,
        {
            e = e + 1;
        }
        if is_float_literal(s.as_slice(), q, e) {
            Ok((JsonValue::Number(chars_to_string(s, q, e)), e))
        } else {
            Err(err_at("invalid number", q))
        }
    } else {
        Err(err_at("unexpected character", q))
    }
}

/// Reads the value at `p` (after optional whitespace).
fn parse_value(s: &Vec<char>, p: usize) -> (r: Result<(JsonValue, usize), String>)
    requires
        p <= s.len(),
    ensures
        match value_at(s@, p as int) {
            Some((d, e)) => r matches Ok((v, x)) && v@ == d && x == e,
            None => r is Err,
        },
        r matches Ok((v, x)) ==> p < x <= s.len(),
    decreases s.len() - p, 0int,
{
    let q = skip_ws(s, p);
    if q >= s.len() {
        return Err(err_at("unexpected character", q));
    }
    if s[q] == '{' {
        parse_object(s, q + 1)
    } else if s[q] == '[' {
        parse_array(s, q + 1)
    } else {
        parse_scalar(s, q)
    }
}

fn parse_object(s: &Vec<char>, p: usize) -> (r: Result<(JsonValue, usize), String>)
    requires
        p <= s.len(),
    ensures
        match object_at(s@, p as int) {
            Some((d, e)) => r matches Ok((v, x)) && v@ == d && x == e,
            None => r is Err,
        },
        r matches Ok((v, x)) ==> p < x <= s.len(),
    decreases s.len() - p, 1int,
{
    let q = skip_ws(s, p);
    if q < s.len() && s[q] == '}' {
        let empty: Vec<(String, JsonValue)> = Vec::new();
        proof {
            assert(members_model(empty@) =~= Seq::<(Seq<char>, Json)>::empty());
        }
        return Ok((JsonValue::Object(empty), q + 1));
    }
    let mut members: Vec<(String, JsonValue)> = Vec::new();
    let mut pos = q;
    proof {
        assert(members_model(members@) =~= Seq::<(Seq<char>, Json)>::empty());
    }
    loop
        invariant
            p <= q <= pos <= s.len(),
            object_at(s@, p as int) == members_at(s@, pos as int, members_model(members@)),
        decreases s.len() - pos,
    {
        let k0 = skip_ws(s, pos);
        if !(k0 < s.len() && s[k0] == '"') {
            return Err(err_at("expected object key string", k0));
        }
        proof {
            lemma_string_body_end(s@, k0 + 1, Seq::empty());
        }
        let (key, q2) = parse_string_body(s, k0 + 1)?;
        let q3 = skip_ws(s, q2);
        if !(q3 < s.len() && s[q3] == ':') {
            return Err(err_at("expected ':' after object key", q3));
        }
        let (v, q4) = parse_value(s, q3 + 1)?;
        let ghost before = members@;
        members.push((key, v));
        proof {
            assert(members@.drop_last() =~= before);
        }
        let q5 = skip_ws(s, q4);
        if q5 < s.len() && s[q5] == ',' {
            pos = q5 + 1;
        } else if q5 < s.len() && s[q5] == '}' {
            return Ok((JsonValue::Object(members), q5 + 1));
        } else {
            return Err(err_at("expected ',' or '}' in object", q5));
        }
    }
}

fn parse_array(s: &Vec<char>, p: usize) -> (r: Result<(JsonValue, usize), String>)
    requires
        p <= s.len(),
    ensures
        match array_at(s@, p as int) {
            Some((d, e)) => r matches Ok((v, x)) && v@ == d && x == e,
            None => r is Err,
        },
        r matches Ok((v, x)) ==> p < x <= s.len(),
    decreases s.len() - p, 2int,
{
    let q = skip_ws(s, p);
    if q < s.len() && s[q] == ']' {
        let empty: Vec<JsonValue> = Vec::new();
        proof {
            assert(array_model(empty@) =~= Seq::<Json>::empty());
        }
        return Ok((JsonValue::Array(empty), q + 1));
    }
    let mut items: Vec<JsonValue> = Vec::new();
    let mut pos = q;
    proof {
        assert(array_model(items@) =~= Seq::<Json>::empty());
    }
    loop
        invariant
            p <= q <= pos <= s.len(),
            array_at(s@, p as int) == items_at(s@, pos as int, array_model(items@)),
        decreases s.len() - pos,
    {
        let (v, q1) = parse_value(s, pos)?;
        let ghost before = items@;
        items.push(v);
        proof {
            assert(items@.drop_last() =~= before);
        }
        let q2 = skip_ws(s, q1);
        if q2 < s.len() && s[q2] == ',' {
            pos = q2 + 1;
        } else if q2 < s.len() && s[q2] == ']' {
            return Ok((JsonValue::Array(items), q2 + 1));
        } else {
            return Err(err_at("expected ',' or ']' in array", q2));
        }
    }
}

/// Parses a whole JSON document; the error text names the first problem and
/// its character position.
pub fn parse(input: &str) -> (r: Result<JsonValue, String>)
    ensures
        match json_document(input@) {
            Some(d) => r matches Ok(v) && v@ == d,
            None => r is Err,
        },
{
    let s = chars_of(input);
    let (v, e) = parse_value(&s, 0)?;
    let q = skip_ws(&s, e);
    if q != s.len() {
        return Err(err_at("trailing data after JSON value", q));
    }
    Ok(v)
}

} // verus!
