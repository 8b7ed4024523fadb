//! Splitting a template source into literal text, `{{ … }}` outputs and
//! `{% … %}` statements, with Jinja whitespace control.

use vstd::prelude::*;

use crate::template::TemplateError;
use crate::text::{
    byte_len, char_is_whitespace, char_utf8_len, chars_of, is_white_space, lemma_ws_back_bounds,
    lemma_ws_skip_bounds, slice_chars, trim_chars, trim_end_chars, trim_end_ws, trim_ws, utf8_len,
    ws_back, ws_skip,
};

verus! {

/// A `{% … %}` statement, with the source of its expressions.
#[derive(Debug)]
pub enum Stmt {
    Assign { name: Vec<char>, expr: Vec<char> },
    For { var: Vec<char>, iterable: Vec<char> },
    If { cond: Vec<char> },
    Elif { cond: Vec<char> },
    Else,
    EndFor,
    EndIf,
}

/// A piece of a scanned template.
#[derive(Debug)]
pub enum Item {
    Text(Vec<char>),
    Output(Vec<char>),
    Stmt(Stmt),
}

/// The model of a [`Stmt`].
pub enum StmtM {
    Assign { name: Seq<char>, expr: Seq<char> },
    For { var: Seq<char>, iterable: Seq<char> },
    If { cond: Seq<char> },
    Elif { cond: Seq<char> },
    Else,
    EndFor,
    EndIf,
}

/// The model of an [`Item`].
pub enum ItemM {
    Text(Seq<char>),
    Output(Seq<char>),
    Stmt(StmtM),
}

/// The model of a statement.
pub open spec fn stmt_model(s: Stmt) -> StmtM {
    match s {
        Stmt::Assign { name, expr } => StmtM::Assign { name: name@, expr: expr@ },
        Stmt::For { var, iterable } => StmtM::For { var: var@, iterable: iterable@ },
        Stmt::If { cond } => StmtM::If { cond: cond@ },
        Stmt::Elif { cond } => StmtM::Elif { cond: cond@ },
        Stmt::Else => StmtM::Else,
        Stmt::EndFor => StmtM::EndFor,
        Stmt::EndIf => StmtM::EndIf,
    }
}

/// The model of an item.
pub open spec fn item_model(i: Item) -> ItemM {
    match i {
        Item::Text(t) => ItemM::Text(t@),
        Item::Output(e) => ItemM::Output(e@),
        Item::Stmt(s) => ItemM::Stmt(stmt_model(s)),
    }
}

/// The models of a sequence of items.
pub open spec fn items_model(s: Seq<Item>) -> Seq<ItemM> {
    s.map_values(|i: Item| item_model(i))
}

/// The byte offset of character `i` of `s`, saturating at `usize::MAX`.
pub open spec fn byte_pos(s: Seq<char>, i: int) -> usize {
    let n = byte_len(s.take(i));
    if n <= usize::MAX {
        n as usize
    } else {
        usize::MAX
    }
}

/// Index of the first `c` in `s` at or after `from`.
pub open spec fn index_of(s: Seq<char>, c: char, from: int) -> Option<int>
    decreases s.len() - from,
{
    if !(0 <= from < s.len()) {
        None
    } else if s[from] == c {
        Some(from)
    } else {
        index_of(s, c, from + 1)
    }
}

/// Index of the first occurrence of `pat` in `s` at or after `from`.
pub open spec fn find_seq(s: Seq<char>, pat: Seq<char>, from: int) -> Option<int>
    decreases s.len() - from,
{
    if !(0 <= from < s.len() && from + pat.len() <= s.len()) {
        None
    } else if s.subrange(from, from + pat.len()) == pat {
        Some(from)
    } else {
        find_seq(s, pat, from + 1)
    }
}

/// Index of the first whitespace character of `s` at or after `from`, or
/// `s.len()`.
pub open spec fn ws_index(s: Seq<char>, from: int) -> int
    decreases s.len() - from,
{
    if !(0 <= from < s.len()) || is_white_space(s[from]) {
        from
    } else {
        ws_index(s, from + 1)
    }
}

/// The statement a `{% … %}` body denotes, or `None` if it is malformed.
pub open spec fn stmt_of(raw: Seq<char>) -> Option<StmtM> {
    let t = trim_ws(raw);
    let kw = t.subrange(0, ws_index(t, 0));
    if t.len() == 0 {
        None
    } else if kw == "set"@ {
        let rest = t.subrange(3, t.len() as int);
        match index_of(rest, '=', 0) {
            None => None,
            Some(eq) => {
                let name = trim_ws(rest.subrange(0, eq));
                let expr = trim_ws(rest.subrange(eq + 1, rest.len() as int));
                if name.len() == 0 || expr.len() == 0 {
                    None
                } else {
                    Some(StmtM::Assign { name, expr })
                }
            },
        }
    } else if kw == "for"@ {
        let rest = trim_ws(t.subrange(3, t.len() as int));
        match find_seq(rest, " in "@, 0) {
            None => None,
            Some(k) => {
                let var = trim_ws(rest.subrange(0, k));
                let iterable = trim_ws(rest.subrange(k + 4, rest.len() as int));
                if var.len() == 0 || iterable.len() == 0 {
                    None
                } else {
                    Some(StmtM::For { var, iterable })
                }
            },
        }
    } else if kw == "if"@ {
        Some(StmtM::If { cond: trim_ws(t.subrange(2, t.len() as int)) })
    } else if kw == "elif"@ {
        Some(StmtM::Elif { cond: trim_ws(t.subrange(4, t.len() as int)) })
    } else if kw == "else"@ {
        Some(StmtM::Else)
    } else if kw == "endif"@ {
        Some(StmtM::EndIf)
    } else if kw == "endfor"@ {
        Some(StmtM::EndFor)
    } else {
        None
    }
}

/// The start of the first `a}` at or after `j` (the closing delimiter of a
/// tag whose second character is `a`).
pub open spec fn close_at(s: Seq<char>, j: int, a: char) -> Option<int>
    decreases s.len() - j,
{
    if !(0 <= j && j + 2 <= s.len()) {
        None
    } else if s[j] == a && s[j + 1] == '}' {
        Some(j)
    } else {
        close_at(s, j + 1, a)
    }
}

/// `s[i]` opens a tag: `{{`, `{%` or `{#`.
pub open spec fn opens_tag(s: Seq<char>, i: int) -> bool {
    0 <= i && i + 1 < s.len() && s[i] == '{' && (s[i + 1] == '{' || s[i + 1] == '%' || s[i + 1]
        == '#')
}

/// Scanning from character `i`, with pending literal `text`, whether the
/// next text starts by dropping whitespace, and the items found so far: the
/// items of the whole template, or the byte offset of the first error. A `-`
/// just inside either delimiter of a tag asks for the neighbouring whitespace
/// to be dropped and is not part of the tag's body.
pub open spec fn scan_from(s: Seq<char>, i: int, text: Seq<char>, trim_next: bool, items: Seq<
    ItemM,
>) -> Result<Seq<ItemM>, usize>
    decreases s.len() - i,
{
    if !(0 <= i < s.len()) {
        Ok(
            if text.len() > 0 {
                items.push(ItemM::Text(text))
            } else {
                items
            },
        )
    } else if opens_tag(s, i) {
        let second = s[i + 1];
        let a = if second == '{' {
            '}'
        } else if second == '#' {
            '#'
        } else {
            '%'
        };
        let trim_left = 0 <= i + 2 < s.len() && s[i + 2] == '-';
        let k = if trim_left {
            i + 3
        } else {
            i + 2
        };
        match close_at(s, k, a) {
            None => Err(byte_pos(s, i)),
            Some(j) => {
                proof {
                    lemma_close_at(s, k, a);
                }
                let trim_right = j > 0 && s[j - 1] == '-';
                let inner = s.subrange(k, if trim_right && j > k { j - 1 } else { j });
                let t2 = if trim_left {
                    trim_end_ws(text)
                } else {
                    text
                };
                let items2 = if t2.len() > 0 {
                    items.push(ItemM::Text(t2))
                } else {
                    items
                };
                if j + 2 <= i {
                    Err(byte_pos(s, i))
                } else if second == '#' {
                    scan_from(s, j + 2, Seq::empty(), trim_right, items2)
                } else if second == '{' {
                    scan_from(
                        s,
                        j + 2,
                        Seq::empty(),
                        trim_right,
                        items2.push(ItemM::Output(trim_ws(inner))),
                    )
                } else {
                    match stmt_of(inner) {
                        None => Err(byte_pos(s, j + 2)),
                        Some(st) => scan_from(
                            s,
                            j + 2,
                            Seq::empty(),
                            trim_right,
                            items2.push(ItemM::Stmt(st)),
                        ),
                    }
                }
            },
        }
    } else if trim_next && is_white_space(s[i]) {
        scan_from(s, i + 1, text, trim_next, items)
    } else {
        scan_from(s, i + 1, text.push(s[i]), false, items)
    }
}

/// The items of template source `s`, or the byte offset of the first error.
pub open spec fn scan_spec(s: Seq<char>) -> Result<Seq<ItemM>, usize> {
    scan_from(s, 0, Seq::empty(), false, Seq::empty())
}

/// A closing delimiter found by `close_at` lies where it was looked for.
pub proof fn lemma_close_at(s: Seq<char>, j: int, a: char)
    ensures
        close_at(s, j, a) matches Some(k) ==> j <= k && k + 2 <= s.len() && s[k] == a && s[k + 1]
            == '}',
    decreases s.len() - j,
{
    if 0 <= j && j + 2 <= s.len() && !(s[j] == a && s[j + 1] == '}') {
        lemma_close_at(s, j + 1, a);
    }
}

/// Whether `s[lo..hi]` is `lit`.
pub fn range_is(s: &[char], lo: usize, hi: usize, lit: &str) -> (b: bool)
    requires
        lo <= hi <= s.len(),
    ensures
        b == (s@.subrange(lo as int, hi as int) == lit@),
{
    let l = chars_of(lit);
    if hi - lo != l.len() {
        return false;
    }
    let mut k: usize = 0;
    while k < l.len()
        invariant
            k <= l.len(),
            l@ == lit@,
            hi - lo == l.len(),
            lo <= hi <= s.len(),
            forall|j: int| 0 <= j < k ==> s@[lo + j] == l@[j],
        decreases l.len() - k,
    {
        if s[lo + k] != l[k] {
            proof {
                assert(s@.subrange(lo as int, hi as int)[k as int] != lit@[k as int]);
            }
            return false;
        }
        k = k + 1;
    }
    proof {
        assert(s@.subrange(lo as int, hi as int) =~= lit@);
    }
    true
}

fn index_of_exec(s: &[char], c: char) -> (r: Option<usize>)
    ensures
        r matches Some(x) ==> index_of(s@, c, 0) == Some(x as int),
        r is None ==> index_of(s@, c, 0) is None,
{
    let mut k: usize = 0;
    while k < s.len()
        invariant
            k <= s.len(),
            index_of(s@, c, 0) == index_of(s@, c, k as int),
        decreases s.len() - k,
    {
        if s[k] == c {
            return Some(k);
        }
        k = k + 1;
    }
    None
}

fn find_in_exec(s: &[char]) -> (r: Option<usize>)
    ensures
        r matches Some(x) ==> find_seq(s@, " in "@, 0) == Some(x as int),
        r is None ==> find_seq(s@, " in "@, 0) is None,
{
    proof {
        reveal_strlit(" in ");
    }
    if s.len() < 4 {
        return None;
    }
    let mut k: usize = 0;
    while k <= s.len() - 4
        invariant
            s.len() >= 4,
            " in "@.len() == 4,
            find_seq(s@, " in "@, 0) == find_seq(s@, " in "@, k as int),
        decreases s.len() - k,
    {
        if range_is(s, k, k + 4, " in ") {
            return Some(k);
        }
        k = k + 1;
    }
    None
}

fn ws_index_exec(s: &[char]) -> (w: usize)
    ensures
        w == ws_index(s@, 0),
        w <= s.len(),
{
    let mut k: usize = 0;
    while k < s.len() && !char_is_whitespace(s[k])
        invariant
            k <= s.len(),
            ws_index(s@, 0) == ws_index(s@, k as int),
        decreases s.len() - k,
    {
        k = k + 1;
    }
    k
}

/// A parse error at byte `pos`.
pub fn parse_error(msg: &str, pos: usize) -> (e: TemplateError)
    ensures
        e matches TemplateError::Parse { message, position } && message@ == msg@ && position == pos,
{
    TemplateError::parse(msg, pos)
}

/// Parses a `{% … %}` body; `pos` is the byte offset reported on error.
pub fn parse_stmt(raw: &[char], pos: usize) -> (r: Result<Stmt, TemplateError>)
    ensures
        match stmt_of(raw@) {
            Some(st) => r matches Ok(x) && stmt_model(x) == st,
            None => r matches Err(TemplateError::Parse { position, .. }) && position == pos,
        },
{
    let t = trim_chars(raw);
    if t.len() == 0 {
        return Err(parse_error("empty statement", pos));
    }
    let w = ws_index_exec(t.as_slice());
    assert(t@.subrange(0, w as int).len() == w);
    proof {
        reveal_strlit("set");
        reveal_strlit("for");
        reveal_strlit("if");
        reveal_strlit("elif");
    }
    if range_is(t.as_slice(), 0, w, "set") {
        let rest = slice_chars(t.as_slice(), 3, t.len());
        let eq = match index_of_exec(rest.as_slice(), '=') {
            Some(e) => e,
            None => {
                return Err(parse_error("expected '=' in set", pos));
            },
        };
        proof {
            lemma_index_of(rest@, '=', 0);
        }
        let name_raw = slice_chars(rest.as_slice(), 0, eq);
        let name = trim_chars(name_raw.as_slice());
        let expr_raw = slice_chars(rest.as_slice(), eq + 1, rest.len());
        let expr = trim_chars(expr_raw.as_slice());
        if name.len() == 0 || expr.len() == 0 {
            return Err(parse_error("malformed set statement", pos));
        }
        Ok(Stmt::Assign { name, expr })
    } else if range_is(t.as_slice(), 0, w, "for") {
        let rest_raw = slice_chars(t.as_slice(), 3, t.len());
        let rest = trim_chars(rest_raw.as_slice());
        let k = match find_in_exec(rest.as_slice()) {
            Some(k) => k,
            None => {
                return Err(parse_error("expected 'in' in for", pos));
            },
        };
        proof {
            reveal_strlit(" in ");
            assert(" in "@.len() == 4);
            assert(find_seq(rest@, " in "@, 0) == Some(k as int));
            lemma_find_seq(rest@, " in "@, 0);
            assert(k + 4 <= rest@.len());
        }
        if rest.len() < 4 || k > rest.len() - 4 {
            return Err(parse_error("expected 'in' in for", pos));
        }
        let var_raw = slice_chars(rest.as_slice(), 0, k);
        let var = trim_chars(var_raw.as_slice());
        let it_raw = slice_chars(rest.as_slice(), k + 4, rest.len());
        let iterable = trim_chars(it_raw.as_slice());
        if var.len() == 0 || iterable.len() == 0 {
            return Err(parse_error("malformed for statement", pos));
        }
        Ok(Stmt::For { var, iterable })
    } else if range_is(t.as_slice(), 0, w, "if") {
        let c = slice_chars(t.as_slice(), 2, t.len());
        Ok(Stmt::If { cond: trim_chars(c.as_slice()) })
    } else if range_is(t.as_slice(), 0, w, "elif") {
        let c = slice_chars(t.as_slice(), 4, t.len());
        Ok(Stmt::Elif { cond: trim_chars(c.as_slice()) })
    } else if range_is(t.as_slice(), 0, w, "else") {
        Ok(Stmt::Else)
    } else if range_is(t.as_slice(), 0, w, "endif") {
        Ok(Stmt::EndIf)
    } else if range_is(t.as_slice(), 0, w, "endfor") {
        Ok(Stmt::EndFor)
    } else {
        Err(parse_error("unknown statement", pos))
    }
}

proof fn lemma_index_of(s: Seq<char>, c: char, from: int)
    ensures
        index_of(s, c, from) matches Some(k) ==> from <= k < s.len(),
    decreases s.len() - from,
{
    if 0 <= from < s.len() && s[from] != c {
        lemma_index_of(s, c, from + 1);
    }
}

proof fn lemma_find_seq(s: Seq<char>, pat: Seq<char>, from: int)
    ensures
        find_seq(s, pat, from) matches Some(k) ==> from <= k && k + pat.len() <= s.len(),
    decreases s.len() - from,
{
    if 0 <= from < s.len() && from + pat.len() <= s.len() && s.subrange(from, from + pat.len())
        != pat {
        lemma_find_seq(s, pat, from + 1);
    }
}

/// The byte offset of character `i` of `s` (saturating).
pub fn byte_offset(s: &Vec<char>, i: usize) -> (r: usize)
    requires
        i <= s.len(),
    ensures
        r == byte_pos(s@, i as int),
{
    let mut acc: usize = 0;
    let mut k: usize = 0;
    while k < i
        invariant
            k <= i <= s.len(),
            acc == byte_pos(s@, k as int),
        decreases i - k,
    {
        let n = char_utf8_len(s[k]);
        proof {
            assert(s@.take(k + 1).drop_last() =~= s@.take(k as int));
        }
        if acc > usize::MAX - n {
            acc = usize::MAX;
        } else {
            acc = acc + n;
        }
        k = k + 1;
    }
    acc
}

fn find_close(s: &Vec<char>, k: usize, a: char) -> (r: Option<usize>)
    requires
        k <= s.len(),
    ensures
        match close_at(s@, k as int, a) {
            Some(j) => r == Some(j as usize),
            None => r is None,
        },
{
    let mut j = k;
    while j < s.len() && j + 1 < s.len()
        invariant
            k <= j <= s.len(),
            close_at(s@, k as int, a) == close_at(s@, j as int, a),
        decreases s.len() - j,
    {
        if s[j] == a && s[j + 1] == '}' {
            return Some(j);
        }
        j = j + 1;
    }
    None
}

proof fn lemma_items_push(items: Seq<Item>, x: Item)
    ensures
        items_model(items.push(x)) == items_model(items).push(item_model(x)),
{
    assert(items.push(x).map_values(|i: Item| item_model(i)) =~= items.map_values(
        |i: Item| item_model(i),
    ).push(item_model(x)));
}

/// Splits template source into text, outputs and statements.
pub fn scan(src: &str) -> (r: Result<Vec<Item>, TemplateError>)
    ensures
        match scan_spec(src@) {
            Ok(items) => r matches Ok(v) && items_model(v@) == items,
            Err(p) => r matches Err(TemplateError::Parse { position, .. }) && position == p,
        },
{
    let s = chars_of(src);
    let mut items: Vec<Item> = Vec::new();
    let mut text: Vec<char> = Vec::new();
    let mut trim_next = false;
    let mut i: usize = 0;
    proof {
        assert(items_model(items@) =~= Seq::<ItemM>::empty());
    }
    while i < s.len()
        invariant
            i <= s.len(),
            s@ == src@,
            scan_spec(s@) == scan_from(s@, i as int, text@, trim_next, items_model(items@)),
        decreases s.len() - i,
    {
        if s[i] == '{' && i + 1 < s.len() && (s[i + 1] == '{' || s[i + 1] == '%' || s[i + 1] == '#') {
            let second = s[i + 1];
            let a = if second == '{' {
                '}'
            } else if second == '#' {
                '#'
            } else {
                '%'
            };
            let trim_left = i + 2 < s.len() && s[i + 2] == '-';
            let k = if trim_left {
                i + 3
            } else {
                i + 2
            };
            let j = match find_close(&s, k, a) {
                Some(j) => j,
                None => {
                    return Err(parse_error("expected a closing delimiter", byte_offset(&s, i)));
                },
            };
            proof {
                lemma_close_at(s@, k as int, a);
            }
            let trim_right = j > 0 && s[j - 1] == '-';
            let inner_end = if trim_right && j > k {
                j - 1
            } else {
                j
            };
            let inner = slice_chars(s.as_slice(), k, inner_end);
            if trim_left {
                text = trim_end_chars(text.as_slice());
            }
            if text.len() > 0 {
                let t = text;
                text = Vec::new();
                proof {
                    lemma_items_push(items@, Item::Text(t));
                }
                items.push(Item::Text(t));
            } else {
                text = Vec::new();
            }
            if second == '{' {
                let e = trim_chars(inner.as_slice());
                proof {
                    lemma_items_push(items@, Item::Output(e));
                }
                items.push(Item::Output(e));
            } else if second == '%' {
                let st = parse_stmt(inner.as_slice(), byte_offset(&s, j + 2))?;
                proof {
                    lemma_items_push(items@, Item::Stmt(st));
                }
                items.push(Item::Stmt(st));
            }
            trim_next = trim_right;
            i = j + 2;
        } else {
            let ch = s[i];
            if trim_next && char_is_whitespace(ch) {
                i = i + 1;
            } else {
                trim_next = false;
                text.push(ch);
                i = i + 1;
            }
        }
    }
    if text.len() > 0 {
        proof {
            lemma_items_push(items@, Item::Text(text));
        }
        items.push(Item::Text(text));
    }
    Ok(items)
}

} // verus!
