//! Template expressions: the tokenizer and the recursive-descent grammar.
//!
//! Precedence, loosest first: `or`, `and`, `not`, `is` tests, comparisons
//! (including `in` / `not in`), `+ - ~`, `* /`, unary `-`, `|` filters, and
//! postfix `.name`, `[index]`, `(args)`.

use vstd::prelude::*;

use crate::template::{args_model, exprs_model, Arg, ArgM, Expr, ExprM, Op, TemplateError};
use crate::template_scan::{byte_offset, byte_pos, parse_error, range_is};
use crate::text::{chars_of, float_literal, is_float_literal, slice_chars, string_from_chars};

verus! {

/// An expression token.
#[derive(Debug)]
pub enum Tok {
    Ident(Vec<char>),
    Str(Vec<char>),
    Num(Vec<char>),
    Bool(bool),
    Op(Op),
    LParen,
    RParen,
    LBracket,
    RBracket,
    Dot,
    Comma,
    Minus,
    Assign,
    Not,
    Pipe,
    Is,
    NoneTok,
}

/// The model of a [`Tok`].
pub enum TokM {
    Ident(Seq<char>),
    Str(Seq<char>),
    Num(Seq<char>),
    Bool(bool),
    Op(Op),
    LParen,
    RParen,
    LBracket,
    RBracket,
    Dot,
    Comma,
    Minus,
    Assign,
    Not,
    Pipe,
    Is,
    NoneTok,
}

/// The model of a token.
pub open spec fn tok_model(t: Tok) -> TokM {
    match t {
        Tok::Ident(n) => TokM::Ident(n@),
        Tok::Str(n) => TokM::Str(n@),
        Tok::Num(n) => TokM::Num(n@),
        Tok::Bool(b) => TokM::Bool(b),
        Tok::Op(o) => TokM::Op(o),
        Tok::LParen => TokM::LParen,
        Tok::RParen => TokM::RParen,
        Tok::LBracket => TokM::LBracket,
        Tok::RBracket => TokM::RBracket,
        Tok::Dot => TokM::Dot,
        Tok::Comma => TokM::Comma,
        Tok::Minus => TokM::Minus,
        Tok::Assign => TokM::Assign,
        Tok::Not => TokM::Not,
        Tok::Pipe => TokM::Pipe,
        Tok::Is => TokM::Is,
        Tok::NoneTok => TokM::NoneTok,
    }
}

/// The models of a token sequence.
pub open spec fn toks_model(s: Seq<Tok>) -> Seq<TokM> {
    s.map_values(|t: Tok| tok_model(t))
}

/// ASCII letters.
pub open spec fn is_ascii_letter(c: char) -> bool {
    ('a' <= c && c <= 'z') || ('A' <= c && c <= 'Z')
}

/// Characters that continue an identifier.
pub open spec fn is_ident_char(c: char) -> bool {
    is_ascii_letter(c) || ('0' <= c && c <= '9') || c == '_'
}

/// End of the run of characters satisfying `digit or .` from `i`.
pub open spec fn num_lit_end(s: Seq<char>, i: int) -> int
    decreases s.len() - i,
{
    if 0 <= i < s.len() && (('0' <= s[i] && s[i] <= '9') || s[i] == '.') {
        num_lit_end(s, i + 1)
    } else {
        i
    }
}

/// End of the identifier run from `i`.
pub open spec fn ident_end(s: Seq<char>, i: int) -> int
    decreases s.len() - i,
{
    if 0 <= i < s.len() && is_ident_char(s[i]) {
        ident_end(s, i + 1)
    } else {
        i
    }
}

/// The token a word stands for.
pub open spec fn word_tok(w: Seq<char>) -> TokM {
    if w == "and"@ {
        TokM::Op(Op::And)
    } else if w == "or"@ {
        TokM::Op(Op::Or)
    } else if w == "in"@ {
        TokM::Op(Op::In)
    } else if w == "not"@ {
        TokM::Not
    } else if w == "is"@ {
        TokM::Is
    } else if w == "true"@ || w == "True"@ {
        TokM::Bool(true)
    } else if w == "false"@ || w == "False"@ {
        TokM::Bool(false)
    } else if w == "none"@ || w == "None"@ || w == "null"@ {
        TokM::NoneTok
    } else {
        TokM::Ident(w)
    }
}

/// The escaped character `\e` stands for.
pub open spec fn unescape(e: char) -> char {
    if e == 'n' {
        '\n'
    } else if e == 't' {
        '\t'
    } else if e == 'r' {
        '\r'
    } else {
        e
    }
}

/// The rest of a string literal quoted by `q`, from `i`: its text and the
/// position past the closing quote.
pub open spec fn str_lit(s: Seq<char>, i: int, q: char, acc: Seq<char>) -> Option<(Seq<char>, int)>
    decreases s.len() - i,
{
    if !(0 <= i < s.len()) {
        None
    } else if s[i] == q {
        Some((acc, i + 1))
    } else if s[i] == '\\' && i + 1 < s.len() {
        str_lit(s, i + 2, q, acc.push(unescape(s[i + 1])))
    } else {
        str_lit(s, i + 1, q, acc.push(s[i]))
    }
}

/// The single-character token `c` stands for, if any.
pub open spec fn punct_tok(c: char) -> Option<TokM> {
    if c == '(' {
        Some(TokM::LParen)
    } else if c == ')' {
        Some(TokM::RParen)
    } else if c == '[' {
        Some(TokM::LBracket)
    } else if c == ']' {
        Some(TokM::RBracket)
    } else if c == '.' {
        Some(TokM::Dot)
    } else if c == ',' {
        Some(TokM::Comma)
    } else if c == '+' {
        Some(TokM::Op(Op::Add))
    } else if c == '*' {
        Some(TokM::Op(Op::Mul))
    } else if c == '~' {
        Some(TokM::Op(Op::Concat))
    } else if c == '|' {
        Some(TokM::Pipe)
    } else if c == '/' {
        Some(TokM::Op(Op::Div))
    } else if c == '-' {
        Some(TokM::Minus)
    } else {
        None
    }
}

/// Tokenizing from `i` after the tokens `acc`: all tokens, or the byte
/// offset of the first error.
pub open spec fn tok_from(s: Seq<char>, i: int, acc: Seq<TokM>) -> Result<Seq<TokM>, usize>
    decreases s.len() - i,
{
    if !(0 <= i < s.len()) {
        Ok(acc)
    } else {
        let c = s[i];
        let next_eq = i + 1 < s.len() && s[i + 1] == '=';
        if c == ' ' || c == '\t' || c == '\n' || c == '\r' {
            tok_from(s, i + 1, acc)
        } else if punct_tok(c) is Some {
            tok_from(s, i + 1, acc.push(punct_tok(c).unwrap()))
        } else if c == '=' {
            if next_eq {
                tok_from(s, i + 2, acc.push(TokM::Op(Op::Eq)))
            } else {
                tok_from(s, i + 1, acc.push(TokM::Assign))
            }
        } else if c == '!' {
            if next_eq {
                tok_from(s, i + 2, acc.push(TokM::Op(Op::Ne)))
            } else {
                Err(byte_pos(s, i))
            }
        } else if c == '<' {
            if next_eq {
                tok_from(s, i + 2, acc.push(TokM::Op(Op::Le)))
            } else {
                tok_from(s, i + 1, acc.push(TokM::Op(Op::Lt)))
            }
        } else if c == '>' {
            if next_eq {
                tok_from(s, i + 2, acc.push(TokM::Op(Op::Ge)))
            } else {
                tok_from(s, i + 1, acc.push(TokM::Op(Op::Gt)))
            }
        } else if c == '"' || c == '\'' {
            match str_lit(s, i + 1, c, Seq::empty()) {
                None => Err(byte_pos(s, i + 1)),
                Some((t, e)) => if e <= i || e > s.len() {
                    Err(byte_pos(s, i + 1))
                } else {
                    tok_from(s, e, acc.push(TokM::Str(t)))
                },
            }
        } else if '0' <= c && c <= '9' {
            let e = num_lit_end(s, i + 1);
            if i < e <= s.len() && float_literal(s.subrange(i, e)) {
                tok_from(s, e, acc.push(TokM::Num(s.subrange(i, e))))
            } else {
                Err(byte_pos(s, i))
            }
        } else if is_ascii_letter(c) || c == '_' {
            let e = ident_end(s, i + 1);
            if i < e <= s.len() {
                tok_from(s, e, acc.push(word_tok(s.subrange(i, e))))
            } else {
                Err(byte_pos(s, i))
            }
        } else {
            Err(byte_pos(s, i))
        }
    }
}

/// The tokens of expression source `s`, or the byte offset of the first
/// error.
pub open spec fn tokens_of(s: Seq<char>) -> Result<Seq<TokM>, usize> {
    tok_from(s, 0, Seq::empty())
}

/// Token `p` of `t`.
pub open spec fn tok_at(t: Seq<TokM>, p: int) -> Option<TokM> {
    if 0 <= p < t.len() {
        Some(t[p])
    } else {
        None
    }
}

/// The comparison operator token `p` is, if any.
pub open spec fn rel_op_at(t: Seq<TokM>, p: int) -> Option<Op> {
    match tok_at(t, p) {
        Some(TokM::Op(op)) => if op == Op::Eq || op == Op::Ne || op == Op::Lt || op == Op::Gt || op
            == Op::Le || op == Op::Ge || op == Op::In {
            Some(op)
        } else {
            None
        },
        _ => None,
    }
}

/// The additive operator token `p` is, if any.
pub open spec fn add_op_at(t: Seq<TokM>, p: int) -> Option<Op> {
    match tok_at(t, p) {
        Some(TokM::Op(Op::Add)) => Some(Op::Add),
        Some(TokM::Minus) => Some(Op::Sub),
        Some(TokM::Op(Op::Concat)) => Some(Op::Concat),
        _ => None,
    }
}

/// The multiplicative operator token `p` is, if any.
pub open spec fn mul_op_at(t: Seq<TokM>, p: int) -> Option<Op> {
    match tok_at(t, p) {
        Some(TokM::Op(Op::Mul)) => Some(Op::Mul),
        Some(TokM::Op(Op::Div)) => Some(Op::Div),
        _ => None,
    }
}

/// A parse result that moved forward from `p` and stayed within `t`.
pub open spec fn advanced(t: Seq<TokM>, p: int, q: int) -> bool {
    p < q <= t.len()
}

/// `a or b or …` from `p`.
pub open spec fn e_or(t: Seq<TokM>, p: int) -> Option<(ExprM, int)>
    decreases t.len() - p, 11int,
{
    match e_and(t, p) {
        Some((l, q)) => if advanced(t, p, q) {
            or_rest(t, q, l)
        } else {
            None
        },
        None => None,
    }
}

/// Further `or` operands after `l`, from `p`.
pub open spec fn or_rest(t: Seq<TokM>, p: int, l: ExprM) -> Option<(ExprM, int)>
    decreases t.len() - p, 0int,
{
    if tok_at(t, p) == Some(TokM::Op(Op::Or)) {
        match e_and(t, p + 1) {
            Some((r, q)) => if advanced(t, p + 1, q) {
                or_rest(t, q, ExprM::Bin(Op::Or, Box::new(l), Box::new(r)))
            } else {
                None
            },
            None => None,
        }
    } else {
        Some((l, p))
    }
}

/// `a and b and …` from `p`.
pub open spec fn e_and(t: Seq<TokM>, p: int) -> Option<(ExprM, int)>
    decreases t.len() - p, 10int,
{
    match e_not(t, p) {
        Some((l, q)) => if advanced(t, p, q) {
            and_rest(t, q, l)
        } else {
            None
        },
        None => None,
    }
}

/// Further `and` operands after `l`, from `p`.
pub open spec fn and_rest(t: Seq<TokM>, p: int, l: ExprM) -> Option<(ExprM, int)>
    decreases t.len() - p, 0int,
{
    if tok_at(t, p) == Some(TokM::Op(Op::And)) {
        match e_not(t, p + 1) {
            Some((r, q)) => if advanced(t, p + 1, q) {
                and_rest(t, q, ExprM::Bin(Op::And, Box::new(l), Box::new(r)))
            } else {
                None
            },
            None => None,
        }
    } else {
        Some((l, p))
    }
}

/// `not …` from `p`.
pub open spec fn e_not(t: Seq<TokM>, p: int) -> Option<(ExprM, int)>
    decreases t.len() - p, 9int,
{
    if tok_at(t, p) == Some(TokM::Not) {
        match e_not(t, p + 1) {
            Some((e, q)) => Some((ExprM::Not(Box::new(e)), q)),
            None => None,
        }
    } else {
        e_test(t, p)
    }
}

/// `x is [not] name[(args)]` from `p`.
pub open spec fn e_test(t: Seq<TokM>, p: int) -> Option<(ExprM, int)>
    decreases t.len() - p, 8int,
{
    match e_rel(t, p) {
        None => None,
        Some((l, q)) => if !advanced(t, p, q) {
            None
        } else {
            test_rest(t, q, l)
        },
    }
}

/// An optional `is [not] name[(args)]` test applied to `l`, from `p`.
pub open spec fn test_rest(t: Seq<TokM>, p: int, l: ExprM) -> Option<(ExprM, int)>
    decreases t.len() - p, 0int,
{
    if tok_at(t, p) == Some(TokM::Is) {
        let neg = tok_at(t, p + 1) == Some(TokM::Not);
        let q2 = if neg {
            p + 2
        } else {
            p + 1
        };
        let name = match tok_at(t, q2) {
            Some(TokM::Ident(n)) => Some(n),
            Some(TokM::NoneTok) => Some("none"@),
            _ => None,
        };
        match name {
            None => None,
            Some(n) => if tok_at(t, q2 + 1) == Some(TokM::LParen) {
                match args_at(t, q2 + 2) {
                    Some((args, q4)) => Some((ExprM::Test(Box::new(l), n, args, neg), q4)),
                    None => None,
                }
            } else {
                Some((ExprM::Test(Box::new(l), n, Seq::empty(), neg), q2 + 1))
            },
        }
    } else {
        Some((l, p))
    }
}

/// Comparisons from `p`.
pub open spec fn e_rel(t: Seq<TokM>, p: int) -> Option<(ExprM, int)>
    decreases t.len() - p, 7int,
{
    match e_add(t, p) {
        Some((l, q)) => if advanced(t, p, q) {
            rel_rest(t, q, l)
        } else {
            None
        },
        None => None,
    }
}

/// Further comparisons after `l`, from `p`.
pub open spec fn rel_rest(t: Seq<TokM>, p: int, l: ExprM) -> Option<(ExprM, int)>
    decreases t.len() - p, 0int,
{
    if tok_at(t, p) == Some(TokM::Not) && tok_at(t, p + 1) == Some(TokM::Op(Op::In)) {
        match e_add(t, p + 2) {
            Some((r, q)) => if advanced(t, p + 2, q) {
                rel_rest(t, q, ExprM::Bin(Op::NotIn, Box::new(l), Box::new(r)))
            } else {
                None
            },
            None => None,
        }
    } else {
        match rel_op_at(t, p) {
            Some(op) => match e_add(t, p + 1) {
                Some((r, q)) => if advanced(t, p + 1, q) {
                    rel_rest(t, q, ExprM::Bin(op, Box::new(l), Box::new(r)))
                } else {
                    None
                },
                None => None,
            },
            None => Some((l, p)),
        }
    }
}

/// Sums and concatenations from `p`.
pub open spec fn e_add(t: Seq<TokM>, p: int) -> Option<(ExprM, int)>
    decreases t.len() - p, 6int,
{
    match e_mul(t, p) {
        Some((l, q)) => if advanced(t, p, q) {
            add_rest(t, q, l)
        } else {
            None
        },
        None => None,
    }
}

/// Further additive operands after `l`, from `p`.
pub open spec fn add_rest(t: Seq<TokM>, p: int, l: ExprM) -> Option<(ExprM, int)>
    decreases t.len() - p, 0int,
{
    match add_op_at(t, p) {
        Some(op) => match e_mul(t, p + 1) {
            Some((r, q)) => if advanced(t, p + 1, q) {
                add_rest(t, q, ExprM::Bin(op, Box::new(l), Box::new(r)))
            } else {
                None
            },
            None => None,
        },
        None => Some((l, p)),
    }
}

/// Products and quotients from `p`.
pub open spec fn e_mul(t: Seq<TokM>, p: int) -> Option<(ExprM, int)>
    decreases t.len() - p, 5int,
{
    match e_unary(t, p) {
        Some((l, q)) => if advanced(t, p, q) {
            mul_rest(t, q, l)
        } else {
            None
        },
        None => None,
    }
}

/// Further multiplicative operands after `l`, from `p`.
pub open spec fn mul_rest(t: Seq<TokM>, p: int, l: ExprM) -> Option<(ExprM, int)>
    decreases t.len() - p, 0int,
{
    match mul_op_at(t, p) {
        Some(op) => match e_unary(t, p + 1) {
            Some((r, q)) => if advanced(t, p + 1, q) {
                mul_rest(t, q, ExprM::Bin(op, Box::new(l), Box::new(r)))
            } else {
                None
            },
            None => None,
        },
        None => Some((l, p)),
    }
}

/// Unary minus from `p`.
pub open spec fn e_unary(t: Seq<TokM>, p: int) -> Option<(ExprM, int)>
    decreases t.len() - p, 4int,
{
    if tok_at(t, p) == Some(TokM::Minus) {
        match e_unary(t, p + 1) {
            Some((e, q)) => Some((ExprM::Neg(Box::new(e)), q)),
            None => None,
        }
    } else {
        e_filter(t, p)
    }
}

/// Filter chains from `p`.
pub open spec fn e_filter(t: Seq<TokM>, p: int) -> Option<(ExprM, int)>
    decreases t.len() - p, 3int,
{
    match e_postfix(t, p) {
        Some((e, q)) => if advanced(t, p, q) {
            filter_rest(t, q, e)
        } else {
            None
        },
        None => None,
    }
}

/// Further `| name[(args)]` filters applied to `e`, from `p`.
pub open spec fn filter_rest(t: Seq<TokM>, p: int, e: ExprM) -> Option<(ExprM, int)>
    decreases t.len() - p, 0int,
{
    if tok_at(t, p) == Some(TokM::Pipe) {
        match tok_at(t, p + 1) {
            Some(TokM::Ident(n)) => if tok_at(t, p + 2) == Some(TokM::LParen) {
                match args_at(t, p + 3) {
                    Some((args, q)) => if advanced(t, p + 3, q) {
                        filter_rest(t, q, ExprM::Filter(Box::new(e), n, args))
                    } else {
                        None
                    },
                    None => None,
                }
            } else {
                filter_rest(t, p + 2, ExprM::Filter(Box::new(e), n, Seq::empty()))
            },
            _ => None,
        }
    } else {
        Some((e, p))
    }
}

/// A primary followed by `.name`, `[index]` and `(args)` suffixes, from `p`.
pub open spec fn e_postfix(t: Seq<TokM>, p: int) -> Option<(ExprM, int)>
    decreases t.len() - p, 2int,
{
    match e_primary(t, p) {
        Some((e, q)) => if advanced(t, p, q) {
            postfix_rest(t, q, e)
        } else {
            None
        },
        None => None,
    }
}

/// Further suffixes applied to `e`, from `p`.
pub open spec fn postfix_rest(t: Seq<TokM>, p: int, e: ExprM) -> Option<(ExprM, int)>
    decreases t.len() - p, 0int,
{
    match tok_at(t, p) {
        Some(TokM::Dot) => match tok_at(t, p + 1) {
            Some(TokM::Ident(n)) => postfix_rest(t, p + 2, ExprM::Get(Box::new(e), n)),
            _ => None,
        },
        Some(TokM::LBracket) => match e_or(t, p + 1) {
            Some((i, q)) => if advanced(t, p + 1, q) && tok_at(t, q) == Some(TokM::RBracket) {
                postfix_rest(t, q + 1, ExprM::Index(Box::new(e), Box::new(i)))
            } else {
                None
            },
            None => None,
        },
        Some(TokM::LParen) => match args_at(t, p + 1) {
            Some((args, q)) => if advanced(t, p + 1, q) {
                postfix_rest(t, q, ExprM::Call(Box::new(e), args))
            } else {
                None
            },
            None => None,
        },
        _ => Some((e, p)),
    }
}

/// An argument list from `p` (just after `(`), through its `)`.
pub open spec fn args_at(t: Seq<TokM>, p: int) -> Option<(Seq<ArgM>, int)>
    decreases t.len() - p, 13int,
{
    if tok_at(t, p) == Some(TokM::RParen) {
        Some((Seq::empty(), p + 1))
    } else {
        args_loop(t, p, Seq::empty())
    }
}

/// The remaining arguments from `p`, after the arguments `acc`.
pub open spec fn args_loop(t: Seq<TokM>, p: int, acc: Seq<ArgM>) -> Option<(Seq<ArgM>, int)>
    decreases t.len() - p, 12int,
{
    let kw = match tok_at(t, p) {
        Some(TokM::Ident(n)) => if tok_at(t, p + 1) == Some(TokM::Assign) {
            Some(n)
        } else {
            None
        },
        _ => None,
    };
    let p2 = if kw is Some {
        p + 2
    } else {
        p
    };
    if !(0 <= p <= t.len()) {
        None
    } else {
        match e_or(t, p2) {
            Some((v, q)) => if !advanced(t, p2, q) {
                None
            } else if tok_at(t, q) == Some(TokM::Comma) {
                args_loop(t, q + 1, acc.push(ArgM { name: kw, value: v }))
            } else if tok_at(t, q) == Some(TokM::RParen) {
                Some((acc.push(ArgM { name: kw, value: v }), q + 1))
            } else {
                None
            },
            None => None,
        }
    }
}

/// A literal, variable, parenthesised expression or list from `p`.
pub open spec fn e_primary(t: Seq<TokM>, p: int) -> Option<(ExprM, int)>
    decreases t.len() - p, 1int,
{
    match tok_at(t, p) {
        Some(TokM::Ident(n)) => Some((ExprM::Var(n), p + 1)),
        Some(TokM::Str(s)) => Some((ExprM::Str(s), p + 1)),
        Some(TokM::Num(s)) => Some((ExprM::Num(s), p + 1)),
        Some(TokM::Bool(b)) => Some((ExprM::Bool(b), p + 1)),
        Some(TokM::NoneTok) => Some((ExprM::NoneLit, p + 1)),
        Some(TokM::LParen) => match e_or(t, p + 1) {
            Some((e, q)) => if advanced(t, p + 1, q) && tok_at(t, q) == Some(TokM::RParen) {
                Some((e, q + 1))
            } else {
                None
            },
            None => None,
        },
        Some(TokM::LBracket) => if tok_at(t, p + 1) == Some(TokM::RBracket) {
            Some((ExprM::List(Seq::empty()), p + 2))
        } else {
            list_loop(t, p + 1, Seq::empty())
        },
        _ => None,
    }
}

/// The remaining list elements from `p`, after the elements `acc`.
pub open spec fn list_loop(t: Seq<TokM>, p: int, acc: Seq<ExprM>) -> Option<(ExprM, int)>
    decreases t.len() - p, 12int,
{
    if !(0 <= p <= t.len()) {
        None
    } else {
        match e_or(t, p) {
            Some((e, q)) => if !advanced(t, p, q) {
                None
            } else if tok_at(t, q) == Some(TokM::Comma) {
                if tok_at(t, q + 1) == Some(TokM::RBracket) {
                    Some((ExprM::List(acc.push(e)), q + 2))
                } else {
                    list_loop(t, q + 1, acc.push(e))
                }
            } else if tok_at(t, q) == Some(TokM::RBracket) {
                Some((ExprM::List(acc.push(e)), q + 1))
            } else {
                None
            },
            None => None,
        }
    }
}

proof fn lemma_var_unary(t: Seq<TokM>, p: int, n: Seq<char>)
    requires
        0 <= p,
        tok_at(t, p) == Some(TokM::Ident(n)),
        !(tok_at(t, p + 1) matches Some(TokM::Dot)),
        !(tok_at(t, p + 1) matches Some(TokM::LBracket)),
        !(tok_at(t, p + 1) matches Some(TokM::LParen)),
        tok_at(t, p + 1) != Some(TokM::Pipe),
    ensures
        e_unary(t, p) == Some((ExprM::Var(n), p + 1)),
{
    assert(e_primary(t, p) == Some((ExprM::Var(n), p + 1)));
    assert(postfix_rest(t, p + 1, ExprM::Var(n)) == Some((ExprM::Var(n), p + 1)));
    assert(e_postfix(t, p) == Some((ExprM::Var(n), p + 1)));
    assert(filter_rest(t, p + 1, ExprM::Var(n)) == Some((ExprM::Var(n), p + 1)));
    assert(e_filter(t, p) == Some((ExprM::Var(n), p + 1)));
}

/// The last of three tokens: a variable that ends the sequence parses to
/// itself at every level up to `and`.
proof fn lemma_var_end_and(t: Seq<TokM>, p: int, n: Seq<char>)
    requires
        0 <= p,
        p + 1 == t.len(),
        tok_at(t, p) == Some(TokM::Ident(n)),
    ensures
        e_and(t, p) == Some((ExprM::Var(n), p + 1)),
        e_add(t, p) == Some((ExprM::Var(n), p + 1)),
        e_mul(t, p) == Some((ExprM::Var(n), p + 1)),
        e_not(t, p) == Some((ExprM::Var(n), p + 1)),
{
    let v = ExprM::Var(n);
    lemma_var_unary(t, p, n);
    assert(mul_rest(t, p + 1, v) == Some((v, p + 1)));
    assert(e_mul(t, p) == Some((v, p + 1)));
    assert(add_rest(t, p + 1, v) == Some((v, p + 1)));
    assert(e_add(t, p) == Some((v, p + 1)));
    assert(rel_rest(t, p + 1, v) == Some((v, p + 1)));
    assert(e_rel(t, p) == Some((v, p + 1)));
    assert(test_rest(t, p + 1, v) == Some((v, p + 1)));
    assert(e_test(t, p) == Some((v, p + 1)));
    assert(e_not(t, p) == Some((v, p + 1)));
    assert(and_rest(t, p + 1, v) == Some((v, p + 1)));
}

/// From `e_add` up: with `e_add(t, 0)` ending at the end of `t`, a
/// sequence of three tokens parses to what `e_add` gives, or, when the
/// middle token is a comparison, `and` or `or`, to that operator applied.
proof fn lemma_upper_levels(a: Seq<char>, b: Seq<char>, op: Op)
    requires
        op == Op::Or || op == Op::And || op == Op::Eq || op == Op::Ne || op == Op::Lt || op == Op::Gt
            || op == Op::Le || op == Op::Ge || op == Op::In,
    ensures
        expr_of_tokens(seq![TokM::Ident(a), TokM::Op(op), TokM::Ident(b)]) == Some(
            ExprM::Bin(op, Box::new(ExprM::Var(a)), Box::new(ExprM::Var(b))),
        ),
{
    let va = ExprM::Var(a);
    let vb = ExprM::Var(b);
    let t = seq![TokM::Ident(a), TokM::Op(op), TokM::Ident(b)];
    let bin = ExprM::Bin(op, Box::new(va), Box::new(vb));
    lemma_var_unary(t, 0, a);
    lemma_var_end_and(t, 2, b);
    assert(mul_rest(t, 1, va) == Some((va, 1int)));
    assert(e_mul(t, 0) == Some((va, 1int)));
    assert(add_rest(t, 1, va) == Some((va, 1int)));
    assert(e_add(t, 0) == Some((va, 1int)));
    if op == Op::Or || op == Op::And {
        assert(rel_rest(t, 1, va) == Some((va, 1int)));
        assert(e_rel(t, 0) == Some((va, 1int)));
        assert(test_rest(t, 1, va) == Some((va, 1int)));
        assert(e_test(t, 0) == Some((va, 1int)));
        assert(e_not(t, 0) == Some((va, 1int)));
        if op == Op::And {
            assert(and_rest(t, 3, bin) == Some((bin, 3int)));
            assert(and_rest(t, 1, va) == Some((bin, 3int)));
            assert(e_and(t, 0) == Some((bin, 3int)));
            assert(or_rest(t, 3, bin) == Some((bin, 3int)));
        } else {
            assert(and_rest(t, 1, va) == Some((va, 1int)));
            assert(e_and(t, 0) == Some((va, 1int)));
            assert(or_rest(t, 3, bin) == Some((bin, 3int)));
            assert(or_rest(t, 1, va) == Some((bin, 3int)));
        }
    } else {
        assert(rel_op_at(t, 1) == Some(op));
        assert(rel_rest(t, 3, bin) == Some((bin, 3int)));
        assert(rel_rest(t, 1, va) == Some((bin, 3int)));
        assert(e_rel(t, 0) == Some((bin, 3int)));
        assert(test_rest(t, 3, bin) == Some((bin, 3int)));
        assert(e_test(t, 0) == Some((bin, 3int)));
        assert(e_not(t, 0) == Some((bin, 3int)));
        assert(and_rest(t, 3, bin) == Some((bin, 3int)));
        assert(e_and(t, 0) == Some((bin, 3int)));
        assert(or_rest(t, 3, bin) == Some((bin, 3int)));
    }
    assert(e_or(t, 0) == Some((bin, 3int)));
}

/// The arithmetic operators: `+`, `~`, `*`, `/` (and `-`, a token of its
/// own) between two variables.
proof fn lemma_arith_levels(a: Seq<char>, b: Seq<char>, op: Op, opt: TokM)
    requires
        (opt == TokM::Op(op) && (op == Op::Add || op == Op::Concat || op == Op::Mul || op == Op::Div))
            || (opt == TokM::Minus && op == Op::Sub),
    ensures
        expr_of_tokens(seq![TokM::Ident(a), opt, TokM::Ident(b)]) == Some(
            ExprM::Bin(op, Box::new(ExprM::Var(a)), Box::new(ExprM::Var(b))),
        ),
{
    let va = ExprM::Var(a);
    let vb = ExprM::Var(b);
    let t = seq![TokM::Ident(a), opt, TokM::Ident(b)];
    let bin = ExprM::Bin(op, Box::new(va), Box::new(vb));
    lemma_var_unary(t, 0, a);
    lemma_var_unary(t, 2, b);
    lemma_var_end_and(t, 2, b);
    if op == Op::Mul || op == Op::Div {
        assert(mul_op_at(t, 1) == Some(op));
        assert(mul_rest(t, 3, bin) == Some((bin, 3int)));
        assert(mul_rest(t, 1, va) == Some((bin, 3int)));
        assert(e_mul(t, 0) == Some((bin, 3int)));
        assert(add_rest(t, 3, bin) == Some((bin, 3int)));
    } else {
        assert(mul_rest(t, 1, va) == Some((va, 1int)));
        assert(e_mul(t, 0) == Some((va, 1int)));
        assert(add_op_at(t, 1) == Some(op));
        assert(add_rest(t, 3, bin) == Some((bin, 3int)));
        assert(add_rest(t, 1, va) == Some((bin, 3int)));
    }
    assert(e_add(t, 0) == Some((bin, 3int)));
    assert(rel_rest(t, 3, bin) == Some((bin, 3int)));
    assert(e_rel(t, 0) == Some((bin, 3int)));
    assert(test_rest(t, 3, bin) == Some((bin, 3int)));
    assert(e_test(t, 0) == Some((bin, 3int)));
    assert(e_not(t, 0) == Some((bin, 3int)));
    assert(and_rest(t, 3, bin) == Some((bin, 3int)));
    assert(e_and(t, 0) == Some((bin, 3int)));
    assert(or_rest(t, 3, bin) == Some((bin, 3int)));
    assert(e_or(t, 0) == Some((bin, 3int)));
}

proof fn lemma_not_in_levels(a: Seq<char>, b: Seq<char>)
    ensures
        expr_of_tokens(seq![TokM::Ident(a), TokM::Not, TokM::Op(Op::In), TokM::Ident(b)]) == Some(
            ExprM::Bin(Op::NotIn, Box::new(ExprM::Var(a)), Box::new(ExprM::Var(b))),
        ),
{
    let va = ExprM::Var(a);
    let vb = ExprM::Var(b);
    let t = seq![TokM::Ident(a), TokM::Not, TokM::Op(Op::In), TokM::Ident(b)];
    let bin = ExprM::Bin(Op::NotIn, Box::new(va), Box::new(vb));
    lemma_var_unary(t, 0, a);
    lemma_var_unary(t, 3, b);
    lemma_var_end_and(t, 3, b);
    assert(mul_rest(t, 1, va) == Some((va, 1int)));
    assert(e_mul(t, 0) == Some((va, 1int)));
    assert(add_rest(t, 1, va) == Some((va, 1int)));
    assert(e_add(t, 0) == Some((va, 1int)));
    assert(rel_rest(t, 4, bin) == Some((bin, 4int)));
    assert(rel_rest(t, 1, va) == Some((bin, 4int)));
    assert(e_rel(t, 0) == Some((bin, 4int)));
    assert(test_rest(t, 4, bin) == Some((bin, 4int)));
    assert(e_test(t, 0) == Some((bin, 4int)));
    assert(e_not(t, 0) == Some((bin, 4int)));
    assert(and_rest(t, 4, bin) == Some((bin, 4int)));
    assert(e_and(t, 0) == Some((bin, 4int)));
    assert(or_rest(t, 4, bin) == Some((bin, 4int)));
    assert(e_or(t, 0) == Some((bin, 4int)));
}

/// Each binary operator token builds the operator it names: the tokens
/// `a OP b` (two variables around one operator token, or `not in`) parse to
/// `Bin(op, a, b)`, where `or` gives `Or`, `and` gives `And`, `==`, `!=`,
/// `<`, `>`, `<=`, `>=` and `in` give the comparison they name, `not in`
/// gives `NotIn`, `+` gives `Add`, `-` gives `Sub`, `~` gives `Concat`, `*`
/// gives `Mul` and `/` gives `Div`.
pub proof fn lemma_binary_operator_tokens(a: Seq<char>, b: Seq<char>, op: Op)
    ensures
        (op == Op::Or || op == Op::And || op == Op::Eq || op == Op::Ne || op == Op::Lt || op == Op::Gt
            || op == Op::Le || op == Op::Ge || op == Op::In || op == Op::Add || op == Op::Concat
            || op == Op::Mul || op == Op::Div) ==> expr_of_tokens(
            seq![TokM::Ident(a), TokM::Op(op), TokM::Ident(b)],
        ) == Some(ExprM::Bin(op, Box::new(ExprM::Var(a)), Box::new(ExprM::Var(b)))),
        expr_of_tokens(seq![TokM::Ident(a), TokM::Minus, TokM::Ident(b)]) == Some(
            ExprM::Bin(Op::Sub, Box::new(ExprM::Var(a)), Box::new(ExprM::Var(b))),
        ),
        expr_of_tokens(seq![TokM::Ident(a), TokM::Not, TokM::Op(Op::In), TokM::Ident(b)]) == Some(
            ExprM::Bin(Op::NotIn, Box::new(ExprM::Var(a)), Box::new(ExprM::Var(b))),
        ),
{
    if op == Op::Add || op == Op::Concat || op == Op::Mul || op == Op::Div {
        lemma_arith_levels(a, b, op, TokM::Op(op));
    } else if op == Op::Or || op == Op::And || op == Op::Eq || op == Op::Ne || op == Op::Lt || op == Op::Gt
        || op == Op::Le || op == Op::Ge || op == Op::In {
        lemma_upper_levels(a, b, op);
    }
    lemma_arith_levels(a, b, Op::Sub, TokM::Minus);
    lemma_not_in_levels(a, b);
}

/// `l or r` for any operands: when the tokens from `p` parse (at the `and`
/// level) to `L` up to an `or` token, and the tokens after it to `R` up to a
/// token that is not `or`, the `or` level gives `Bin(Or, L, R)` there.
pub proof fn lemma_or_joins_operands(t: Seq<TokM>, p: int, l: ExprM, q: int, r: ExprM, q2: int)
    requires
        0 <= p,
        e_and(t, p) == Some((l, q)),
        advanced(t, p, q),
        tok_at(t, q) == Some(TokM::Op(Op::Or)),
        e_and(t, q + 1) == Some((r, q2)),
        advanced(t, q + 1, q2),
        tok_at(t, q2) != Some(TokM::Op(Op::Or)),
    ensures
        e_or(t, p) == Some((ExprM::Bin(Op::Or, Box::new(l), Box::new(r)), q2)),
{
    let bin = ExprM::Bin(Op::Or, Box::new(l), Box::new(r));
    assert(or_rest(t, q2, bin) == Some((bin, q2)));
    assert(or_rest(t, q, l) == Some((bin, q2)));
}

/// `l and r` for any operands: when the tokens from `p` parse (at the `not`
/// level) to `L` up to an `and` token, and the tokens after it to `R` up to
/// a token that is not `and`, the `and` level gives `Bin(And, L, R)` there.
pub proof fn lemma_and_joins_operands(t: Seq<TokM>, p: int, l: ExprM, q: int, r: ExprM, q2: int)
    requires
        0 <= p,
        e_not(t, p) == Some((l, q)),
        advanced(t, p, q),
        tok_at(t, q) == Some(TokM::Op(Op::And)),
        e_not(t, q + 1) == Some((r, q2)),
        advanced(t, q + 1, q2),
        tok_at(t, q2) != Some(TokM::Op(Op::And)),
    ensures
        e_and(t, p) == Some((ExprM::Bin(Op::And, Box::new(l), Box::new(r)), q2)),
{
    let bin = ExprM::Bin(Op::And, Box::new(l), Box::new(r));
    assert(and_rest(t, q2, bin) == Some((bin, q2)));
    assert(and_rest(t, q, l) == Some((bin, q2)));
}

/// The expression a whole token sequence forms, if it forms exactly one.
pub open spec fn expr_of_tokens(t: Seq<TokM>) -> Option<ExprM> {
    match e_or(t, 0) {
        Some((e, q)) => if q == t.len() {
            Some(e)
        } else {
            None
        },
        None => None,
    }
}

/// What expression source `s` parses to: `Ok` with the expression, or
/// `Err` (with the byte offset of a bad character when tokenizing fails).
pub open spec fn expression_of(s: Seq<char>) -> Result<ExprM, Option<usize>> {
    match tokens_of(s) {
        Err(p) => Err(Some(p)),
        Ok(t) => match expr_of_tokens(t) {
            Some(e) => Ok(e),
            None => Err(None),
        },
    }
}


proof fn lemma_toks_push(v: Seq<Tok>, x: Tok)
    ensures
        toks_model(v.push(x)) == toks_model(v).push(tok_model(x)),
{
    assert(v.push(x).map_values(|t: Tok| tok_model(t)) =~= v.map_values(|t: Tok| tok_model(t)).push(
        tok_model(x),
    ));
}

fn punct_tok_exec(c: char) -> (r: Option<Tok>)
    ensures
        match punct_tok(c) {
            Some(m) => r matches Some(x) && tok_model(x) == m,
            None => r is None,
        },
{
    if c == '(' {
        Some(Tok::LParen)
    } else if c == ')' {
        Some(Tok::RParen)
    } else if c == '[' {
        Some(Tok::LBracket)
    } else if c == ']' {
        Some(Tok::RBracket)
    } else if c == '.' {
        Some(Tok::Dot)
    } else if c == ',' {
        Some(Tok::Comma)
    } else if c == '+' {
        Some(Tok::Op(Op::Add))
    } else if c == '*' {
        Some(Tok::Op(Op::Mul))
    } else if c == '~' {
        Some(Tok::Op(Op::Concat))
    } else if c == '|' {
        Some(Tok::Pipe)
    } else if c == '/' {
        Some(Tok::Op(Op::Div))
    } else if c == '-' {
        Some(Tok::Minus)
    } else {
        None
    }
}

fn word_tok_exec(s: &Vec<char>, lo: usize, hi: usize) -> (r: Tok)
    requires
        lo <= hi <= s.len(),
    ensures
        tok_model(r) == word_tok(s@.subrange(lo as int, hi as int)),
{
    let sl = s.as_slice();
    if range_is(sl, lo, hi, "and") {
        Tok::Op(Op::And)
    } else if range_is(sl, lo, hi, "or") {
        Tok::Op(Op::Or)
    } else if range_is(sl, lo, hi, "in") {
        Tok::Op(Op::In)
    } else if range_is(sl, lo, hi, "not") {
        Tok::Not
    } else if range_is(sl, lo, hi, "is") {
        Tok::Is
    } else if range_is(sl, lo, hi, "true") || range_is(sl, lo, hi, "True") {
        Tok::Bool(true)
    } else if range_is(sl, lo, hi, "false") || range_is(sl, lo, hi, "False") {
        Tok::Bool(false)
    } else if range_is(sl, lo, hi, "none") || range_is(sl, lo, hi, "None") || range_is(
        sl,
        lo,
        hi,
        "null",
    ) {
        Tok::NoneTok
    } else {
        Tok::Ident(slice_chars(sl, lo, hi))
    }
}

fn unescape_exec(e: char) -> (c: char)
    ensures
        c == unescape(e),
{
    if e == 'n' {
        '\n'
    } else if e == 't' {
        '\t'
    } else if e == 'r' {
        '\r'
    } else {
        e
    }
}

fn str_lit_exec(s: &Vec<char>, start: usize, q: char) -> (r: Option<(Vec<char>, usize)>)
    requires
        start <= s.len(),
    ensures
        match str_lit(s@, start as int, q, Seq::empty()) {
            Some((t, e)) => r matches Some((x, y)) && x@ == t && y == e && start < y <= s.len(),
            None => r is None,
        },
{
    let mut out: Vec<char> = Vec::new();
    let mut i = start;
    while i < s.len()
        invariant
            start <= i <= s.len(),
            str_lit(s@, start as int, q, Seq::empty()) == str_lit(s@, i as int, q, out@),
        decreases s.len() - i,
    {
        let c = s[i];
        if c == q {
            return Some((out, i + 1));
        }
        if c == '\\' && i + 1 < s.len() {
            out.push(unescape_exec(s[i + 1]));
            i = i + 2;
        } else {
            out.push(c);
            i = i + 1;
        }
    }
    None
}

/// Splits expression source into tokens.
pub fn tokenize_expr(s: &Vec<char>) -> (r: Result<Vec<Tok>, TemplateError>)
    ensures
        match tokens_of(s@) {
            Ok(t) => r matches Ok(v) && toks_model(v@) == t,
            Err(p) => r matches Err(TemplateError::Parse { position, .. }) && position == p,
        },
{
    let mut toks: Vec<Tok> = Vec::new();
    let mut i: usize = 0;
    proof {
        assert(toks_model(toks@) =~= Seq::<TokM>::empty());
    }
    while i < s.len()
        invariant
            i <= s.len(),
            tokens_of(s@) == tok_from(s@, i as int, toks_model(toks@)),
        decreases s.len() - i,
    {
        let c = s[i];
        let next_eq = i + 1 < s.len() && s[i + 1] == '=';
        if c == ' ' || c == '\t' || c == '\n' || c == '\r' {
            i = i + 1;
        } else if let Some(t) = punct_tok_exec(c) {
            proof {
                lemma_toks_push(toks@, t);
            }
            toks.push(t);
            i = i + 1;
        } else if c == '=' || c == '<' || c == '>' || c == '!' {
            let t = if c == '=' {
                if next_eq {
                    Tok::Op(Op::Eq)
                } else {
                    Tok::Assign
                }
            } else if c == '<' {
                if next_eq {
                    Tok::Op(Op::Le)
                } else {
                    Tok::Op(Op::Lt)
                }
            } else if c == '>' {
                if next_eq {
                    Tok::Op(Op::Ge)
                } else {
                    Tok::Op(Op::Gt)
                }
            } else {
                if next_eq {
                    Tok::Op(Op::Ne)
                } else {
                    return Err(parse_error("unexpected '!'", byte_offset(s, i)));
                }
            };
            proof {
                lemma_toks_push(toks@, t);
            }
            toks.push(t);
            i = if next_eq {
                i + 2
            } else {
                i + 1
            };
        } else if c == '"' || c == '\'' {
            match str_lit_exec(s, i + 1, c) {
                None => {
                    return Err(parse_error("unterminated string literal", byte_offset(s, i + 1)));
                },
                Some((text, e)) => {
                    let t = Tok::Str(text);
                    proof {
                        lemma_toks_push(toks@, t);
                    }
                    toks.push(t);
                    i = e;
                },
            }
        } else if '0' <= c && c <= '9' {
            let mut e = i + 1;
            while e < s.len() && (('0' <= s[e] && s[e] <= '9') || s[e] == '.')
                invariant
                    i < e <= s.len(),
                    num_lit_end(s@, i + 1) == num_lit_end(s@, e as int),
                decreases s.len() - e,
            {
                e = e + 1;
            }
            if !is_float_literal(s.as_slice(), i, e) {
                return Err(parse_error("invalid number", byte_offset(s, i)));
            }
            let t = Tok::Num(slice_chars(s.as_slice(), i, e));
            proof {
                lemma_toks_push(toks@, t);
            }
            toks.push(t);
            i = e;
        } else if ('a' <= c && c <= 'z') || ('A' <= c && c <= 'Z') || c == '_' {
            let mut e = i + 1;
            while e < s.len() && (('a' <= s[e] && s[e] <= 'z') || ('A' <= s[e] && s[e] <= 'Z') || (
            '0' <= s[e] && s[e] <= '9') || s[e] == '_')
                invariant
                    i < e <= s.len(),
                    ident_end(s@, i + 1) == ident_end(s@, e as int),
                decreases s.len() - e,
            {
                e = e + 1;
            }
            let t = word_tok_exec(s, i, e);
            proof {
                lemma_toks_push(toks@, t);
            }
            toks.push(t);
            i = e;
        } else {
            return Err(parse_error("unexpected character in expression", byte_offset(s, i)));
        }
    }
    Ok(toks)
}


fn perr(msg: &str) -> (e: TemplateError)
    ensures
        e matches TemplateError::Parse { message, position } && message@ == msg@ && position == 0,
{
    TemplateError::parse(msg, 0)
}

proof fn lemma_args_push(v: Seq<Arg>, x: Arg)
    ensures
        args_model(v.push(x)) == args_model(v).push(
            ArgM {
                name: match x.name {
                    Some(n) => Some(n@),
                    None => None,
                },
                value: x.value@,
            },
        ),
{
    assert(v.push(x).drop_last() =~= v);
}

proof fn lemma_exprs_push(v: Seq<Expr>, x: Expr)
    ensures
        exprs_model(v.push(x)) == exprs_model(v).push(x@),
{
    assert(v.push(x).drop_last() =~= v);
}

fn is_or(t: &Vec<Tok>, p: usize) -> (b: bool)
    ensures
        b == (tok_at(toks_model(t@), p as int) == Some(TokM::Op(Op::Or))),
{
    p < t.len() && match &t[p] {
        Tok::Op(o) => *o == Op::Or,
        _ => false,
    }
}

fn is_and(t: &Vec<Tok>, p: usize) -> (b: bool)
    ensures
        b == (tok_at(toks_model(t@), p as int) == Some(TokM::Op(Op::And))),
{
    p < t.len() && match &t[p] {
        Tok::Op(o) => *o == Op::And,
        _ => false,
    }
}

fn is_in(t: &Vec<Tok>, p: usize) -> (b: bool)
    ensures
        b == (tok_at(toks_model(t@), p as int) == Some(TokM::Op(Op::In))),
{
    p < t.len() && match &t[p] {
        Tok::Op(o) => *o == Op::In,
        _ => false,
    }
}

/// The payload-free token with code `k`.
pub open spec fn simple_tok(k: u8) -> TokM {
    if k == 0 {
        TokM::Not
    } else if k == 1 {
        TokM::Is
    } else if k == 2 {
        TokM::LParen
    } else if k == 3 {
        TokM::RParen
    } else if k == 4 {
        TokM::LBracket
    } else if k == 5 {
        TokM::RBracket
    } else if k == 6 {
        TokM::Comma
    } else if k == 7 {
        TokM::Minus
    } else if k == 8 {
        TokM::Pipe
    } else if k == 9 {
        TokM::Assign
    } else {
        TokM::Dot
    }
}

fn is_simple(t: &Vec<Tok>, p: usize, k: u8) -> (b: bool)
    requires
        k <= 10,
    ensures
        b == (tok_at(toks_model(t@), p as int) == Some(simple_tok(k))),
{
    if p >= t.len() {
        return false;
    }
    match &t[p] {
        Tok::Not => k == 0,
        Tok::Is => k == 1,
        Tok::LParen => k == 2,
        Tok::RParen => k == 3,
        Tok::LBracket => k == 4,
        Tok::RBracket => k == 5,
        Tok::Comma => k == 6,
        Tok::Minus => k == 7,
        Tok::Pipe => k == 8,
        Tok::Assign => k == 9,
        Tok::Dot => k == 10,
        _ => false,
    }
}

fn p_or(t: &Vec<Tok>, p: usize) -> (r: Result<(Expr, usize), TemplateError>)
    requires
        p <= t.len(),
    ensures
        match e_or(toks_model(t@), p as int) {
            Some((e, q)) => r matches Ok((x, y)) && x@ == e && y == q,
            None => r matches Err(TemplateError::Parse { .. }),
        },
        r matches Ok((x, y)) ==> p < y <= t.len(),
    decreases t.len() - p, 11int,
{
    let ghost tm = toks_model(t@);
    let (mut l, mut q) = p_and(t, p)?;
    loop
        invariant
            p < q <= t.len(),
            tm == toks_model(t@),
            e_or(tm, p as int) == or_rest(tm, q as int, l@),
        decreases t.len() - q,
    {
        if is_or(t, q) {
            let (r, q2) = p_and(t, q + 1)?;
            l = Expr::Bin(Op::Or, Box::new(l), Box::new(r));
            q = q2;
        } else {
            return Ok((l, q));
        }
    }
}

fn p_and(t: &Vec<Tok>, p: usize) -> (r: Result<(Expr, usize), TemplateError>)
    requires
        p <= t.len(),
    ensures
        match e_and(toks_model(t@), p as int) {
            Some((e, q)) => r matches Ok((x, y)) && x@ == e && y == q,
            None => r matches Err(TemplateError::Parse { .. }),
        },
        r matches Ok((x, y)) ==> p < y <= t.len(),
    decreases t.len() - p, 10int,
{
    let ghost tm = toks_model(t@);
    let (mut l, mut q) = p_not(t, p)?;
    loop
        invariant
            p < q <= t.len(),
            tm == toks_model(t@),
            e_and(tm, p as int) == and_rest(tm, q as int, l@),
        decreases t.len() - q,
    {
        if is_and(t, q) {
            let (r, q2) = p_not(t, q + 1)?;
            l = Expr::Bin(Op::And, Box::new(l), Box::new(r));
            q = q2;
        } else {
            return Ok((l, q));
        }
    }
}

fn p_not(t: &Vec<Tok>, p: usize) -> (r: Result<(Expr, usize), TemplateError>)
    requires
        p <= t.len(),
    ensures
        match e_not(toks_model(t@), p as int) {
            Some((e, q)) => r matches Ok((x, y)) && x@ == e && y == q,
            None => r matches Err(TemplateError::Parse { .. }),
        },
        r matches Ok((x, y)) ==> p < y <= t.len(),
    decreases t.len() - p, 9int,
{
    if is_simple(t, p, 0) {
        let (e, q) = p_not(t, p + 1)?;
        Ok((Expr::Not(Box::new(e)), q))
    } else {
        p_test(t, p)
    }
}

fn p_test(t: &Vec<Tok>, p: usize) -> (r: Result<(Expr, usize), TemplateError>)
    requires
        p <= t.len(),
    ensures
        match e_test(toks_model(t@), p as int) {
            Some((e, q)) => r matches Ok((x, y)) && x@ == e && y == q,
            None => r matches Err(TemplateError::Parse { .. }),
        },
        r matches Ok((x, y)) ==> p < y <= t.len(),
    decreases t.len() - p, 8int,
{
    let (l, q) = p_rel(t, p)?;
    p_test_rest(t, q, l)
}

fn p_test_rest(t: &Vec<Tok>, q: usize, l: Expr) -> (r: Result<(Expr, usize), TemplateError>)
    requires
        q <= t.len(),
    ensures
        match test_rest(toks_model(t@), q as int, l@) {
            Some((e, y)) => r matches Ok((x, z)) && x@ == e && z == y,
            None => r matches Err(TemplateError::Parse { .. }),
        },
        r matches Ok((x, y)) ==> q <= y <= t.len(),
    decreases t.len() - q, 0int,
{
    if !is_simple(t, q, 1) {
        return Ok((l, q));
    }
    let neg = is_simple(t, q + 1, 0);
    let q2 = if neg {
        q + 2
    } else {
        q + 1
    };
    if q2 >= t.len() {
        return Err(perr("expected test name after 'is'"));
    }
    let name = match &t[q2] {
        Tok::Ident(n) => string_from_chars(n.as_slice()),
        Tok::NoneTok => "none".to_owned(),
        _ => {
            return Err(perr("expected test name after 'is'"));
        },
    };
    if is_simple(t, q2 + 1, 2) {
        let (args, q4) = p_args(t, q2 + 2)?;
        Ok((Expr::Test(Box::new(l), name, args, neg), q4))
    } else {
        let args: Vec<Arg> = Vec::new();
        proof {
            assert(args_model(args@) =~= Seq::<ArgM>::empty());
        }
        Ok((Expr::Test(Box::new(l), name, args, neg), q2 + 1))
    }
}

fn rel_op_exec(t: &Vec<Tok>, p: usize) -> (r: Option<Op>)
    ensures
        r == rel_op_at(toks_model(t@), p as int),
{
    if p >= t.len() {
        return None;
    }
    match &t[p] {
        Tok::Op(o) => {
            let op = *o;
            if op == Op::Eq || op == Op::Ne || op == Op::Lt || op == Op::Gt || op == Op::Le || op
                == Op::Ge || op == Op::In {
                Some(op)
            } else {
                None
            }
        },
        _ => None,
    }
}

#[verifier::spinoff_prover]
#[verifier::rlimit(100)]
fn p_rel(t: &Vec<Tok>, p: usize) -> (r: Result<(Expr, usize), TemplateError>)
    requires
        p <= t.len(),
    ensures
        match e_rel(toks_model(t@), p as int) {
            Some((e, q)) => r matches Ok((x, y)) && x@ == e && y == q,
            None => r matches Err(TemplateError::Parse { .. }),
        },
        r matches Ok((x, y)) ==> p < y <= t.len(),
    decreases t.len() - p, 7int,
{
    let ghost tm = toks_model(t@);
    let (mut l, mut q) = p_add(t, p)?;
    loop
        invariant
            p < q <= t.len(),
            tm == toks_model(t@),
            e_rel(tm, p as int) == rel_rest(tm, q as int, l@),
        decreases t.len() - q,
    {
        if is_simple(t, q, 0) && is_in(t, q + 1) {
            let (r, q2) = p_add(t, q + 2)?;
            l = Expr::Bin(Op::NotIn, Box::new(l), Box::new(r));
            q = q2;
        } else {
            match rel_op_exec(t, q) {
                Some(op) => {
                    let (r, q2) = p_add(t, q + 1)?;
                    l = Expr::Bin(op, Box::new(l), Box::new(r));
                    q = q2;
                },
                None => {
                    return Ok((l, q));
                },
            }
        }
    }
}

fn add_op_exec(t: &Vec<Tok>, p: usize) -> (r: Option<Op>)
    ensures
        r == add_op_at(toks_model(t@), p as int),
{
    if p >= t.len() {
        return None;
    }
    match &t[p] {
        Tok::Op(o) => if *o == Op::Add {
            Some(Op::Add)
        } else if *o == Op::Concat {
            Some(Op::Concat)
        } else {
            None
        },
        Tok::Minus => Some(Op::Sub),
        _ => None,
    }
}

fn p_add(t: &Vec<Tok>, p: usize) -> (r: Result<(Expr, usize), TemplateError>)
    requires
        p <= t.len(),
    ensures
        match e_add(toks_model(t@), p as int) {
            Some((e, q)) => r matches Ok((x, y)) && x@ == e && y == q,
            None => r matches Err(TemplateError::Parse { .. }),
        },
        r matches Ok((x, y)) ==> p < y <= t.len(),
    decreases t.len() - p, 6int,
{
    let ghost tm = toks_model(t@);
    let (mut l, mut q) = p_mul(t, p)?;
    loop
        invariant
            p < q <= t.len(),
            tm == toks_model(t@),
            e_add(tm, p as int) == add_rest(tm, q as int, l@),
        decreases t.len() - q,
    {
        match add_op_exec(t, q) {
            Some(op) => {
                let (r, q2) = p_mul(t, q + 1)?;
                l = Expr::Bin(op, Box::new(l), Box::new(r));
                q = q2;
            },
            None => {
                return Ok((l, q));
            },
        }
    }
}

fn mul_op_exec(t: &Vec<Tok>, p: usize) -> (r: Option<Op>)
    ensures
        r == mul_op_at(toks_model(t@), p as int),
{
    if p >= t.len() {
        return None;
    }
    match &t[p] {
        Tok::Op(o) => if *o == Op::Mul {
            Some(Op::Mul)
        } else if *o == Op::Div {
            Some(Op::Div)
        } else {
            None
        },
        _ => None,
    }
}

fn p_mul(t: &Vec<Tok>, p: usize) -> (r: Result<(Expr, usize), TemplateError>)
    requires
        p <= t.len(),
    ensures
        match e_mul(toks_model(t@), p as int) {
            Some((e, q)) => r matches Ok((x, y)) && x@ == e && y == q,
            None => r matches Err(TemplateError::Parse { .. }),
        },
        r matches Ok((x, y)) ==> p < y <= t.len(),
    decreases t.len() - p, 5int,
{
    let ghost tm = toks_model(t@);
    let (mut l, mut q) = p_unary(t, p)?;
    loop
        invariant
            p < q <= t.len(),
            tm == toks_model(t@),
            e_mul(tm, p as int) == mul_rest(tm, q as int, l@),
        decreases t.len() - q,
    {
        match mul_op_exec(t, q) {
            Some(op) => {
                let (r, q2) = p_unary(t, q + 1)?;
                l = Expr::Bin(op, Box::new(l), Box::new(r));
                q = q2;
            },
            None => {
                return Ok((l, q));
            },
        }
    }
}

fn p_unary(t: &Vec<Tok>, p: usize) -> (r: Result<(Expr, usize), TemplateError>)
    requires
        p <= t.len(),
    ensures
        match e_unary(toks_model(t@), p as int) {
            Some((e, q)) => r matches Ok((x, y)) && x@ == e && y == q,
            None => r matches Err(TemplateError::Parse { .. }),
        },
        r matches Ok((x, y)) ==> p < y <= t.len(),
    decreases t.len() - p, 4int,
{
    if is_simple(t, p, 7) {
        let (e, q) = p_unary(t, p + 1)?;
        Ok((Expr::Neg(Box::new(e)), q))
    } else {
        p_filter(t, p)
    }
}

fn p_filter(t: &Vec<Tok>, p: usize) -> (r: Result<(Expr, usize), TemplateError>)
    requires
        p <= t.len(),
    ensures
        match e_filter(toks_model(t@), p as int) {
            Some((e, q)) => r matches Ok((x, y)) && x@ == e && y == q,
            None => r matches Err(TemplateError::Parse { .. }),
        },
        r matches Ok((x, y)) ==> p < y <= t.len(),
    decreases t.len() - p, 3int,
{
    let ghost tm = toks_model(t@);
    let (mut e, mut q) = p_postfix(t, p)?;
    loop
        invariant
            p < q <= t.len(),
            tm == toks_model(t@),
            e_filter(tm, p as int) == filter_rest(tm, q as int, e@),
        decreases t.len() - q,
    {
        if !is_simple(t, q, 8) {
            return Ok((e, q));
        }
        if q + 1 >= t.len() {
            return Err(perr("expected filter name after '|'"));
        }
        let name = match &t[q + 1] {
            Tok::Ident(n) => string_from_chars(n.as_slice()),
            _ => {
                return Err(perr("expected filter name after '|'"));
            },
        };
        if is_simple(t, q + 2, 2) {
            let (args, q2) = p_args(t, q + 3)?;
            e = Expr::Filter(Box::new(e), name, args);
            q = q2;
        } else {
            let args: Vec<Arg> = Vec::new();
            proof {
                assert(args_model(args@) =~= Seq::<ArgM>::empty());
            }
            e = Expr::Filter(Box::new(e), name, args);
            q = q + 2;
        }
    }
}

#[verifier::rlimit(60)]
fn p_postfix(t: &Vec<Tok>, p: usize) -> (r: Result<(Expr, usize), TemplateError>)
    requires
        p <= t.len(),
    ensures
        match e_postfix(toks_model(t@), p as int) {
            Some((e, q)) => r matches Ok((x, y)) && x@ == e && y == q,
            None => r matches Err(TemplateError::Parse { .. }),
        },
        r matches Ok((x, y)) ==> p < y <= t.len(),
    decreases t.len() - p, 2int,
{
    let ghost tm = toks_model(t@);
    let (mut e, mut q) = p_primary(t, p)?;
    loop
        invariant
            p < q <= t.len(),
            tm == toks_model(t@),
            e_postfix(tm, p as int) == postfix_rest(tm, q as int, e@),
        decreases t.len() - q,
    {
        if is_simple(t, q, 10) {
            if q + 1 >= t.len() {
                return Err(perr("expected field name after '.'"));
            }
            let name = match &t[q + 1] {
                Tok::Ident(n) => string_from_chars(n.as_slice()),
                _ => {
                    return Err(perr("expected field name after '.'"));
                },
            };
            e = Expr::Get(Box::new(e), name);
            q = q + 2;
        } else if is_simple(t, q, 4) {
            let (idx, q2) = p_or(t, q + 1)?;
            if !is_simple(t, q2, 5) {
                return Err(perr("expected ']'"));
            }
            e = Expr::Index(Box::new(e), Box::new(idx));
            q = q2 + 1;
        } else if is_simple(t, q, 2) {
            let (args, q2) = p_args(t, q + 1)?;
            e = Expr::Call(Box::new(e), args);
            q = q2;
        } else {
            return Ok((e, q));
        }
    }
}

fn p_args(t: &Vec<Tok>, p: usize) -> (r: Result<(Vec<Arg>, usize), TemplateError>)
    requires
        p <= t.len(),
    ensures
        match args_at(toks_model(t@), p as int) {
            Some((a, q)) => r matches Ok((x, y)) && args_model(x@) == a && y == q,
            None => r matches Err(TemplateError::Parse { .. }),
        },
        r matches Ok((x, y)) ==> p < y <= t.len(),
    decreases t.len() - p, 13int,
{
    let ghost tm = toks_model(t@);
    let mut args: Vec<Arg> = Vec::new();
    proof {
        assert(args_model(args@) =~= Seq::<ArgM>::empty());
    }
    if is_simple(t, p, 3) {
        return Ok((args, p + 1));
    }
    let mut pos = p;
    loop
        invariant
            p <= pos <= t.len(),
            tm == toks_model(t@),
            args_at(tm, p as int) == args_loop(tm, pos as int, args_model(args@)),
        decreases t.len() - pos,
    {
        let mut name: Option<String> = None;
        let mut p2 = pos;
        if pos < t.len() && is_simple(t, pos + 1, 9) {
            if let Tok::Ident(n) = &t[pos] {
                name = Some(string_from_chars(n.as_slice()));
                p2 = pos + 2;
            }
        }
        let (value, q) = p_or(t, p2)?;
        let a = Arg { name, value };
        proof {
            lemma_args_push(args@, a);
        }
        args.push(a);
        if is_simple(t, q, 6) {
            pos = q + 1;
        } else if is_simple(t, q, 3) {
            return Ok((args, q + 1));
        } else {
            return Err(perr("expected ',' or ')' in argument list"));
        }
    }
}

fn p_primary(t: &Vec<Tok>, p: usize) -> (r: Result<(Expr, usize), TemplateError>)
    requires
        p <= t.len(),
    ensures
        match e_primary(toks_model(t@), p as int) {
            Some((e, q)) => r matches Ok((x, y)) && x@ == e && y == q,
            None => r matches Err(TemplateError::Parse { .. }),
        },
        r matches Ok((x, y)) ==> p < y <= t.len(),
    decreases t.len() - p, 1int,
{
    let ghost tm = toks_model(t@);
    if p >= t.len() {
        return Err(perr("unexpected end of expression"));
    }
    match &t[p] {
        Tok::Ident(n) => Ok((Expr::Var(string_from_chars(n.as_slice())), p + 1)),
        Tok::Str(n) => Ok((Expr::Str(string_from_chars(n.as_slice())), p + 1)),
        Tok::Num(n) => Ok((Expr::Num(string_from_chars(n.as_slice())), p + 1)),
        Tok::Bool(b) => Ok((Expr::Bool(*b), p + 1)),
        Tok::NoneTok => Ok((Expr::NoneLit, p + 1)),
        Tok::LParen => {
            let (e, q) = p_or(t, p + 1)?;
            if !is_simple(t, q, 3) {
                return Err(perr("expected ')'"));
            }
            Ok((e, q + 1))
        },
        Tok::LBracket => {
            if is_simple(t, p + 1, 5) {
                let items: Vec<Expr> = Vec::new();
                proof {
                    assert(exprs_model(items@) =~= Seq::<ExprM>::empty());
                }
                return Ok((Expr::List(items), p + 2));
            }
            p_list(t, p + 1)
        },
        _ => Err(perr("unexpected token in expression")),
    }
}

fn p_list(t: &Vec<Tok>, p: usize) -> (r: Result<(Expr, usize), TemplateError>)
    requires
        p <= t.len(),
    ensures
        match list_loop(toks_model(t@), p as int, Seq::empty()) {
            Some((e, q)) => r matches Ok((x, y)) && x@ == e && y == q,
            None => r matches Err(TemplateError::Parse { .. }),
        },
        r matches Ok((x, y)) ==> p < y <= t.len(),
    decreases t.len() - p, 12int,
{
    let ghost tm = toks_model(t@);
    let mut items: Vec<Expr> = Vec::new();
    proof {
        assert(exprs_model(items@) =~= Seq::<ExprM>::empty());
    }
    let mut pos = p;
    loop
        invariant
            p <= pos <= t.len(),
            tm == toks_model(t@),
            list_loop(tm, p as int, Seq::empty()) == list_loop(tm, pos as int, exprs_model(items@)),
        decreases t.len() - pos,
    {
        let (e, q) = p_or(t, pos)?;
        proof {
            lemma_exprs_push(items@, e);
        }
        items.push(e);
        if is_simple(t, q, 6) {
            if is_simple(t, q + 1, 5) {
                return Ok((Expr::List(items), q + 2));
            }
            pos = q + 1;
        } else if is_simple(t, q, 5) {
            return Ok((Expr::List(items), q + 1));
        } else {
            return Err(perr("expected ',' or ']' in list"));
        }
    }
}

/// Tokenizes and parses one expression.
pub fn parse_expression(src: &Vec<char>) -> (r: Result<Expr, TemplateError>)
    ensures
        match expression_of(src@) {
            Ok(e) => r matches Ok(x) && x@ == e,
            Err(Some(p)) => r matches Err(TemplateError::Parse { position, .. }) && position == p,
            Err(None) => r matches Err(TemplateError::Parse { .. }),
        },
{
    let toks = tokenize_expr(src)?;
    let (e, q) = p_or(&toks, 0)?;
    if q != toks.len() {
        return Err(TemplateError::parse("trailing tokens in expression", q));
    }
    Ok(e)
}

} // verus!
