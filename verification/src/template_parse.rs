//! Assembling scanned template items into a tree of nodes, and the public
//! [`ChatTemplate`] entry point.

use vstd::prelude::*;

use crate::template::{
    branches_model, exprs_model, names_model, nodes_model, set_target_model, Expr, ExprM, Node,
    NodeM, SetTarget, SetTargetM, TemplateError,
};
use crate::template_expr::{expression_of, parse_expression};
use crate::template_scan::{
    index_of, item_model, items_model, scan, scan_spec, Item, ItemM, Stmt, StmtM,
};
use crate::text::{slice_chars, string_from_chars, trim_chars, trim_ws};

verus! {

/// What ends a block: the end of the template, `endfor`, or `endif` (which
/// also lets `elif` / `else` end it).
#[derive(PartialEq, Eq, Structural, Clone, Copy)]
pub enum Term {
    Top,
    EndFor,
    EndIf,
}

/// `acc` with the trimmed `cur` appended, unless that is empty.
pub open spec fn push_name(acc: Seq<Seq<char>>, cur: Seq<char>) -> Seq<Seq<char>> {
    if trim_ws(cur).len() > 0 {
        acc.push(trim_ws(cur))
    } else {
        acc
    }
}

/// The comma-separated, trimmed, non-empty names of `s[i..]`, after the names
/// `acc` and the pending piece `cur`.
pub open spec fn targets_from(s: Seq<char>, i: int, cur: Seq<char>, acc: Seq<Seq<char>>) -> Seq<
    Seq<char>,
>
    decreases s.len() - i,
{
    if !(0 <= i < s.len()) {
        push_name(acc, cur)
    } else if s[i] == ',' {
        targets_from(s, i + 1, Seq::empty(), push_name(acc, cur))
    } else {
        targets_from(s, i + 1, cur.push(s[i]), acc)
    }
}

/// The loop variables named by a `for` target such as `k, v`.
pub open spec fn loop_targets(s: Seq<char>) -> Seq<Seq<char>> {
    targets_from(s, 0, Seq::empty(), Seq::empty())
}

/// The target a `set` names: `base.attr` or a plain variable.
pub open spec fn set_target_of(name: Seq<char>) -> SetTargetM {
    match index_of(name, '.', 0) {
        Some(k) => SetTargetM::Attr {
            base: trim_ws(name.subrange(0, k)),
            attr: trim_ws(name.subrange(k + 1, name.len() as int)),
        },
        None => SetTargetM::Var(name),
    }
}

/// Whether statement item `i` is `endfor`.
pub open spec fn is_end_for(items: Seq<ItemM>, i: int) -> bool {
    0 <= i < items.len() && items[i] matches ItemM::Stmt(StmtM::EndFor)
}

/// The nodes of a block starting at item `i` and ending as `term` says,
/// after the nodes `acc`: the nodes and the index of the item that ended
/// the block (not consumed).
pub open spec fn block_at(items: Seq<ItemM>, i: int, term: Term, acc: Seq<NodeM>) -> Option<
    (Seq<NodeM>, int),
>
    decreases items.len() - i, 2int,
{
    if !(0 <= i < items.len()) {
        if term == Term::Top && i >= 0 {
            Some((acc, i))
        } else {
            None
        }
    } else {
        match items[i] {
            ItemM::Stmt(StmtM::EndFor) => if term == Term::EndFor {
                Some((acc, i))
            } else {
                None
            },
            ItemM::Stmt(StmtM::EndIf) | ItemM::Stmt(StmtM::Elif { .. }) | ItemM::Stmt(
                StmtM::Else,
            ) => if term == Term::EndIf {
                Some((acc, i))
            } else {
                None
            },
            ItemM::Stmt(StmtM::If { .. }) => match if_chain_at(items, i) {
                Some((node, j)) => if j <= i || j > items.len() {
                    None
                } else {
                    block_at(items, j, term, acc.push(node))
                },
                None => None,
            },
            ItemM::Stmt(StmtM::For { var, iterable }) => match expression_of(iterable) {
                Err(_) => None,
                Ok(it) => {
                    let targets = loop_targets(var);
                    if targets.len() == 0 {
                        None
                    } else {
                        match block_at(items, i + 1, Term::EndFor, Seq::empty()) {
                            Some((body, j)) => if is_end_for(items, j) && j > i {
                                block_at(
                                    items,
                                    j + 1,
                                    term,
                                    acc.push(NodeM::For { targets, iterable: it, body }),
                                )
                            } else {
                                None
                            },
                            None => None,
                        }
                    }
                },
            },
            ItemM::Stmt(StmtM::Assign { name, expr }) => match expression_of(expr) {
                Ok(v) => block_at(
                    items,
                    i + 1,
                    term,
                    acc.push(NodeM::Assign { target: set_target_of(name), value: v }),
                ),
                Err(_) => None,
            },
            ItemM::Output(e) => match expression_of(e) {
                Ok(v) => block_at(items, i + 1, term, acc.push(NodeM::Output(v))),
                Err(_) => None,
            },
            ItemM::Text(t) => block_at(items, i + 1, term, acc.push(NodeM::Text(t))),
        }
    }
}

/// An `if` chain whose opening `if` is item `i`: the node and the index
/// just past its `endif`.
pub open spec fn if_chain_at(items: Seq<ItemM>, i: int) -> Option<(NodeM, int)>
    decreases items.len() - i, 1int,
{
    if !(0 <= i < items.len()) {
        None
    } else {
        match items[i] {
            ItemM::Stmt(StmtM::If { cond }) => match expression_of(cond) {
                Err(_) => None,
                Ok(e) => match block_at(items, i + 1, Term::EndIf, Seq::empty()) {
                    Some((body, j)) => if j <= i || j > items.len() {
                        None
                    } else {
                        chain_rest(items, j, seq![(e, body)], Seq::empty())
                    },
                    None => None,
                },
            },
            _ => None,
        }
    }
}

/// The rest of an `if` chain from item `j`, after the branches and `else`
/// body collected so far.
pub open spec fn chain_rest(
    items: Seq<ItemM>,
    j: int,
    branches: Seq<(ExprM, Seq<NodeM>)>,
    else_body: Seq<NodeM>,
) -> Option<(NodeM, int)>
    decreases items.len() - j, 0int,
{
    if !(0 <= j < items.len()) {
        None
    } else {
        match items[j] {
            ItemM::Stmt(StmtM::Elif { cond }) => match expression_of(cond) {
                Err(_) => None,
                Ok(e) => match block_at(items, j + 1, Term::EndIf, Seq::empty()) {
                    Some((body, k)) => if k <= j || k > items.len() {
                        None
                    } else {
                        chain_rest(items, k, branches.push((e, body)), else_body)
                    },
                    None => None,
                },
            },
            ItemM::Stmt(StmtM::Else) => match block_at(items, j + 1, Term::EndIf, Seq::empty()) {
                Some((body, k)) => if k <= j || k > items.len() {
                    None
                } else {
                    chain_rest(items, k, branches, body)
                },
                None => None,
            },
            ItemM::Stmt(StmtM::EndIf) => Some(
                (NodeM::If { branches, else_body }, j + 1),
            ),
            _ => None,
        }
    }
}

/// The nodes a whole template's items form, if they form a template.
pub open spec fn template_of_items(items: Seq<ItemM>) -> Option<Seq<NodeM>> {
    match block_at(items, 0, Term::Top, Seq::empty()) {
        Some((nodes, j)) => if j == items.len() {
            Some(nodes)
        } else {
            None
        },
        None => None,
    }
}

/// What template source `s` parses to: the nodes, or `None` for a syntax
/// error.
pub open spec fn template_of(s: Seq<char>) -> Option<Seq<NodeM>> {
    match scan_spec(s) {
        Ok(items) => template_of_items(items),
        Err(_) => None,
    }
}


proof fn lemma_nodes_push(v: Seq<Node>, x: Node)
    ensures
        nodes_model(v.push(x)) == nodes_model(v).push(x@),
{
    assert(v.push(x).drop_last() =~= v);
}

proof fn lemma_branches_push(v: Seq<(Expr, Vec<Node>)>, x: (Expr, Vec<Node>))
    ensures
        branches_model(v.push(x)) == branches_model(v).push((x.0@, nodes_model(x.1@))),
{
    assert(v.push(x).drop_last() =~= v);
}

proof fn lemma_names_push(v: Seq<String>, x: String)
    ensures
        names_model(v.push(x)) == names_model(v).push(x@),
{
    assert(v.push(x).map_values(|n: String| n@) =~= v.map_values(|n: String| n@).push(x@));
}

fn push_target(acc: &mut Vec<String>, cur: &Vec<char>)
    ensures
        names_model(final(acc)@) == push_name(names_model(old(acc)@), cur@),
{
    let t = trim_chars(cur.as_slice());
    if t.len() > 0 {
        let n = string_from_chars(t.as_slice());
        proof {
            lemma_names_push(acc@, n);
        }
        acc.push(n);
    }
}

/// The loop variables of a `for` target.
fn split_targets(var: &Vec<char>) -> (out: Vec<String>)
    ensures
        names_model(out@) == loop_targets(var@),
{
    let mut out: Vec<String> = Vec::new();
    let mut cur: Vec<char> = Vec::new();
    let mut i: usize = 0;
    proof {
        assert(names_model(out@) =~= Seq::<Seq<char>>::empty());
    }
    while i < var.len()
        invariant
            i <= var.len(),
            loop_targets(var@) == targets_from(var@, i as int, cur@, names_model(out@)),
        decreases var.len() - i,
    {
        if var[i] == ',' {
            push_target(&mut out, &cur);
            cur = Vec::new();
        } else {
            cur.push(var[i]);
        }
        i = i + 1;
    }
    push_target(&mut out, &cur);
    out
}

fn set_target(name: &Vec<char>) -> (t: SetTarget)
    ensures
        set_target_model(t) == set_target_of(name@),
{
    let mut k: usize = 0;
    while k < name.len()
        invariant
            k <= name.len(),
            index_of(name@, '.', 0) == index_of(name@, '.', k as int),
        decreases name.len() - k,
    {
        if name[k] == '.' {
            let b = slice_chars(name.as_slice(), 0, k);
            let a = slice_chars(name.as_slice(), k + 1, name.len());
            let base = string_from_chars(trim_chars(b.as_slice()).as_slice());
            let attr = string_from_chars(trim_chars(a.as_slice()).as_slice());
            return SetTarget::Attr { base, attr };
        }
        k = k + 1;
    }
    SetTarget::Var(string_from_chars(name.as_slice()))
}

fn block_err(msg: &str) -> (e: TemplateError)
    ensures
        e matches TemplateError::Parse { .. },
{
    TemplateError::parse(msg, 0)
}

/// Parses the block starting at item `i`; returns its nodes and the index of
/// the item that ended it.
fn parse_block(items: &Vec<Item>, i: usize, term: Term) -> (r: Result<(Vec<Node>, usize), TemplateError>)
    requires
        i <= items.len(),
    ensures
        match block_at(items_model(items@), i as int, term, Seq::empty()) {
            Some((ns, j)) => r matches Ok((v, y)) && nodes_model(v@) == ns && y == j,
            None => r matches Err(TemplateError::Parse { .. }),
        },
        r matches Ok((v, y)) ==> i <= y <= items.len(),
    decreases items.len() - i, 2int,
{
    let ghost im = items_model(items@);
    let mut nodes: Vec<Node> = Vec::new();
    let mut pos = i;
    proof {
        assert(nodes_model(nodes@) =~= Seq::<NodeM>::empty());
    }
    loop
        invariant
            i <= pos <= items.len(),
            im == items_model(items@),
            im.len() == items@.len(),
            block_at(im, i as int, term, Seq::empty()) == block_at(
                im,
                pos as int,
                term,
                nodes_model(nodes@),
            ),
        decreases items.len() - pos,
    {
        if pos >= items.len() {
            if term == Term::Top {
                return Ok((nodes, pos));
            }
            return Err(block_err("missing end of block"));
        }
        proof {
            assert(im[pos as int] == item_model(items@[pos as int]));
        }
        match &items[pos] {
            Item::Stmt(Stmt::EndFor) => {
                if term == Term::EndFor {
                    return Ok((nodes, pos));
                }
                return Err(block_err("unexpected 'endfor'"));
            },
            Item::Stmt(Stmt::EndIf) | Item::Stmt(Stmt::Elif { .. }) | Item::Stmt(Stmt::Else) => {
                if term == Term::EndIf {
                    return Ok((nodes, pos));
                }
                return Err(block_err("unexpected 'endif', 'elif' or 'else'"));
            },
            Item::Stmt(Stmt::If { .. }) => {
                let (node, j) = parse_if_chain(items, pos)?;
                proof {
                    lemma_nodes_push(nodes@, node);
                }
                nodes.push(node);
                pos = j;
            },
            Item::Stmt(Stmt::For { var, iterable }) => {
                let it = parse_expression(iterable)?;
                let targets = split_targets(var);
                if targets.len() == 0 {
                    return Err(block_err("empty for target"));
                }
                let (body, j) = parse_block(items, pos + 1, Term::EndFor)?;
                if !(j < items.len() && match &items[j] {
                    Item::Stmt(Stmt::EndFor) => true,
                    _ => false,
                }) {
                    return Err(block_err("missing 'endfor'"));
                }
                let node = Node::For { targets, iterable: it, body };
                proof {
                    lemma_nodes_push(nodes@, node);
                    assert(im[j as int] == item_model(items@[j as int]));
                }
                nodes.push(node);
                pos = j + 1;
            },
            Item::Stmt(Stmt::Assign { name, expr }) => {
                let value = parse_expression(expr)?;
                let node = Node::Assign { target: set_target(name), value };
                proof {
                    lemma_nodes_push(nodes@, node);
                }
                nodes.push(node);
                pos = pos + 1;
            },
            Item::Output(e) => {
                let value = parse_expression(e)?;
                let node = Node::Output(value);
                proof {
                    lemma_nodes_push(nodes@, node);
                }
                nodes.push(node);
                pos = pos + 1;
            },
            Item::Text(t) => {
                let node = Node::Text(string_from_chars(t.as_slice()));
                proof {
                    lemma_nodes_push(nodes@, node);
                }
                nodes.push(node);
                pos = pos + 1;
            },
        }
    }
}

/// Parses the `if` chain opened by item `i`; returns the node and the index
/// past its `endif`.
fn parse_if_chain(items: &Vec<Item>, i: usize) -> (r: Result<(Node, usize), TemplateError>)
    requires
        i <= items.len(),
    ensures
        match if_chain_at(items_model(items@), i as int) {
            Some((n, j)) => r matches Ok((x, y)) && x@ == n && y == j,
            None => r matches Err(TemplateError::Parse { .. }),
        },
        r matches Ok((x, y)) ==> i < y <= items.len(),
    decreases items.len() - i, 1int,
{
    let ghost im = items_model(items@);
    if i >= items.len() {
        return Err(block_err("expected 'if'"));
    }
    proof {
        assert(im[i as int] == item_model(items@[i as int]));
    }
    let cond = match &items[i] {
        Item::Stmt(Stmt::If { cond }) => cond,
        _ => {
            return Err(block_err("expected 'if'"));
        },
    };
    let e = parse_expression(cond)?;
    let (body, j0) = parse_block(items, i + 1, Term::EndIf)?;
    let mut branches: Vec<(Expr, Vec<Node>)> = Vec::new();
    let mut else_body: Vec<Node> = Vec::new();
    proof {
        lemma_branches_push(branches@, (e, body));
        assert(branches_model(branches@) =~= Seq::<(ExprM, Seq<NodeM>)>::empty());
        assert(nodes_model(else_body@) =~= Seq::<NodeM>::empty());
    }
    branches.push((e, body));
    let mut j = j0;
    loop
        invariant
            i < j <= items.len(),
            im == items_model(items@),
            im.len() == items@.len(),
            if_chain_at(im, i as int) == chain_rest(
                im,
                j as int,
                branches_model(branches@),
                nodes_model(else_body@),
            ),
        decreases items.len() - j,
    {
        if j >= items.len() {
            return Err(block_err("unexpected end inside if block"));
        }
        proof {
            assert(im[j as int] == item_model(items@[j as int]));
        }
        match &items[j] {
            Item::Stmt(Stmt::Elif { cond }) => {
                let e = parse_expression(cond)?;
                let (body, k) = parse_block(items, j + 1, Term::EndIf)?;
                proof {
                    lemma_branches_push(branches@, (e, body));
                }
                branches.push((e, body));
                j = k;
            },
            Item::Stmt(Stmt::Else) => {
                let (body, k) = parse_block(items, j + 1, Term::EndIf)?;
                else_body = body;
                j = k;
            },
            Item::Stmt(Stmt::EndIf) => {
                return Ok((Node::If { branches, else_body }, j + 1));
            },
            _ => {
                return Err(block_err("unexpected token inside if block"));
            },
        }
    }
}

/// A parsed chat template ready to be rendered.
pub struct ChatTemplate {
    nodes: Vec<Node>,
}

impl ChatTemplate {
    /// The template's nodes, as a tree of models.
    pub closed spec fn model(&self) -> Seq<NodeM> {
        nodes_model(self.nodes@)
    }

    /// Parses a chat-template source string.
    pub fn parse(src: &str) -> (r: Result<ChatTemplate, TemplateError>)
        ensures
            match template_of(src@) {
                Some(ns) => r matches Ok(t) && t.model() == ns,
                None => r matches Err(TemplateError::Parse { .. }),
            },
    {
        let items = scan(src)?;
        let (nodes, j) = parse_block(&items, 0, Term::Top)?;
        if j != items.len() {
            return Err(block_err("unexpected token after template end"));
        }
        Ok(ChatTemplate { nodes })
    }

    /// The template's nodes.
    pub fn nodes(&self) -> (n: &Vec<Node>)
        ensures
            nodes_model(n@) == self.model(),
    {
        &self.nodes
    }
}

} // verus!
