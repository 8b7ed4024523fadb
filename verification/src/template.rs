//! Chat templates: the error type, the syntax tree a template parses into,
//! and the mathematical model of that tree.

use vstd::prelude::*;

verus! {

/// Errors that can occur while parsing or rendering a chat template.
#[derive(Debug, Clone, PartialEq, Eq)]
pub enum TemplateError {
    /// A syntax error encountered while parsing the template.
    Parse {
        /// Human-readable description of the problem.
        message: String,
        /// Byte offset into the source where the error was detected.
        position: usize,
    },
    /// A semantic error encountered while rendering (e.g. bad types).
    Render(String),
    /// Reference to a variable that was not present in the context.
    UndefinedVariable(String),
    /// An operation was applied to a value of an incompatible type.
    TypeError(String),
    /// The embedded JSON parser failed to parse a string.
    Json(String),
    /// A template explicitly raised an error via `raise_exception(...)`.
    Exception(String),
}

impl TemplateError {
    /// A [`TemplateError::Parse`] with `message` at byte `position`.
    pub fn parse(message: &str, position: usize) -> (e: Self)
        ensures
            e matches TemplateError::Parse { message: m, position: p } && m@ == message@ && p
                == position,
    {
        TemplateError::Parse { message: message.to_owned(), position }
    }

    /// A [`TemplateError::Render`] with `message`.
    pub fn render(message: &str) -> (e: Self)
        ensures
            e matches TemplateError::Render(m) && m@ == message@,
    {
        TemplateError::Render(message.to_owned())
    }

    /// A [`TemplateError::UndefinedVariable`] naming `name`.
    pub fn undefined_variable(name: &str) -> (e: Self)
        ensures
            e matches TemplateError::UndefinedVariable(m) && m@ == name@,
    {
        TemplateError::UndefinedVariable(name.to_owned())
    }

    /// A [`TemplateError::TypeError`] with `message`.
    pub fn type_error(message: &str) -> (e: Self)
        ensures
            e matches TemplateError::TypeError(m) && m@ == message@,
    {
        TemplateError::TypeError(message.to_owned())
    }

    /// A [`TemplateError::Json`] with `message`.
    pub fn json(message: &str) -> (e: Self)
        ensures
            e matches TemplateError::Json(m) && m@ == message@,
    {
        TemplateError::Json(message.to_owned())
    }

    /// A [`TemplateError::Exception`] with `message` (from `raise_exception`).
    pub fn exception(message: &str) -> (e: Self)
        ensures
            e matches TemplateError::Exception(m) && m@ == message@,
    {
        TemplateError::Exception(message.to_owned())
    }
}

/// Binary operators supported by template expressions.
#[derive(Debug, Clone, Copy, PartialEq, Eq, Structural)]
pub enum Op {
    /// `+` (string concatenation or numeric addition).
    Add,
    /// `~` (always-string concatenation).
    Concat,
    /// `-` (numeric subtraction).
    Sub,
    /// `*` (numeric multiplication).
    Mul,
    /// `/` (numeric division).
    Div,
    /// `==`
    Eq,
    /// `!=`
    Ne,
    /// `<`
    Lt,
    /// `>`
    Gt,
    /// `<=`
    Le,
    /// `>=`
    Ge,
    /// `and`
    And,
    /// `or`
    Or,
    /// `in` (membership test).
    In,
    /// `not in` (negated membership test).
    NotIn,
}

/// A single call/filter/test argument, optionally a `name=value` keyword.
#[derive(Debug)]
pub struct Arg {
    /// The keyword name, if this was passed as `name=value`.
    pub name: Option<String>,
    /// The argument expression.
    pub value: Expr,
}

/// A template expression (right-hand sides of output/set/if/for).
#[derive(Debug)]
pub enum Expr {
    /// A variable reference (`messages`).
    Var(String),
    /// Member access (`a.b`).
    Get(Box<Expr>, String),
    /// Index access (`a['k']` or `a[0]`).
    Index(Box<Expr>, Box<Expr>),
    /// A string literal.
    Str(String),
    /// A numeric literal, as written (digits with at most one `.`).
    Num(String),
    /// A boolean literal.
    Bool(bool),
    /// A `none`/`null` literal.
    NoneLit,
    /// A list literal, e.g. `['user', 'assistant']`.
    List(Vec<Expr>),
    /// A binary operation.
    Bin(Op, Box<Expr>, Box<Expr>),
    /// A unary `not` operation.
    Not(Box<Expr>),
    /// A unary negation.
    Neg(Box<Expr>),
    /// A function or method call, e.g. `namespace(x=1)` or `d.items()`.
    Call(Box<Expr>, Vec<Arg>),
    /// A filter application, e.g. `messages | tojson` or `x | default('y')`.
    Filter(Box<Expr>, String, Vec<Arg>),
    /// An `is` test, e.g. `x is defined`; the flag marks `is not`.
    Test(Box<Expr>, String, Vec<Arg>, bool),
}

/// The left-hand side of a `{% set %}` statement.
#[derive(Debug)]
pub enum SetTarget {
    /// A plain variable, e.g. `{% set x = ... %}`.
    Var(String),
    /// An attribute of a namespace object, e.g. `{% set ns.found = ... %}`.
    Attr { base: String, attr: String },
}

/// One renderable piece of a template.
#[derive(Debug)]
pub enum Node {
    /// Literal text copied verbatim to the output.
    Text(String),
    /// `{{ expr }}` — render the expression's value.
    Output(Expr),
    /// `{% set target = expr %}`.
    Assign { target: SetTarget, value: Expr },
    /// `{% for a, b in iterable %} ... {% endfor %}`; `targets` holds the
    /// loop variable names.
    For { targets: Vec<String>, iterable: Expr, body: Vec<Node> },
    /// `{% if %} / {% elif %} / {% else %}`.
    If { branches: Vec<(Expr, Vec<Node>)>, else_body: Vec<Node> },
}

/// The model of an [`Arg`].
pub struct ArgM {
    pub name: Option<Seq<char>>,
    pub value: ExprM,
}

/// The model of an [`Expr`]: the same tree with text as character sequences.
pub enum ExprM {
    Var(Seq<char>),
    Get(Box<ExprM>, Seq<char>),
    Index(Box<ExprM>, Box<ExprM>),
    Str(Seq<char>),
    Num(Seq<char>),
    Bool(bool),
    NoneLit,
    List(Seq<ExprM>),
    Bin(Op, Box<ExprM>, Box<ExprM>),
    Not(Box<ExprM>),
    Neg(Box<ExprM>),
    Call(Box<ExprM>, Seq<ArgM>),
    Filter(Box<ExprM>, Seq<char>, Seq<ArgM>),
    Test(Box<ExprM>, Seq<char>, Seq<ArgM>, bool),
}

/// The model of a [`SetTarget`].
pub enum SetTargetM {
    Var(Seq<char>),
    Attr { base: Seq<char>, attr: Seq<char> },
}

/// The model of a [`Node`].
pub enum NodeM {
    Text(Seq<char>),
    Output(ExprM),
    Assign { target: SetTargetM, value: ExprM },
    For { targets: Seq<Seq<char>>, iterable: ExprM, body: Seq<NodeM> },
    If { branches: Seq<(ExprM, Seq<NodeM>)>, else_body: Seq<NodeM> },
}

/// The model of an expression.
pub open spec fn expr_model(e: Expr) -> ExprM
    decreases e,
{
    match e {
        Expr::Var(n) => ExprM::Var(n@),
        Expr::Get(b, n) => ExprM::Get(Box::new(expr_model(*b)), n@),
        Expr::Index(b, i) => ExprM::Index(Box::new(expr_model(*b)), Box::new(expr_model(*i))),
        Expr::Str(t) => ExprM::Str(t@),
        Expr::Num(t) => ExprM::Num(t@),
        Expr::Bool(v) => ExprM::Bool(v),
        Expr::NoneLit => ExprM::NoneLit,
        Expr::List(items) => {
            proof {
                assert(decreases_to!(items => items@));
            }
            ExprM::List(exprs_model(items@))
        },
        Expr::Bin(op, l, r) => ExprM::Bin(op, Box::new(expr_model(*l)), Box::new(expr_model(*r))),
        Expr::Not(b) => ExprM::Not(Box::new(expr_model(*b))),
        Expr::Neg(b) => ExprM::Neg(Box::new(expr_model(*b))),
        Expr::Call(b, args) => {
            proof {
                assert(decreases_to!(args => args@));
            }
            ExprM::Call(Box::new(expr_model(*b)), args_model(args@))
        },
        Expr::Filter(b, n, args) => {
            proof {
                assert(decreases_to!(args => args@));
            }
            ExprM::Filter(Box::new(expr_model(*b)), n@, args_model(args@))
        },
        Expr::Test(b, n, args, neg) => {
            proof {
                assert(decreases_to!(args => args@));
            }
            ExprM::Test(Box::new(expr_model(*b)), n@, args_model(args@), neg)
        },
    }
}

/// The models of a sequence of expressions.
pub open spec fn exprs_model(s: Seq<Expr>) -> Seq<ExprM>
    decreases s,
{
    if s.len() == 0 {
        Seq::empty()
    } else {
        exprs_model(s.drop_last()).push(expr_model(s.last()))
    }
}

/// The models of a sequence of arguments.
pub open spec fn args_model(s: Seq<Arg>) -> Seq<ArgM>
    decreases s,
{
    if s.len() == 0 {
        Seq::empty()
    } else {
        proof {
            assert(decreases_to!(s => s[s.len() - 1]));
        }
        args_model(s.drop_last()).push(
            ArgM {
                name: match s.last().name {
                    Some(n) => Some(n@),
                    None => None,
                },
                value: expr_model(s.last().value),
            },
        )
    }
}

impl View for Expr {
    type V = ExprM;

    open spec fn view(&self) -> ExprM {
        expr_model(*self)
    }
}

/// The model of a set target.
pub open spec fn set_target_model(t: SetTarget) -> SetTargetM {
    match t {
        SetTarget::Var(n) => SetTargetM::Var(n@),
        SetTarget::Attr { base, attr } => SetTargetM::Attr { base: base@, attr: attr@ },
    }
}

/// The models of a sequence of names.
pub open spec fn names_model(s: Seq<String>) -> Seq<Seq<char>> {
    s.map_values(|n: String| n@)
}

/// The model of a node.
pub open spec fn node_model(n: Node) -> NodeM
    decreases n,
{
    match n {
        Node::Text(t) => NodeM::Text(t@),
        Node::Output(e) => NodeM::Output(expr_model(e)),
        Node::Assign { target, value } => NodeM::Assign {
            target: set_target_model(target),
            value: expr_model(value),
        },
        Node::For { targets, iterable, body } => {
            proof {
                assert(decreases_to!(body => body@));
            }
            NodeM::For {
                targets: names_model(targets@),
                iterable: expr_model(iterable),
                body: nodes_model(body@),
            }
        },
        Node::If { branches, else_body } => {
            proof {
                assert(decreases_to!(branches => branches@));
                assert(decreases_to!(else_body => else_body@));
            }
            NodeM::If { branches: branches_model(branches@), else_body: nodes_model(else_body@) }
        },
    }
}

/// The models of a sequence of nodes.
pub open spec fn nodes_model(s: Seq<Node>) -> Seq<NodeM>
    decreases s,
{
    if s.len() == 0 {
        Seq::empty()
    } else {
        nodes_model(s.drop_last()).push(node_model(s.last()))
    }
}

/// The models of the branches of an `if` chain.
pub open spec fn branches_model(s: Seq<(Expr, Vec<Node>)>) -> Seq<(ExprM, Seq<NodeM>)>
    decreases s,
{
    if s.len() == 0 {
        Seq::empty()
    } else {
        proof {
            assert(decreases_to!(s => s[s.len() - 1]));
            assert(decreases_to!(s[s.len() - 1] => s[s.len() - 1].1));
            assert(decreases_to!(s[s.len() - 1].1 => s[s.len() - 1].1@));
        }
        branches_model(s.drop_last()).push(
            (expr_model(s.last().0), nodes_model(s.last().1@)),
        )
    }
}

impl View for Node {
    type V = NodeM;

    open spec fn view(&self) -> NodeM {
        node_model(*self)
    }
}

} // verus!
