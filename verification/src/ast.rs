//! The syntax tree: the in-memory representation of one parsed input line.
//!
//! `Expr` is a closed set of variants; every non-leaf node exclusively owns
//! its children, so a tree is finite and acyclic by construction. `ExprV` is
//! the mathematical image of a tree (strings as `Seq<char>`, argument lists
//! as `Seq<ExprV>`), used by all contracts.

use vstd::prelude::*;

verus! {

/// The four arithmetic operators of the language.
#[derive(Clone, Copy, Debug, PartialEq, Eq, Structural)]
pub enum BinOp {
    Add,
    Sub,
    Mul,
    Div,
}

/// A command node: a bare word naming an executable, followed by one or
/// more argument expressions.
#[derive(Debug, PartialEq)]
pub struct Cmd {
    pub cmd: String,
    pub args: Vec<Expr>,
}

/// One parsed expression.
#[derive(Debug, PartialEq)]
pub enum Expr {
    /// An unsigned 64-bit integer literal.
    UInt64(u64),
    /// A string literal (the text between the delimiters).
    Str(String),
    /// A variable reference.
    Iden(String),
    /// `iden arg1 arg2 ... argN`: invocation of an external process.
    Cmd(Cmd),
    /// `left op right`.
    BinOp(BinOp, Box<Expr>, Box<Expr>),
    /// `if predicate ... `: predicate, taken-if-true branch, taken-if-false branch.
    Cond(Box<Expr>, Box<Expr>, Box<Expr>),
    /// `let iden = expr`.
    Assign(String, Box<Expr>),
}

/// The mathematical model of an expression tree.
pub enum ExprV {
    UInt64(u64),
    Str(Seq<char>),
    Iden(Seq<char>),
    Cmd(Seq<char>, Seq<ExprV>),
    BinOp(BinOp, Box<ExprV>, Box<ExprV>),
    Cond(Box<ExprV>, Box<ExprV>, Box<ExprV>),
    Assign(Seq<char>, Box<ExprV>),
}

impl Expr {
    /// The model of this tree: strings become character sequences and
    /// argument vectors become sequences.
    pub open spec fn view(self) -> ExprV
        decreases self,
    {
        match self {
            Expr::UInt64(u) => ExprV::UInt64(u),
            Expr::Str(s) => ExprV::Str(s@),
            Expr::Iden(s) => ExprV::Iden(s@),
            Expr::Cmd(c) => ExprV::Cmd(c.cmd@, view_args(c.args@)),
            Expr::BinOp(op, l, r) => ExprV::BinOp(op, Box::new((*l).view()), Box::new((*r).view())),
            Expr::Cond(p, t, e) => ExprV::Cond(
                Box::new((*p).view()),
                Box::new((*t).view()),
                Box::new((*e).view()),
            ),
            Expr::Assign(n, e) => ExprV::Assign(n@, Box::new((*e).view())),
        }
    }
}

/// The models of a sequence of argument expressions, in order.
pub open spec fn view_args(args: Seq<Expr>) -> Seq<ExprV>
    decreases args,
{
    if args.len() == 0 {
        Seq::empty()
    } else {
        view_args(args.drop_last()).push(args.last().view())
    }
}

/// A pushed argument extends the model by the argument's model.
pub proof fn lemma_view_args_push(args: Seq<Expr>, e: Expr)
    ensures
        view_args(args.push(e)) == view_args(args).push(e.view()),
{
    assert(args.push(e).drop_last() =~= args);
    assert(args.push(e).last() == e);
}

/// `view_args` maps each element to its model.
pub proof fn lemma_view_args_len(args: Seq<Expr>)
    ensures
        view_args(args).len() == args.len(),
        forall|i: int| 0 <= i < args.len() ==> view_args(args)[i] == args[i].view(),
    decreases args,
{
    if args.len() > 0 {
        lemma_view_args_len(args.drop_last());
    }
}

} // verus!
