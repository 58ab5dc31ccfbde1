use std::rc::Rc;

use vstd::prelude::*;
use vstd::string::StringExecFns;

use crate::text::{lemma_text_of, text_is_function, text_of};
use crate::token::{Literal, Token};

verus! {

/// Expressions of Lox.
#[derive(Debug)]
pub enum Expr {
    Binary { left: Box<Expr>, operator: Rc<Token>, right: Box<Expr> },
    Grouping(Box<Expr>),
    Literal(Literal),
    Variable(Rc<Token>),
    Unary { operator: Rc<Token>, right: Box<Expr> },
}

/// `n` spaces.
pub open spec fn pad(n: nat) -> Seq<char>
    decreases n,
{
    if n == 0 {
        Seq::empty()
    } else {
        pad((n - 1) as nat) + " "@
    }
}

/// The number of nesting levels of an expression.
pub open spec fn expr_depth(e: Expr) -> nat
    decreases e,
{
    match e {
        Expr::Binary { left, right, .. } => {
            let l = expr_depth(*left);
            let r = expr_depth(*right);
            1 + if l < r { r } else { l }
        },
        Expr::Grouping(inner) => 1 + expr_depth(*inner),
        Expr::Unary { right, .. } => 1 + expr_depth(*right),
        Expr::Literal(_) => 0,
        Expr::Variable(_) => 0,
    }
}

/// The indented tree of `e`: each node on a line of its own, padded by its
/// depth below `indent`, literals and variables shown by the given printers.
/// After a binary node's operands, each of them is followed by the node's
/// padding.
pub open spec fn pretty_text<L, T>(show_literal: L, show_token: T, e: Expr, indent: nat) -> Seq<char> where
    L: Fn(&Literal) -> String,
    T: Fn(&Token) -> String,

    decreases e,
{
    let p = pad(indent);
    match e {
        Expr::Binary { left, operator, right } => p + "Binary("@ + operator.lexeme@ + ")\n"@
            + pretty_text(show_literal, show_token, *left, indent + 1) + p + "\n"@
            + pretty_text(show_literal, show_token, *right, indent + 1) + p,
        Expr::Literal(literal) => p + "Literal"@ + text_of(show_literal, literal),
        Expr::Variable(var) => p + "Variable"@ + text_of(show_token, *var),
        Expr::Unary { operator, right } => p + "Unary("@ + operator.lexeme@ + ")\n"@
            + pretty_text(show_literal, show_token, *right, indent + 1),
        Expr::Grouping(inner) => p + "Group\n"@ + pretty_text(show_literal, show_token, *inner, indent + 1),
    }
}

/// `n` spaces, as a new string.
fn pad_text(n: usize) -> (r: String)
    ensures
        r@ == pad(n as nat),
{
    let mut s = String::new();
    let mut i: usize = 0;
    while i < n
        invariant
            i <= n,
            s@ == pad(i as nat),
        decreases n - i,
    {
        s.append(" ");
        i = i + 1;
    }
    s
}

/// Pretty-prints an expression as an indented tree, `indent` spaces in at
/// the top; `show_literal` and `show_token` give the text of a literal and
/// of a variable's token.
pub fn pretty_expr<L, T>(expr: &Expr, indent: usize, show_literal: &L, show_token: &T) -> (r: String) where
    L: Fn(&Literal) -> String,
    T: Fn(&Token) -> String,

    requires
        indent + expr_depth(*expr) <= usize::MAX,
        forall|l: &Literal| call_requires(*show_literal, (l,)),
        forall|t: &Token| call_requires(*show_token, (t,)),
        text_is_function::<Literal, L>(*show_literal),
        text_is_function::<Token, T>(*show_token),
    ensures
        r@ == pretty_text(*show_literal, *show_token, *expr, indent as nat),
    decreases expr,
{
    let mut out = pad_text(indent);
    match expr {
        Expr::Binary { left, operator, right } => {
            let left_text = pretty_expr(&**left, indent + 1, show_literal, show_token);
            let right_text = pretty_expr(&**right, indent + 1, show_literal, show_token);
            let p = pad_text(indent);
            out.append("Binary(");
            out.append(operator.lexeme.as_str());
            out.append(")\n");
            out.append(left_text.as_str());
            out.append(p.as_str());
            out.append("\n");
            out.append(right_text.as_str());
            out.append(p.as_str());
        },
        Expr::Literal(literal) => {
            let text = show_literal(literal);
            proof {
                lemma_text_of(*show_literal, *literal, text);
            }
            out.append("Literal");
            out.append(text.as_str());
        },
        Expr::Variable(var) => {
            let token: &Token = &**var;
            let text = show_token(token);
            proof {
                lemma_text_of(*show_token, *token, text);
            }
            out.append("Variable");
            out.append(text.as_str());
        },
        Expr::Unary { operator, right } => {
            let right_text = pretty_expr(&**right, indent + 1, show_literal, show_token);
            out.append("Unary(");
            out.append(operator.lexeme.as_str());
            out.append(")\n");
            out.append(right_text.as_str());
        },
        Expr::Grouping(inner) => {
            let inner_text = pretty_expr(&**inner, indent + 1, show_literal, show_token);
            out.append("Group\n");
            out.append(inner_text.as_str());
        },
    }
    out
}

} // verus!
