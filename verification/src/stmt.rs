use std::rc::Rc;

use vstd::prelude::*;

use crate::expr::Expr;
use crate::token::Token;

verus! {

/// Statements of Lox.
#[derive(Debug)]
pub enum Stmt {
    Expression(Box<Expr>),
    Print(Box<Expr>),
    Var { name: Rc<Token>, initializer: Option<Box<Expr>> },
    Block(Vec<Stmt>),
}

} // verus!
