use std::rc::Rc;

use vstd::prelude::*;

use crate::error::ParserError;
use crate::expr::Expr;
use crate::stmt::Stmt;
use crate::token::{Literal, Token, TokenType, share};

verus! {

// ---------------------------------------------------------------------------
// The grammar, stated over the token sequence and a position in it.
//
//   program     -> declaration* EOF
//   declaration -> "var" IDENTIFIER ( "=" expression )? ";"?  |  statement
//   statement   -> "print" expression ";"  |  expression ";"
//   expression  -> equality
//   equality    -> comparison ( ( "!=" | "==" ) comparison )*
//   comparison  -> term ( ( ">" | ">=" | "<" | "<=" ) term )*
//   term        -> factor ( ( "-" | "+" ) factor )*
//   factor      -> unary ( ( "/" | "*" ) unary )*
//   unary       -> ( "!" | "-" ) unary  |  primary
//   primary     -> "false" | "true" | NUMBER | STRING | IDENTIFIER | "(" expression ")"
//
// A declaration that fails to parse is dropped, and parsing resumes after
// the next `;` or before the next keyword that starts a statement.
// ---------------------------------------------------------------------------

/// The outcome of parsing a phrase from a position: the phrase and the
/// position after it, or the error and the position where it was found.
pub type Parsed<T> = Result<(T, int), (ParserError, int)>;

pub open spec fn kind_at(toks: Seq<Rc<Token>>, p: int) -> TokenType {
    toks[p].ttype
}

pub open spec fn at_end(toks: Seq<Rc<Token>>, p: int) -> bool {
    kind_at(toks, p) == TokenType::EOF
}

/// The token at `p` is not the end and has kind `t`.
pub open spec fn check(toks: Seq<Rc<Token>>, p: int, t: TokenType) -> bool {
    !at_end(toks, p) && kind_at(toks, p) == t
}

/// The position after advancing from `p`: the end is never passed.
pub open spec fn next_pos(toks: Seq<Rc<Token>>, p: int) -> int {
    if at_end(toks, p) { p } else { p + 1 }
}

/// The index of the first `EOF` token at or after `p`, or the length if none.
pub open spec fn eof_index(toks: Seq<Rc<Token>>, p: int) -> int
    decreases toks.len() - p,
{
    if !(0 <= p < toks.len()) {
        toks.len() as int
    } else if at_end(toks, p) {
        p
    } else {
        eof_index(toks, p + 1)
    }
}

/// Parsing from `p` can proceed: an `EOF` token lies ahead.
pub open spec fn tokens_ready(toks: Seq<Rc<Token>>, p: int) -> bool {
    &&& 0 <= p
    &&& eof_index(toks, p) < toks.len()
}

pub open spec fn binary(left: Expr, operator: Rc<Token>, right: Expr) -> Expr {
    Expr::Binary { left: Box::new(left), operator, right: Box::new(right) }
}

/// `consume(t)` at `p`: the token if it has kind `t`, else the error.
pub open spec fn p_consume(toks: Seq<Rc<Token>>, p: int, t: TokenType) -> Parsed<Rc<Token>> {
    if check(toks, p, t) {
        Ok((toks[p], p + 1))
    } else if t != TokenType::Semicolon {
        Err((ParserError::UnterminatedGroup(toks[p]), p))
    } else {
        Err((ParserError::UnterminatedStmt(if p > 0 { toks[p - 1] } else { toks[p] }), p))
    }
}

pub open spec fn is_equality_op(t: TokenType) -> bool {
    t == TokenType::BangEqual || t == TokenType::EqualEqual
}

pub open spec fn is_comparison_op(t: TokenType) -> bool {
    t == TokenType::Greater || t == TokenType::GreaterEqual || t == TokenType::Less || t
        == TokenType::LessEqual
}

pub open spec fn is_term_op(t: TokenType) -> bool {
    t == TokenType::Minus || t == TokenType::Plus
}

pub open spec fn is_factor_op(t: TokenType) -> bool {
    t == TokenType::Slash || t == TokenType::Star
}

pub open spec fn is_unary_op(t: TokenType) -> bool {
    t == TokenType::Bang || t == TokenType::Minus
}

/// The token at `p` is a equality operator.
pub open spec fn equality_op_at(toks: Seq<Rc<Token>>, p: int) -> bool {
    0 <= p < toks.len() && !at_end(toks, p) && is_equality_op(kind_at(toks, p))
}

/// The token at `p` is a comparison operator.
pub open spec fn comparison_op_at(toks: Seq<Rc<Token>>, p: int) -> bool {
    0 <= p < toks.len() && !at_end(toks, p) && is_comparison_op(kind_at(toks, p))
}

/// The token at `p` is a term operator.
pub open spec fn term_op_at(toks: Seq<Rc<Token>>, p: int) -> bool {
    0 <= p < toks.len() && !at_end(toks, p) && is_term_op(kind_at(toks, p))
}

/// The token at `p` is a factor operator.
pub open spec fn factor_op_at(toks: Seq<Rc<Token>>, p: int) -> bool {
    0 <= p < toks.len() && !at_end(toks, p) && is_factor_op(kind_at(toks, p))
}

/// The token at `p` is a unary operator.
pub open spec fn unary_op_at(toks: Seq<Rc<Token>>, p: int) -> bool {
    0 <= p < toks.len() && !at_end(toks, p) && is_unary_op(kind_at(toks, p))
}

pub open spec fn p_expression(toks: Seq<Rc<Token>>, p: int) -> Parsed<Expr>
    decreases toks.len() - p, 13int,
{
    if !(0 <= p < toks.len()) {
        Err((ParserError::UnexpectedToken(toks[p]), p))
    } else {
        p_equality(toks, p)
    }
}

pub open spec fn p_equality(toks: Seq<Rc<Token>>, p: int) -> Parsed<Expr>
    decreases toks.len() - p, 12int,
{
    if !(0 <= p < toks.len()) {
        Err((ParserError::UnexpectedToken(toks[p]), p))
    } else {
        match p_comparison(toks, p) {
            Err(e) => Err(e),
            Ok((left, q)) => if p <= q < toks.len() {
                p_equality_rest(toks, left, q)
            } else {
                Ok((left, q))
            },
        }
    }
}

pub open spec fn p_equality_rest(toks: Seq<Rc<Token>>, left: Expr, p: int) -> Parsed<Expr>
    decreases toks.len() - p, 11int,
{
    if equality_op_at(toks, p) {
        match p_comparison(toks, p + 1) {
            Err(e) => Err(e),
            Ok((right, q)) => if p < q < toks.len() {
                p_equality_rest(toks, binary(left, toks[p], right), q)
            } else {
                Ok((binary(left, toks[p], right), q))
            },
        }
    } else {
        Ok((left, p))
    }
}

pub open spec fn p_comparison(toks: Seq<Rc<Token>>, p: int) -> Parsed<Expr>
    decreases toks.len() - p, 10int,
{
    if !(0 <= p < toks.len()) {
        Err((ParserError::UnexpectedToken(toks[p]), p))
    } else {
        match p_term(toks, p) {
            Err(e) => Err(e),
            Ok((left, q)) => if p <= q < toks.len() {
                p_comparison_rest(toks, left, q)
            } else {
                Ok((left, q))
            },
        }
    }
}

pub open spec fn p_comparison_rest(toks: Seq<Rc<Token>>, left: Expr, p: int) -> Parsed<Expr>
    decreases toks.len() - p, 9int,
{
    if comparison_op_at(toks, p) {
        match p_term(toks, p + 1) {
            Err(e) => Err(e),
            Ok((right, q)) => if p < q < toks.len() {
                p_comparison_rest(toks, binary(left, toks[p], right), q)
            } else {
                Ok((binary(left, toks[p], right), q))
            },
        }
    } else {
        Ok((left, p))
    }
}

pub open spec fn p_term(toks: Seq<Rc<Token>>, p: int) -> Parsed<Expr>
    decreases toks.len() - p, 8int,
{
    if !(0 <= p < toks.len()) {
        Err((ParserError::UnexpectedToken(toks[p]), p))
    } else {
        match p_factor(toks, p) {
            Err(e) => Err(e),
            Ok((left, q)) => if p <= q < toks.len() {
                p_term_rest(toks, left, q)
            } else {
                Ok((left, q))
            },
        }
    }
}

pub open spec fn p_term_rest(toks: Seq<Rc<Token>>, left: Expr, p: int) -> Parsed<Expr>
    decreases toks.len() - p, 7int,
{
    if term_op_at(toks, p) {
        match p_factor(toks, p + 1) {
            Err(e) => Err(e),
            Ok((right, q)) => if p < q < toks.len() {
                p_term_rest(toks, binary(left, toks[p], right), q)
            } else {
                Ok((binary(left, toks[p], right), q))
            },
        }
    } else {
        Ok((left, p))
    }
}

pub open spec fn p_factor(toks: Seq<Rc<Token>>, p: int) -> Parsed<Expr>
    decreases toks.len() - p, 6int,
{
    if !(0 <= p < toks.len()) {
        Err((ParserError::UnexpectedToken(toks[p]), p))
    } else {
        match p_unary(toks, p) {
            Err(e) => Err(e),
            Ok((left, q)) => if p <= q < toks.len() {
                p_factor_rest(toks, left, q)
            } else {
                Ok((left, q))
            },
        }
    }
}

pub open spec fn p_factor_rest(toks: Seq<Rc<Token>>, left: Expr, p: int) -> Parsed<Expr>
    decreases toks.len() - p, 5int,
{
    if factor_op_at(toks, p) {
        match p_unary(toks, p + 1) {
            Err(e) => Err(e),
            Ok((right, q)) => if p < q < toks.len() {
                p_factor_rest(toks, binary(left, toks[p], right), q)
            } else {
                Ok((binary(left, toks[p], right), q))
            },
        }
    } else {
        Ok((left, p))
    }
}

pub open spec fn p_unary(toks: Seq<Rc<Token>>, p: int) -> Parsed<Expr>
    decreases toks.len() - p, 4int,
{
    if !(0 <= p < toks.len()) {
        Err((ParserError::UnexpectedToken(toks[p]), p))
    } else if unary_op_at(toks, p) {
        match p_unary(toks, p + 1) {
            Err(e) => Err(e),
            Ok((right, q)) => Ok((Expr::Unary { operator: toks[p], right: Box::new(right) }, q)),
        }
    } else {
        p_primary(toks, p)
    }
}

pub open spec fn p_primary(toks: Seq<Rc<Token>>, p: int) -> Parsed<Expr>
    decreases toks.len() - p, 3int,
{
    if !(0 <= p < toks.len()) {
        Err((ParserError::UnexpectedToken(toks[p]), p))
    } else if check(toks, p, TokenType::False) {
        Ok((Expr::Literal(Literal::Bool(false)), p + 1))
    } else if check(toks, p, TokenType::True) {
        Ok((Expr::Literal(Literal::Bool(true)), p + 1))
    } else if check(toks, p, TokenType::Number) {
        // A number, string or identifier token hands on the literal of its
        // kind; one that lacks it is refused, once read.
        if toks[p].literal is Number {
            Ok((Expr::Literal(toks[p].literal), p + 1))
        } else {
            Err((ParserError::UnexpectedToken(toks[p]), p + 1))
        }
    } else if check(toks, p, TokenType::String) {
        if toks[p].literal is Str {
            Ok((Expr::Literal(toks[p].literal), p + 1))
        } else {
            Err((ParserError::UnexpectedToken(toks[p]), p + 1))
        }
    } else if check(toks, p, TokenType::Identifier) {
        if toks[p].literal is Identifier {
            Ok((Expr::Variable(toks[p]), p + 1))
        } else {
            Err((ParserError::UnexpectedToken(toks[p]), p + 1))
        }
    } else if check(toks, p, TokenType::LeftParen) {
        match p_expression(toks, p + 1) {
            Err(e) => Err(e),
            Ok((inner, q)) => match p_consume(toks, q, TokenType::RightParen) {
                Err(e) => Err(e),
                Ok((_, r)) => Ok((Expr::Grouping(Box::new(inner)), r)),
            },
        }
    } else {
        Err((ParserError::UnexpectedToken(toks[p]), p))
    }
}

pub open spec fn p_print_statement(toks: Seq<Rc<Token>>, p: int) -> Parsed<Stmt> {
    match p_expression(toks, p) {
        Err(e) => Err(e),
        Ok((value, q)) => match p_consume(toks, q, TokenType::Semicolon) {
            Err(e) => Err(e),
            Ok((_, r)) => Ok((Stmt::Print(Box::new(value)), r)),
        },
    }
}

pub open spec fn p_expression_statement(toks: Seq<Rc<Token>>, p: int) -> Parsed<Stmt> {
    match p_expression(toks, p) {
        Err(e) => Err(e),
        Ok((value, q)) => match p_consume(toks, q, TokenType::Semicolon) {
            Err(e) => Err(e),
            Ok((_, r)) => Ok((Stmt::Expression(Box::new(value)), r)),
        },
    }
}

pub open spec fn p_statement(toks: Seq<Rc<Token>>, p: int) -> Parsed<Stmt> {
    if check(toks, p, TokenType::Print) {
        p_print_statement(toks, p + 1)
    } else {
        p_expression_statement(toks, p)
    }
}

/// A variable declaration: the closing `;` is read when present and not
/// demanded.
pub open spec fn var_stmt(toks: Seq<Rc<Token>>, name: Rc<Token>, initializer: Option<Box<Expr>>, p: int) -> (Stmt, int) {
    (Stmt::Var { name, initializer }, if check(toks, p, TokenType::Semicolon) { p + 1 } else { p })
}

/// A variable declaration after its `var`.
pub open spec fn p_var_declaration(toks: Seq<Rc<Token>>, p: int) -> Parsed<Stmt> {
    match p_consume(toks, p, TokenType::Identifier) {
        Err(e) => Err(e),
        Ok((name, q)) => if check(toks, q, TokenType::Equal) {
            match p_expression(toks, q + 1) {
                Err(e) => Err(e),
                Ok((init, r)) => Ok(var_stmt(toks, name, Some(Box::new(init)), r)),
            }
        } else {
            Ok(var_stmt(toks, name, None, q))
        },
    }
}

/// Keywords before which parsing resumes after an error.
pub open spec fn starts_statement(t: TokenType) -> bool {
    ||| t == TokenType::Class
    ||| t == TokenType::For
    ||| t == TokenType::Fun
    ||| t == TokenType::If
    ||| t == TokenType::Print
    ||| t == TokenType::Return
    ||| t == TokenType::While
    ||| t == TokenType::Var
}

/// From `p` (reached by an advance), the position where parsing resumes:
/// after a `;`, before a statement keyword, or at the end.
pub open spec fn sync_from(toks: Seq<Rc<Token>>, p: int) -> int
    decreases toks.len() - p,
{
    if !(0 < p < toks.len()) || at_end(toks, p) {
        p
    } else if kind_at(toks, p - 1) == TokenType::Semicolon {
        p
    } else if starts_statement(kind_at(toks, p)) {
        p
    } else {
        sync_from(toks, p + 1)
    }
}

/// Where parsing resumes after an error found at `p`.
pub open spec fn synchronize(toks: Seq<Rc<Token>>, p: int) -> int {
    sync_from(toks, next_pos(toks, p))
}

/// The outcome of parsing the declaration at `p`, before any recovery.
pub open spec fn p_declaration_outcome(toks: Seq<Rc<Token>>, p: int) -> Parsed<Stmt> {
    if check(toks, p, TokenType::Var) {
        p_var_declaration(toks, p + 1)
    } else {
        p_statement(toks, p)
    }
}

/// One declaration at `p`: the statement, if it parsed, and where the next
/// declaration starts.
pub open spec fn p_declaration(toks: Seq<Rc<Token>>, p: int) -> (Option<Stmt>, int) {
    match p_declaration_outcome(toks, p) {
        Ok((s, q)) => (Some(s), q),
        Err((_, q)) => (None, synchronize(toks, q)),
    }
}

/// The error of the declaration at `p`, if it fails to parse.
pub open spec fn p_declaration_error(toks: Seq<Rc<Token>>, p: int) -> Option<ParserError> {
    match p_declaration_outcome(toks, p) {
        Ok(_) => None,
        Err((e, _)) => Some(e),
    }
}

pub open spec fn opt_seq<T>(o: Option<T>) -> Seq<T> {
    match o {
        Some(x) => seq![x],
        None => seq![],
    }
}

/// The statements of the program from `p` up to the first `EOF`.
pub open spec fn p_program(toks: Seq<Rc<Token>>, p: int) -> Seq<Stmt>
    decreases toks.len() - p,
{
    if !(0 <= p < toks.len()) || at_end(toks, p) {
        seq![]
    } else {
        let (s, q) = p_declaration(toks, p);
        if p < q <= toks.len() {
            opt_seq(s) + p_program(toks, q)
        } else {
            opt_seq(s)
        }
    }
}

/// The errors of the declarations from `p` up to the first `EOF` that fail to
/// parse, in order: one for each declaration left out of `p_program`.
pub open spec fn p_program_errors(toks: Seq<Rc<Token>>, p: int) -> Seq<ParserError>
    decreases toks.len() - p,
{
    if !(0 <= p < toks.len()) || at_end(toks, p) {
        seq![]
    } else {
        let q = p_declaration(toks, p).1;
        if p < q <= toks.len() {
            opt_seq(p_declaration_error(toks, p)) + p_program_errors(toks, q)
        } else {
            opt_seq(p_declaration_error(toks, p))
        }
    }
}

// ---------------------------------------------------------------------------
// Parsing never passes the first `EOF`, and every phrase that parses reads at
// least one token.
// ---------------------------------------------------------------------------

/// Where a parse from `p` may end when the first `EOF` ahead is at `e`:
/// within `[p, e]`, and strictly after `p` on success if `strict`.
pub open spec fn stays_within<T>(r: Parsed<T>, p: int, e: int, strict: bool) -> bool {
    match r {
        Ok((_, q)) => (if strict { p < q } else { p <= q }) && q <= e,
        Err((_, q)) => p <= q <= e,
    }
}

pub proof fn lemma_eof_basic(toks: Seq<Rc<Token>>, p: int)
    requires
        0 <= p,
        eof_index(toks, p) < toks.len(),
    ensures
        p <= eof_index(toks, p),
        at_end(toks, eof_index(toks, p)),
        forall|k: int| p <= k < eof_index(toks, p) ==> !at_end(toks, k),
    decreases toks.len() - p,
{
    if p < toks.len() && !at_end(toks, p) {
        lemma_eof_basic(toks, p + 1);
    }
}

pub proof fn lemma_eof_index(toks: Seq<Rc<Token>>, p: int, q: int)
    requires
        0 <= p <= q <= eof_index(toks, p),
        eof_index(toks, p) < toks.len(),
    ensures
        eof_index(toks, q) == eof_index(toks, p),
        q < eof_index(toks, p) ==> !at_end(toks, q),
        at_end(toks, eof_index(toks, p)),
        p <= eof_index(toks, p),
    decreases q - p,
{
    lemma_eof_basic(toks, p);
    if p < q {
        lemma_eof_index(toks, p + 1, q);
    }
}

pub proof fn lemma_consume_within(toks: Seq<Rc<Token>>, p: int, t: TokenType)
    requires
        0 <= p,
        eof_index(toks, p) < toks.len(),
    ensures
        stays_within(p_consume(toks, p, t), p, eof_index(toks, p), true),
{
    lemma_eof_basic(toks, p);
}

pub proof fn lemma_expression_within(toks: Seq<Rc<Token>>, p: int)
    requires
        0 <= p,
        eof_index(toks, p) < toks.len(),
    ensures
        stays_within(p_expression(toks, p), p, eof_index(toks, p), true),
    decreases toks.len() - p, 13int,
{
    lemma_equality_within(toks, p);
}

pub proof fn lemma_equality_within(toks: Seq<Rc<Token>>, p: int)
    requires
        0 <= p,
        eof_index(toks, p) < toks.len(),
    ensures
        stays_within(p_equality(toks, p), p, eof_index(toks, p), true),
    decreases toks.len() - p, 12int,
{
    lemma_comparison_within(toks, p);
    match p_comparison(toks, p) {
        Err(_) => {},
        Ok((left, q)) => {
            lemma_eof_index(toks, p, q);
            lemma_equality_rest_within(toks, left, q);
        },
    }
}

pub proof fn lemma_equality_rest_within(toks: Seq<Rc<Token>>, left: Expr, p: int)
    requires
        0 <= p,
        eof_index(toks, p) < toks.len(),
    ensures
        stays_within(p_equality_rest(toks, left, p), p, eof_index(toks, p), false),
    decreases toks.len() - p, 11int,
{
    lemma_eof_basic(toks, p);
    if equality_op_at(toks, p) {
        lemma_eof_index(toks, p, p + 1);
        lemma_comparison_within(toks, p + 1);
        match p_comparison(toks, p + 1) {
            Err(_) => {},
            Ok((right, q)) => {
                lemma_eof_index(toks, p, q);
                lemma_equality_rest_within(toks, binary(left, toks[p], right), q);
            },
        }
    }
}

pub proof fn lemma_comparison_within(toks: Seq<Rc<Token>>, p: int)
    requires
        0 <= p,
        eof_index(toks, p) < toks.len(),
    ensures
        stays_within(p_comparison(toks, p), p, eof_index(toks, p), true),
    decreases toks.len() - p, 10int,
{
    lemma_term_within(toks, p);
    match p_term(toks, p) {
        Err(_) => {},
        Ok((left, q)) => {
            lemma_eof_index(toks, p, q);
            lemma_comparison_rest_within(toks, left, q);
        },
    }
}

pub proof fn lemma_comparison_rest_within(toks: Seq<Rc<Token>>, left: Expr, p: int)
    requires
        0 <= p,
        eof_index(toks, p) < toks.len(),
    ensures
        stays_within(p_comparison_rest(toks, left, p), p, eof_index(toks, p), false),
    decreases toks.len() - p, 9int,
{
    lemma_eof_basic(toks, p);
    if comparison_op_at(toks, p) {
        lemma_eof_index(toks, p, p + 1);
        lemma_term_within(toks, p + 1);
        match p_term(toks, p + 1) {
            Err(_) => {},
            Ok((right, q)) => {
                lemma_eof_index(toks, p, q);
                lemma_comparison_rest_within(toks, binary(left, toks[p], right), q);
            },
        }
    }
}

pub proof fn lemma_term_within(toks: Seq<Rc<Token>>, p: int)
    requires
        0 <= p,
        eof_index(toks, p) < toks.len(),
    ensures
        stays_within(p_term(toks, p), p, eof_index(toks, p), true),
    decreases toks.len() - p, 8int,
{
    lemma_factor_within(toks, p);
    match p_factor(toks, p) {
        Err(_) => {},
        Ok((left, q)) => {
            lemma_eof_index(toks, p, q);
            lemma_term_rest_within(toks, left, q);
        },
    }
}

pub proof fn lemma_term_rest_within(toks: Seq<Rc<Token>>, left: Expr, p: int)
    requires
        0 <= p,
        eof_index(toks, p) < toks.len(),
    ensures
        stays_within(p_term_rest(toks, left, p), p, eof_index(toks, p), false),
    decreases toks.len() - p, 7int,
{
    lemma_eof_basic(toks, p);
    if term_op_at(toks, p) {
        lemma_eof_index(toks, p, p + 1);
        lemma_factor_within(toks, p + 1);
        match p_factor(toks, p + 1) {
            Err(_) => {},
            Ok((right, q)) => {
                lemma_eof_index(toks, p, q);
                lemma_term_rest_within(toks, binary(left, toks[p], right), q);
            },
        }
    }
}

pub proof fn lemma_factor_within(toks: Seq<Rc<Token>>, p: int)
    requires
        0 <= p,
        eof_index(toks, p) < toks.len(),
    ensures
        stays_within(p_factor(toks, p), p, eof_index(toks, p), true),
    decreases toks.len() - p, 6int,
{
    lemma_unary_within(toks, p);
    match p_unary(toks, p) {
        Err(_) => {},
        Ok((left, q)) => {
            lemma_eof_index(toks, p, q);
            lemma_factor_rest_within(toks, left, q);
        },
    }
}

pub proof fn lemma_factor_rest_within(toks: Seq<Rc<Token>>, left: Expr, p: int)
    requires
        0 <= p,
        eof_index(toks, p) < toks.len(),
    ensures
        stays_within(p_factor_rest(toks, left, p), p, eof_index(toks, p), false),
    decreases toks.len() - p, 5int,
{
    lemma_eof_basic(toks, p);
    if factor_op_at(toks, p) {
        lemma_eof_index(toks, p, p + 1);
        lemma_unary_within(toks, p + 1);
        match p_unary(toks, p + 1) {
            Err(_) => {},
            Ok((right, q)) => {
                lemma_eof_index(toks, p, q);
                lemma_factor_rest_within(toks, binary(left, toks[p], right), q);
            },
        }
    }
}

pub proof fn lemma_unary_within(toks: Seq<Rc<Token>>, p: int)
    requires
        0 <= p,
        eof_index(toks, p) < toks.len(),
    ensures
        stays_within(p_unary(toks, p), p, eof_index(toks, p), true),
    decreases toks.len() - p, 4int,
{
    lemma_eof_basic(toks, p);
    if unary_op_at(toks, p) {
        lemma_eof_index(toks, p, p + 1);
        lemma_unary_within(toks, p + 1);
    } else {
        lemma_primary_within(toks, p);
    }
}

pub proof fn lemma_primary_within(toks: Seq<Rc<Token>>, p: int)
    requires
        0 <= p,
        eof_index(toks, p) < toks.len(),
    ensures
        stays_within(p_primary(toks, p), p, eof_index(toks, p), true),
    decreases toks.len() - p, 3int,
{
    lemma_eof_basic(toks, p);
    if check(toks, p, TokenType::LeftParen) {
        lemma_eof_index(toks, p, p + 1);
        lemma_expression_within(toks, p + 1);
        match p_expression(toks, p + 1) {
            Err(_) => {},
            Ok((inner, q)) => {
                lemma_eof_index(toks, p, q);
                lemma_consume_within(toks, q, TokenType::RightParen);
            },
        }
    }
}

pub proof fn lemma_statement_within(toks: Seq<Rc<Token>>, p: int)
    requires
        0 <= p,
        eof_index(toks, p) < toks.len(),
    ensures
        stays_within(p_statement(toks, p), p, eof_index(toks, p), true),
        stays_within(p_var_declaration(toks, p), p, eof_index(toks, p), true),
{
    lemma_eof_basic(toks, p);
    if check(toks, p, TokenType::Print) {
        lemma_eof_index(toks, p, p + 1);
        lemma_expression_within(toks, p + 1);
        if let Ok((_, q)) = p_expression(toks, p + 1) {
            lemma_eof_index(toks, p, q);
            lemma_consume_within(toks, q, TokenType::Semicolon);
        }
    } else {
        lemma_expression_within(toks, p);
        if let Ok((_, q)) = p_expression(toks, p) {
            lemma_eof_index(toks, p, q);
            lemma_consume_within(toks, q, TokenType::Semicolon);
        }
    }
    lemma_consume_within(toks, p, TokenType::Identifier);
    if let Ok((_, q)) = p_consume(toks, p, TokenType::Identifier) {
        lemma_eof_index(toks, p, q);
        if check(toks, q, TokenType::Equal) {
            lemma_eof_index(toks, p, q + 1);
            lemma_expression_within(toks, q + 1);
            if let Ok((_, r)) = p_expression(toks, q + 1) {
                lemma_eof_index(toks, p, r);
            }
        }
    }
}

pub proof fn lemma_sync_from(toks: Seq<Rc<Token>>, p: int, e: int)
    requires
        0 <= p <= e < toks.len(),
        at_end(toks, e),
    ensures
        p <= sync_from(toks, p) <= e,
    decreases toks.len() - p,
{
    if 0 < p < toks.len() && !at_end(toks, p) && kind_at(toks, p - 1) != TokenType::Semicolon
        && !starts_statement(kind_at(toks, p)) {
        lemma_sync_from(toks, p + 1, e);
    }
}

/// A declaration at a token other than the end moves past it and stays
/// before the first `EOF`.
pub proof fn lemma_declaration_advances(toks: Seq<Rc<Token>>, p: int)
    requires
        0 <= p,
        eof_index(toks, p) < toks.len(),
        !at_end(toks, p),
    ensures
        p < p_declaration(toks, p).1 <= eof_index(toks, p),
{
    lemma_eof_basic(toks, p);
    let e = eof_index(toks, p);
    lemma_statement_within(toks, p);
    if check(toks, p, TokenType::Var) {
        lemma_eof_index(toks, p, p + 1);
        lemma_statement_within(toks, p + 1);
    }
    if let Err((_, q)) = p_declaration_outcome(toks, p) {
        lemma_eof_index(toks, p, q);
        lemma_sync_from(toks, next_pos(toks, q), e);
    }
}

/// When no token in `[p, e)` is `EOF` and the token at `e` is, the first
/// `EOF` from `p` is at `e`.
pub proof fn lemma_eof_index_at(toks: Seq<Rc<Token>>, p: int, e: int)
    requires
        0 <= p <= e < toks.len(),
        at_end(toks, e),
        forall|k: int| p <= k < e ==> !at_end(toks, k),
    ensures
        eof_index(toks, p) == e,
    decreases e - p,
{
    if p < e {
        lemma_eof_index_at(toks, p + 1, e);
    }
}

pub proof fn lemma_ready_later(toks: Seq<Rc<Token>>, p: int, q: int)
    requires
        tokens_ready(toks, p),
        p <= q <= eof_index(toks, p),
    ensures
        tokens_ready(toks, q),
        eof_index(toks, q) == eof_index(toks, p),
        q < eof_index(toks, p) ==> !at_end(toks, q),
        at_end(toks, eof_index(toks, p)),
{
    lemma_eof_index(toks, p, q);
}

/// The result of a parse function agrees with the grammar's outcome `g`,
/// and the reading position is where `g` says.
pub open spec fn agrees<T>(r: Result<T, ParserError>, current: usize, g: Parsed<T>) -> bool {
    match g {
        Ok((v, q)) => r == Ok::<T, ParserError>(v) && current == q,
        Err((e, q)) => r == Err::<T, ParserError>(e) && current == q,
    }
}

/// The parser's state: the tokens, each behind a shared pointer, and the
/// reading position.
#[derive(Clone, Debug)]
pub struct Parser {
    pub tokens: Vec<Rc<Token>>,
    pub current: usize,
}

impl Parser {
    /// A parser at the start of `tokens`.
    pub fn new(tokens: Vec<Token>) -> (r: Self)
        ensures
            r.current == 0,
            r.tokens@.len() == tokens@.len(),
            forall|i: int| 0 <= i < tokens@.len() ==> *#[trigger] r.tokens@[i] == tokens@[i],
    {
        let ghost all = tokens@;
        let mut rest = tokens;
        let mut backwards: Vec<Token> = Vec::new();
        while rest.len() > 0
            invariant
                rest@.len() + backwards@.len() == all.len(),
                forall|i: int| 0 <= i < rest@.len() ==> #[trigger] rest@[i] == all[i],
                forall|i: int| 0 <= i < backwards@.len() ==> #[trigger] backwards@[i] == all[all.len() - 1 - i],
            decreases rest@.len(),
        {
            let t = rest.pop().unwrap();
            backwards.push(t);
        }
        let mut shared: Vec<Rc<Token>> = Vec::new();
        while backwards.len() > 0
            invariant
                shared@.len() + backwards@.len() == all.len(),
                forall|i: int| 0 <= i < shared@.len() ==> *#[trigger] shared@[i] == all[i],
                forall|i: int| 0 <= i < backwards@.len() ==> #[trigger] backwards@[i] == all[all.len() - 1 - i],
            decreases backwards@.len(),
        {
            let t = backwards.pop().unwrap();
            shared.push(Rc::new(t));
        }
        Self { tokens: shared, current: 0 }
    }

    fn peek(&self) -> (r: &Rc<Token>)
        requires
            self.current < self.tokens@.len(),
        ensures
            *r == self.tokens@[self.current as int],
    {
        &self.tokens[self.current]
    }

    fn previous(&self) -> (r: &Rc<Token>)
        requires
            0 < self.current <= self.tokens@.len(),
        ensures
            *r == self.tokens@[self.current - 1],
    {
        &self.tokens[self.current - 1]
    }

    fn is_at_end(&self) -> (r: bool)
        requires
            self.current < self.tokens@.len(),
        ensures
            r == at_end(self.tokens@, self.current as int),
    {
        self.peek().ttype == TokenType::EOF
    }

    fn check(&self, t: &TokenType) -> (r: bool)
        requires
            self.current < self.tokens@.len(),
        ensures
            r == check(self.tokens@, self.current as int, *t),
    {
        if self.is_at_end() {
            return false;
        }
        self.peek().ttype == *t
    }

    fn advance(&mut self)
        requires
            old(self).current < old(self).tokens@.len(),
            eof_index(old(self).tokens@, old(self).current as int) < old(self).tokens@.len(),
        ensures
            final(self).tokens == old(self).tokens,
            final(self).current == next_pos(old(self).tokens@, old(self).current as int),
    {
        if !self.is_at_end() {
            proof {
                lemma_eof_basic(self.tokens@, self.current as int);
                assert(self.tokens@.len() == self.tokens.len());
            }
            self.current = self.current + 1;
        }
    }

    /// Reads the next token if its kind is one of `types`.
    fn match_token(&mut self, types: &[TokenType]) -> (r: bool)
        requires
            old(self).current < old(self).tokens@.len(),
            eof_index(old(self).tokens@, old(self).current as int) < old(self).tokens@.len(),
        ensures
            r == (!at_end(old(self).tokens@, old(self).current as int) && types@.contains(
                kind_at(old(self).tokens@, old(self).current as int),
            )),
            final(self).tokens == old(self).tokens,
            final(self).current == if r { old(self).current + 1 } else { old(self).current as int },
    {
        let mut i: usize = 0;
        while i < types.len()
            invariant
                *self == *old(self),
                self.current < self.tokens@.len(),
                eof_index(self.tokens@, self.current as int) < self.tokens@.len(),
                0 <= i <= types@.len(),
                forall|k: int| 0 <= k < i ==> !check(self.tokens@, self.current as int, #[trigger] types@[k]),
            decreases types@.len() - i,
        {
            let t = types[i];
            if self.check(&t) {
                self.advance();
                assert(types@[i as int] == t);
                return true;
            }
            i = i + 1;
        }
        false
    }

    fn consume(&mut self, t: TokenType) -> (r: Result<Rc<Token>, ParserError>)
        requires
            tokens_ready(old(self).tokens@, old(self).current as int),
        ensures
            final(self).tokens == old(self).tokens,
            agrees(r, final(self).current, p_consume(old(self).tokens@, old(self).current as int, t)),
    {
        proof {
            lemma_eof_basic(self.tokens@, self.current as int);
        }
        if self.check(&t) {
            self.advance();
            return Ok(share(self.previous()));
        }
        if t != TokenType::Semicolon {
            return Err(ParserError::UnterminatedGroup(share(self.peek())));
        }
        let token = if self.current > 0 {
            share(self.previous())
        } else {
            share(self.peek())
        };
        Err(ParserError::UnterminatedStmt(token))
    }

    fn expression(&mut self) -> (r: Result<Expr, ParserError>)
        requires
            tokens_ready(old(self).tokens@, old(self).current as int),
        ensures
            final(self).tokens == old(self).tokens,
            agrees(r, final(self).current, p_expression(old(self).tokens@, old(self).current as int)),
        decreases old(self).tokens@.len() - old(self).current, 13int,
    {
        proof {
            lemma_eof_basic(self.tokens@, self.current as int);
        }
        self.equality()
    }

    fn equality(&mut self) -> (r: Result<Expr, ParserError>)
        requires
            tokens_ready(old(self).tokens@, old(self).current as int),
        ensures
            final(self).tokens == old(self).tokens,
            agrees(r, final(self).current, p_equality(old(self).tokens@, old(self).current as int)),
        decreases old(self).tokens@.len() - old(self).current, 12int,
    {
        let ghost toks = self.tokens@;
        let ghost start = self.current as int;
        proof {
            lemma_eof_basic(toks, start);
            lemma_comparison_within(toks, start);
        }
        let mut expr = self.comparison()?;
        proof {
            lemma_ready_later(toks, start, self.current as int);
        }
        let potential_tokens: [TokenType; 2] = [TokenType::BangEqual, TokenType::EqualEqual];
        assert(forall|k: TokenType| potential_tokens@.contains(k) <==> is_equality_op(k)) by {
            assert forall|k: TokenType| is_equality_op(k) implies potential_tokens@.contains(k) by {
                if k == TokenType::BangEqual {
                    assert(potential_tokens@[0] == k);
                }
                if k == TokenType::EqualEqual {
                    assert(potential_tokens@[1] == k);
                }
            }
        }
        while self.match_token(potential_tokens.as_slice())
            invariant
                self.tokens == old(self).tokens,
                toks == old(self).tokens@,
                start == old(self).current,
                self.tokens@ == toks,
                tokens_ready(toks, start),
                at_end(toks, eof_index(toks, start)),
                start < self.current <= eof_index(toks, start),
                tokens_ready(toks, self.current as int),
                p_equality(toks, start) == p_equality_rest(toks, expr, self.current as int),
                forall|k: TokenType| potential_tokens@.contains(k) <==> is_equality_op(k),
            decreases toks.len() - self.current,
        {
            let ghost p = self.current - 1;
            let ghost left = expr;
            proof {
                lemma_ready_later(toks, start, self.current as int);
                lemma_comparison_within(toks, self.current as int);
            }
            let operator = share(self.previous());
            let right = self.comparison()?;
            proof {
                lemma_ready_later(toks, start, self.current as int);
                assert(equality_op_at(toks, p));
                assert(p_equality_rest(toks, left, p) == p_equality_rest(toks, binary(left, toks[p], right), self.current as int));
            }
            expr = Expr::Binary { left: Box::new(expr), operator, right: Box::new(right) };
        }
        Ok(expr)
    }

    fn comparison(&mut self) -> (r: Result<Expr, ParserError>)
        requires
            tokens_ready(old(self).tokens@, old(self).current as int),
        ensures
            final(self).tokens == old(self).tokens,
            agrees(r, final(self).current, p_comparison(old(self).tokens@, old(self).current as int)),
        decreases old(self).tokens@.len() - old(self).current, 10int,
    {
        let ghost toks = self.tokens@;
        let ghost start = self.current as int;
        proof {
            lemma_eof_basic(toks, start);
            lemma_term_within(toks, start);
        }
        let mut expr = self.term()?;
        proof {
            lemma_ready_later(toks, start, self.current as int);
        }
        let potential_tokens: [TokenType; 4] = [TokenType::Greater, TokenType::GreaterEqual, TokenType::Less, TokenType::LessEqual];
        assert(forall|k: TokenType| potential_tokens@.contains(k) <==> is_comparison_op(k)) by {
            assert forall|k: TokenType| is_comparison_op(k) implies potential_tokens@.contains(k) by {
                if k == TokenType::Greater {
                    assert(potential_tokens@[0] == k);
                }
                if k == TokenType::GreaterEqual {
                    assert(potential_tokens@[1] == k);
                }
                if k == TokenType::Less {
                    assert(potential_tokens@[2] == k);
                }
                if k == TokenType::LessEqual {
                    assert(potential_tokens@[3] == k);
                }
            }
        }
        while self.match_token(potential_tokens.as_slice())
            invariant
                self.tokens == old(self).tokens,
                toks == old(self).tokens@,
                start == old(self).current,
                self.tokens@ == toks,
                tokens_ready(toks, start),
                at_end(toks, eof_index(toks, start)),
                start < self.current <= eof_index(toks, start),
                tokens_ready(toks, self.current as int),
                p_comparison(toks, start) == p_comparison_rest(toks, expr, self.current as int),
                forall|k: TokenType| potential_tokens@.contains(k) <==> is_comparison_op(k),
            decreases toks.len() - self.current,
        {
            let ghost p = self.current - 1;
            let ghost left = expr;
            proof {
                lemma_ready_later(toks, start, self.current as int);
                lemma_term_within(toks, self.current as int);
            }
            let operator = share(self.previous());
            let right = self.term()?;
            proof {
                lemma_ready_later(toks, start, self.current as int);
                assert(comparison_op_at(toks, p));
                assert(p_comparison_rest(toks, left, p) == p_comparison_rest(toks, binary(left, toks[p], right), self.current as int));
            }
            expr = Expr::Binary { left: Box::new(expr), operator, right: Box::new(right) };
        }
        Ok(expr)
    }

    fn term(&mut self) -> (r: Result<Expr, ParserError>)
        requires
            tokens_ready(old(self).tokens@, old(self).current as int),
        ensures
            final(self).tokens == old(self).tokens,
            agrees(r, final(self).current, p_term(old(self).tokens@, old(self).current as int)),
        decreases old(self).tokens@.len() - old(self).current, 8int,
    {
        let ghost toks = self.tokens@;
        let ghost start = self.current as int;
        proof {
            lemma_eof_basic(toks, start);
            lemma_factor_within(toks, start);
        }
        let mut expr = self.factor()?;
        proof {
            lemma_ready_later(toks, start, self.current as int);
        }
        let potential_tokens: [TokenType; 2] = [TokenType::Minus, TokenType::Plus];
        assert(forall|k: TokenType| potential_tokens@.contains(k) <==> is_term_op(k)) by {
            assert forall|k: TokenType| is_term_op(k) implies potential_tokens@.contains(k) by {
                if k == TokenType::Minus {
                    assert(potential_tokens@[0] == k);
                }
                if k == TokenType::Plus {
                    assert(potential_tokens@[1] == k);
                }
            }
        }
        while self.match_token(potential_tokens.as_slice())
            invariant
                self.tokens == old(self).tokens,
                toks == old(self).tokens@,
                start == old(self).current,
                self.tokens@ == toks,
                tokens_ready(toks, start),
                at_end(toks, eof_index(toks, start)),
                start < self.current <= eof_index(toks, start),
                tokens_ready(toks, self.current as int),
                p_term(toks, start) == p_term_rest(toks, expr, self.current as int),
                forall|k: TokenType| potential_tokens@.contains(k) <==> is_term_op(k),
            decreases toks.len() - self.current,
        {
            let ghost p = self.current - 1;
            let ghost left = expr;
            proof {
                lemma_ready_later(toks, start, self.current as int);
                lemma_factor_within(toks, self.current as int);
            }
            let operator = share(self.previous());
            let right = self.factor()?;
            proof {
                lemma_ready_later(toks, start, self.current as int);
                assert(term_op_at(toks, p));
                assert(p_term_rest(toks, left, p) == p_term_rest(toks, binary(left, toks[p], right), self.current as int));
            }
            expr = Expr::Binary { left: Box::new(expr), operator, right: Box::new(right) };
        }
        Ok(expr)
    }

    fn factor(&mut self) -> (r: Result<Expr, ParserError>)
        requires
            tokens_ready(old(self).tokens@, old(self).current as int),
        ensures
            final(self).tokens == old(self).tokens,
            agrees(r, final(self).current, p_factor(old(self).tokens@, old(self).current as int)),
        decreases old(self).tokens@.len() - old(self).current, 6int,
    {
        let ghost toks = self.tokens@;
        let ghost start = self.current as int;
        proof {
            lemma_eof_basic(toks, start);
            lemma_unary_within(toks, start);
        }
        let mut expr = self.unary()?;
        proof {
            lemma_ready_later(toks, start, self.current as int);
        }
        let potential_tokens: [TokenType; 2] = [TokenType::Slash, TokenType::Star];
        assert(forall|k: TokenType| potential_tokens@.contains(k) <==> is_factor_op(k)) by {
            assert forall|k: TokenType| is_factor_op(k) implies potential_tokens@.contains(k) by {
                if k == TokenType::Slash {
                    assert(potential_tokens@[0] == k);
                }
                if k == TokenType::Star {
                    assert(potential_tokens@[1] == k);
                }
            }
        }
        while self.match_token(potential_tokens.as_slice())
            invariant
                self.tokens == old(self).tokens,
                toks == old(self).tokens@,
                start == old(self).current,
                self.tokens@ == toks,
                tokens_ready(toks, start),
                at_end(toks, eof_index(toks, start)),
                start < self.current <= eof_index(toks, start),
                tokens_ready(toks, self.current as int),
                p_factor(toks, start) == p_factor_rest(toks, expr, self.current as int),
                forall|k: TokenType| potential_tokens@.contains(k) <==> is_factor_op(k),
            decreases toks.len() - self.current,
        {
            let ghost p = self.current - 1;
            let ghost left = expr;
            proof {
                lemma_ready_later(toks, start, self.current as int);
                lemma_unary_within(toks, self.current as int);
            }
            let operator = share(self.previous());
            let right = self.unary()?;
            proof {
                lemma_ready_later(toks, start, self.current as int);
                assert(factor_op_at(toks, p));
                assert(p_factor_rest(toks, left, p) == p_factor_rest(toks, binary(left, toks[p], right), self.current as int));
            }
            expr = Expr::Binary { left: Box::new(expr), operator, right: Box::new(right) };
        }
        Ok(expr)
    }

    fn unary(&mut self) -> (r: Result<Expr, ParserError>)
        requires
            tokens_ready(old(self).tokens@, old(self).current as int),
        ensures
            final(self).tokens == old(self).tokens,
            agrees(r, final(self).current, p_unary(old(self).tokens@, old(self).current as int)),
        decreases old(self).tokens@.len() - old(self).current, 4int,
    {
        let ghost toks = self.tokens@;
        let ghost start = self.current as int;
        proof {
            lemma_eof_basic(toks, start);
        }
        let potential_tokens: [TokenType; 2] = [TokenType::Bang, TokenType::Minus];
        assert(forall|k: TokenType| potential_tokens@.contains(k) <==> is_unary_op(k)) by {
            assert forall|k: TokenType| is_unary_op(k) implies potential_tokens@.contains(k) by {
                if k == TokenType::Bang {
                    assert(potential_tokens@[0] == k);
                }
                if k == TokenType::Minus {
                    assert(potential_tokens@[1] == k);
                }
            }
        }
        if self.match_token(potential_tokens.as_slice()) {
            proof {
                lemma_ready_later(toks, start, self.current as int);
            }
            let operator = share(self.previous());
            let right = self.unary()?;
            return Ok(Expr::Unary { operator, right: Box::new(right) });
        }
        self.primary()
    }

    fn primary(&mut self) -> (r: Result<Expr, ParserError>)
        requires
            tokens_ready(old(self).tokens@, old(self).current as int),
        ensures
            final(self).tokens == old(self).tokens,
            agrees(r, final(self).current, p_primary(old(self).tokens@, old(self).current as int)),
        decreases old(self).tokens@.len() - old(self).current, 3int,
    {
        let ghost toks = self.tokens@;
        let ghost start = self.current as int;
        proof {
            lemma_eof_basic(toks, start);
        }
        if self.match_token(&[TokenType::False]) {
            return Ok(Expr::Literal(Literal::Bool(false)));
        }
        if self.match_token(&[TokenType::True]) {
            return Ok(Expr::Literal(Literal::Bool(true)));
        }
        if self.match_token(&[TokenType::Number]) {
            if let Literal::Number(n) = &self.previous().literal {
                return Ok(Expr::Literal(Literal::Number(n.clone())));
            }
            return Err(ParserError::UnexpectedToken(share(self.previous())));
        }
        if self.match_token(&[TokenType::String]) {
            if let Literal::Str(s) = &self.previous().literal {
                return Ok(Expr::Literal(Literal::Str(s.clone())));
            }
            return Err(ParserError::UnexpectedToken(share(self.previous())));
        }
        if self.match_token(&[TokenType::Identifier]) {
            if let Literal::Identifier(_) = &self.previous().literal {
                return Ok(Expr::Variable(share(self.previous())));
            }
            return Err(ParserError::UnexpectedToken(share(self.previous())));
        }
        if self.match_token(&[TokenType::LeftParen]) {
            proof {
                lemma_ready_later(toks, start, self.current as int);
                lemma_expression_within(toks, self.current as int);
            }
            let expr = self.expression()?;
            proof {
                lemma_ready_later(toks, start, self.current as int);
            }
            self.consume(TokenType::RightParen)?;
            return Ok(Expr::Grouping(Box::new(expr)));
        }
        Err(ParserError::UnexpectedToken(share(self.peek())))
    }

    fn print_statement(&mut self) -> (r: Result<Stmt, ParserError>)
        requires
            tokens_ready(old(self).tokens@, old(self).current as int),
        ensures
            final(self).tokens == old(self).tokens,
            agrees(r, final(self).current, p_print_statement(old(self).tokens@, old(self).current as int)),
    {
        let ghost toks = self.tokens@;
        let ghost start = self.current as int;
        proof {
            lemma_expression_within(toks, start);
        }
        let value = self.expression()?;
        proof {
            lemma_ready_later(toks, start, self.current as int);
        }
        self.consume(TokenType::Semicolon)?;
        Ok(Stmt::Print(Box::new(value)))
    }

    fn var_declaration(&mut self) -> (r: Result<Stmt, ParserError>)
        requires
            tokens_ready(old(self).tokens@, old(self).current as int),
        ensures
            final(self).tokens == old(self).tokens,
            agrees(r, final(self).current, p_var_declaration(old(self).tokens@, old(self).current as int)),
    {
        let ghost toks = self.tokens@;
        let ghost start = self.current as int;
        proof {
            lemma_eof_basic(toks, start);
            lemma_consume_within(toks, start, TokenType::Identifier);
        }
        let name = self.consume(TokenType::Identifier)?;
        proof {
            lemma_ready_later(toks, start, self.current as int);
        }
        let initializer: Option<Box<Expr>> = if self.match_token(&[TokenType::Equal]) {
            proof {
                lemma_ready_later(toks, start, self.current as int);
                lemma_expression_within(toks, self.current as int);
            }
            Some(Box::new(self.expression()?))
        } else {
            None
        };
        proof {
            lemma_ready_later(toks, start, self.current as int);
        }
        let _ = self.consume(TokenType::Semicolon);
        Ok(Stmt::Var { name, initializer })
    }

    fn expression_statement(&mut self) -> (r: Result<Stmt, ParserError>)
        requires
            tokens_ready(old(self).tokens@, old(self).current as int),
        ensures
            final(self).tokens == old(self).tokens,
            agrees(r, final(self).current, p_expression_statement(old(self).tokens@, old(self).current as int)),
    {
        let ghost toks = self.tokens@;
        let ghost start = self.current as int;
        proof {
            lemma_expression_within(toks, start);
        }
        let value = self.expression()?;
        proof {
            lemma_ready_later(toks, start, self.current as int);
        }
        self.consume(TokenType::Semicolon)?;
        Ok(Stmt::Expression(Box::new(value)))
    }

    fn statement(&mut self) -> (r: Result<Stmt, ParserError>)
        requires
            tokens_ready(old(self).tokens@, old(self).current as int),
        ensures
            final(self).tokens == old(self).tokens,
            agrees(r, final(self).current, p_statement(old(self).tokens@, old(self).current as int)),
    {
        let ghost toks = self.tokens@;
        let ghost start = self.current as int;
        proof {
            lemma_eof_basic(toks, start);
        }
        if self.match_token(&[TokenType::Print]) {
            proof {
                lemma_ready_later(toks, start, self.current as int);
            }
            return Ok(self.print_statement()?);
        }
        Ok(self.expression_statement()?)
    }

    /// Skips tokens after an error: past the next `;`, or up to the next
    /// keyword that starts a statement, or to the end.
    fn synchronize(&mut self)
        requires
            tokens_ready(old(self).tokens@, old(self).current as int),
            old(self).current > 0 || !at_end(old(self).tokens@, old(self).current as int),
        ensures
            final(self).tokens == old(self).tokens,
            final(self).current == synchronize(old(self).tokens@, old(self).current as int),
    {
        let ghost toks = self.tokens@;
        let ghost start = self.current as int;
        proof {
            lemma_eof_basic(toks, start);
        }
        self.advance();
        while !self.is_at_end()
            invariant
                self.tokens == old(self).tokens,
                toks == old(self).tokens@,
                self.tokens@ == toks,
                tokens_ready(toks, start),
                at_end(toks, eof_index(toks, start)),
                start == old(self).current,
                0 < self.current <= eof_index(toks, start),
                start <= self.current,
                sync_from(toks, self.current as int) == synchronize(toks, start),
            decreases toks.len() - self.current,
        {
            proof {
                lemma_ready_later(toks, start, self.current as int);
            }
            if self.previous().ttype == TokenType::Semicolon {
                return;
            }
            match self.peek().ttype {
                TokenType::Class | TokenType::For | TokenType::Fun | TokenType::If | TokenType::Print
                | TokenType::Return | TokenType::While | TokenType::Var => return,
                _ => {},
            }
            self.advance();
        }
    }

    /// One declaration; one that fails to parse yields no statement and the
    /// parser resumes after it.
    /// Parses one declaration; one that fails is skipped (see `synchronize`)
    /// and its error is added to `errors`.
    fn declaration(&mut self, errors: &mut Vec<ParserError>) -> (r: Result<Option<Stmt>, ParserError>)
        requires
            tokens_ready(old(self).tokens@, old(self).current as int),
            !at_end(old(self).tokens@, old(self).current as int),
        ensures
            final(self).tokens == old(self).tokens,
            r == Ok::<Option<Stmt>, ParserError>(p_declaration(old(self).tokens@, old(self).current as int).0),
            final(self).current == p_declaration(old(self).tokens@, old(self).current as int).1,
            final(errors)@ == old(errors)@ + opt_seq(
                p_declaration_error(old(self).tokens@, old(self).current as int),
            ),
    {
        let ghost toks = self.tokens@;
        let ghost start = self.current as int;
        proof {
            lemma_eof_basic(toks, start);
            lemma_statement_within(toks, start);
        }
        if self.match_token(&[TokenType::Var]) {
            proof {
                lemma_ready_later(toks, start, self.current as int);
                lemma_statement_within(toks, self.current as int);
            }
            let vd = self.var_declaration();
            match vd {
                Ok(vd) => {
                    assert(opt_seq(p_declaration_error(toks, start)) =~= Seq::<ParserError>::empty());
                    return Ok(Some(vd));
                },
                Err(e) => {
                    proof {
                        lemma_ready_later(toks, start, self.current as int);
                    }
                    errors.push(e);
                    self.synchronize();
                    return Ok(None);
                },
            }
        } else {
            let s = self.statement();
            match s {
                Ok(s) => {
                    assert(opt_seq(p_declaration_error(toks, start)) =~= Seq::<ParserError>::empty());
                    return Ok(Some(s));
                },
                Err(e) => {
                    proof {
                        lemma_ready_later(toks, start, self.current as int);
                    }
                    errors.push(e);
                    self.synchronize();
                    return Ok(None);
                },
            }
        }
    }

    /// Parses the declarations from the reading position up to the first
    /// `EOF` token; declarations that fail to parse are left out.
    /// Parses the program from the reading position up to the first `EOF`.
    /// Declarations that fail to parse are skipped and left out.
    pub fn parse(&mut self) -> (r: Result<Vec<Stmt>, ParserError>)
        requires
            tokens_ready(old(self).tokens@, old(self).current as int),
        ensures
            final(self).tokens == old(self).tokens,
            final(self).current == eof_index(old(self).tokens@, old(self).current as int),
            r is Ok,
            r->Ok_0@ == p_program(old(self).tokens@, old(self).current as int),
    {
        let (statements, _errors) = self.parse_with_errors();
        Ok(statements)
    }

    /// Parses the program from the reading position up to the first `EOF`,
    /// as `parse` does, and hands back with the statements the error of each
    /// declaration that failed to parse, in order.
    pub fn parse_with_errors(&mut self) -> (r: (Vec<Stmt>, Vec<ParserError>))
        requires
            tokens_ready(old(self).tokens@, old(self).current as int),
        ensures
            final(self).tokens == old(self).tokens,
            final(self).current == eof_index(old(self).tokens@, old(self).current as int),
            r.0@ == p_program(old(self).tokens@, old(self).current as int),
            r.1@ == p_program_errors(old(self).tokens@, old(self).current as int),
    {
        let ghost toks = self.tokens@;
        let ghost start = self.current as int;
        proof {
            lemma_eof_basic(toks, start);
        }
        let mut statements: Vec<Stmt> = Vec::new();
        let mut errors: Vec<ParserError> = Vec::new();
        while !self.is_at_end()
            invariant
                self.tokens == old(self).tokens,
                toks == old(self).tokens@,
                self.tokens@ == toks,
                tokens_ready(toks, start),
                at_end(toks, eof_index(toks, start)),
                start == old(self).current,
                start <= self.current <= eof_index(toks, start),
                statements@ + p_program(toks, self.current as int) == p_program(toks, start),
                errors@ + p_program_errors(toks, self.current as int) == p_program_errors(toks, start),
            decreases toks.len() - self.current,
        {
            let ghost cur = self.current as int;
            proof {
                lemma_ready_later(toks, start, cur);
                lemma_declaration_advances(toks, cur);
            }
            let ghost before = statements@;
            let ghost errors_before = errors@;
            let declared = self.declaration(&mut errors);
            if let Ok(Some(stmt)) = declared {
                statements.push(stmt);
            }
            proof {
                let (s, q) = p_declaration(toks, cur);
                let e = p_declaration_error(toks, cur);
                assert(p_program(toks, cur) == opt_seq(s) + p_program(toks, q));
                assert(statements@ == before + opt_seq(s));
                assert(before + (opt_seq(s) + p_program(toks, q)) == (before + opt_seq(s)) + p_program(toks, q));
                assert(p_program_errors(toks, cur) == opt_seq(e) + p_program_errors(toks, q));
                assert(errors_before + (opt_seq(e) + p_program_errors(toks, q)) == (errors_before + opt_seq(e))
                    + p_program_errors(toks, q));
            }
        }
        proof {
            lemma_ready_later(toks, start, self.current as int);
            assert(statements@ + p_program(toks, self.current as int) == statements@);
            assert(errors@ + p_program_errors(toks, self.current as int) == errors@);
        }
        (statements, errors)
    }
}

} // verus!
