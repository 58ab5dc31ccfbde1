use std::rc::Rc;

use rlox::expr::{pretty_expr, Expr};
use rlox::token::{Literal, Token, TokenType};

/// A literal as the command shows it: numbers read as floats.
fn literal_text(l: &Literal) -> String {
    match l {
        Literal::Identifier(s) => format!("Identifier: {s}"),
        Literal::Str(s) => format!("String: {s}"),
        Literal::Number(n) => format!("Number: {}", n.parse::<f64>().unwrap()),
        Literal::Bool(b) => format!("Boolean: {b}"),
        Literal::Nil => "Nil".to_string(),
    }
}

fn token_text(t: &Token) -> String {
    format!("<{}>", t.lexeme)
}

fn token(ttype: TokenType, lexeme: &str) -> Rc<Token> {
    Rc::new(Token { ttype, lexeme: lexeme.to_string(), literal: Literal::Nil, line: 1 })
}

fn number(text: &str) -> Box<Expr> {
    Box::new(Expr::Literal(Literal::Number(text.to_string())))
}

#[test]
fn pretty_expr_doc_example() {
    let expr = Expr::Binary {
        left: Box::new(Expr::Unary { operator: token(TokenType::Minus, "-"), right: number("123.0") }),
        operator: token(TokenType::Star, "*"),
        right: Box::new(Expr::Grouping(number("45.67"))),
    };
    let text = pretty_expr(&expr, 0, &literal_text, &token_text);
    assert_eq!(text, "Binary(*)\n Unary(-)\n  LiteralNumber: 123\n Group\n  LiteralNumber: 45.67");
}

#[test]
fn pretty_expr_pads_binary_operands() {
    let expr = Expr::Binary {
        left: Box::new(Expr::Variable(token(TokenType::Identifier, "a"))),
        operator: token(TokenType::Plus, "+"),
        right: number("1"),
    };
    let text = pretty_expr(&expr, 2, &literal_text, &token_text);
    assert_eq!(text, "  Binary(+)\n   Variable<a>  \n   LiteralNumber: 1  ");
}

#[test]
fn pretty_expr_leaf_at_indent() {
    let expr = Expr::Literal(Literal::Str("hi".to_string()));
    assert_eq!(pretty_expr(&expr, 3, &literal_text, &token_text), "   LiteralString: hi");
    let expr = Expr::Literal(Literal::Bool(true));
    assert_eq!(pretty_expr(&expr, 0, &literal_text, &token_text), "LiteralBoolean: true");
}
