use std::rc::Rc;

use rlox::error::ParserError;
use rlox::expr::Expr;
use rlox::parser::Parser;
use rlox::scanner::Scanner;
use rlox::stmt::Stmt;
use rlox::token::{Literal, Token, TokenType};


/// Gives each identifier token the `Identifier` literal that the parser reads
/// a variable from (the scanner gives identifiers `Nil`).
fn with_names(tokens: Vec<Token>) -> Vec<Token> {
    tokens
        .into_iter()
        .map(|t| {
            if t.ttype == TokenType::Identifier {
                Token { literal: Literal::Identifier(t.lexeme.clone()), ..t }
            } else {
                t
            }
        })
        .collect()
}

fn show_literal(l: &Literal) -> String {
    match l {
        Literal::Number(n) => n.clone(),
        Literal::Str(s) => format!("\"{}\"", s),
        Literal::Bool(b) => b.to_string(),
        Literal::Nil => "nil".to_string(),
        Literal::Identifier(s) => s.clone(),
    }
}

fn show(e: &Expr) -> String {
    match e {
        Expr::Binary { left, operator, right } => {
            format!("({} {} {})", operator.lexeme, show(left), show(right))
        }
        Expr::Grouping(inner) => format!("(group {})", show(inner)),
        Expr::Literal(l) => show_literal(l),
        Expr::Variable(t) => t.lexeme.clone(),
        Expr::Unary { operator, right } => format!("({} {})", operator.lexeme, show(right)),
    }
}

fn show_stmt(s: &Stmt) -> String {
    match s {
        Stmt::Expression(e) => format!("expr {}", show(e)),
        Stmt::Print(e) => format!("print {}", show(e)),
        Stmt::Var { name, initializer } => match initializer {
            Some(e) => format!("var {} = {}", name.lexeme, show(e)),
            None => format!("var {}", name.lexeme),
        },
        Stmt::Block(stmts) => format!("block {}", stmts.len()),
    }
}

fn parse(src: &str) -> Vec<String> {
    let tokens = with_names(Scanner::new(src.to_string()).scan_tokens().unwrap());
    let mut parser = Parser::new(tokens);
    let stmts = parser.parse().unwrap();
    assert_eq!(parser.tokens[parser.current].ttype, TokenType::EOF);
    stmts.iter().map(show_stmt).collect()
}

#[test]
fn precedence_of_operators() {
    assert_eq!(parse("1 + 2 * 3;"), vec!["expr (+ 1 (* 2 3))"]);
    assert_eq!(parse("1 * 2 + 3;"), vec!["expr (+ (* 1 2) 3)"]);
    assert_eq!(parse("1 < 2 == 3 >= 4;"), vec!["expr (== (< 1 2) (>= 3 4))"]);
}

#[test]
fn binary_operators_group_to_the_left() {
    assert_eq!(parse("1 - 2 - 3;"), vec!["expr (- (- 1 2) 3)"]);
    assert_eq!(parse("8 / 4 / 2;"), vec!["expr (/ (/ 8 4) 2)"]);
    assert_eq!(parse("a != b != c;"), vec!["expr (!= (!= a b) c)"]);
}

#[test]
fn unary_and_grouping() {
    assert_eq!(parse("!-x;"), vec!["expr (! (- x))"]);
    assert_eq!(parse("(1 + 2) * 3;"), vec!["expr (* (group (+ 1 2)) 3)"]);
    assert_eq!(parse("-(\"a\");"), vec!["expr (- (group \"a\"))"]);
}

#[test]
fn literals() {
    assert_eq!(parse("true; false; 2.5; \"s\";"), vec!["expr true", "expr false", "expr 2.5", "expr \"s\""]);
}

#[test]
fn statements() {
    assert_eq!(parse("print 1; var a = 2; var b; a;"), vec!["print 1", "var a = 2", "var b", "expr a"]);
}

#[test]
fn var_declaration_does_not_demand_a_semicolon() {
    assert_eq!(parse("var a = 1 var b;"), vec!["var a = 1", "var b"]);
}

#[test]
fn failed_declarations_are_skipped() {
    assert_eq!(parse("print (1; print 2;"), vec!["print 2"]);
    assert_eq!(parse("1 +; 3;"), vec!["expr 3"]);
    assert_eq!(parse("print 1 print 2;"), Vec::<String>::new());
    assert_eq!(parse("print 1 print 2; print 3;"), vec!["print 3"]);
    assert_eq!(parse("var 1; print 3;"), vec!["print 3"]);
    assert_eq!(parse(")"), Vec::<String>::new());
}

#[test]
fn recovery_stops_before_statement_keywords() {
    assert_eq!(parse("1 2 var x = 3;"), vec!["var x = 3"]);
}

#[test]
fn empty_program() {
    assert_eq!(parse(""), Vec::<String>::new());
    assert_eq!(parse("// nothing\n"), Vec::<String>::new());
}

#[test]
fn parsing_stops_at_the_first_eof() {
    let t = |ttype: TokenType, lexeme: &str, literal: Literal| Token {
        ttype,
        lexeme: lexeme.to_string(),
        literal,
        line: 1,
    };
    let tokens = vec![
        t(TokenType::Number, "1", Literal::Number("1".to_string())),
        t(TokenType::Semicolon, ";", Literal::Nil),
        t(TokenType::EOF, "", Literal::Nil),
        t(TokenType::Number, "2", Literal::Number("2".to_string())),
        t(TokenType::Semicolon, ";", Literal::Nil),
        t(TokenType::EOF, "", Literal::Nil),
    ];
    let mut parser = Parser::new(tokens);
    let stmts = parser.parse().unwrap();
    assert_eq!(stmts.len(), 1);
    assert_eq!(parser.current, 2);
    let tokens2: Vec<Rc<Token>> = parser.tokens.clone();
    assert_eq!(tokens2.len(), 6);
}

#[test]
fn tokens_without_their_literal() {
    let t = |ttype: TokenType, lexeme: &str, literal: Literal| Token {
        ttype,
        lexeme: lexeme.to_string(),
        literal,
        line: 1,
    };
    // A declaration's name needs no literal.
    let tokens = vec![
        t(TokenType::Var, "var", Literal::Nil),
        t(TokenType::Identifier, "x", Literal::Nil),
        t(TokenType::Semicolon, ";", Literal::Nil),
        t(TokenType::EOF, "", Literal::Nil),
    ];
    let stmts = Parser::new(tokens).parse().unwrap();
    assert_eq!(stmts.iter().map(show_stmt).collect::<Vec<_>>(), vec!["var x".to_string()]);
    // Read as a primary, an identifier or number without its literal is refused
    // and its declaration dropped.
    let tokens = vec![
        t(TokenType::Print, "print", Literal::Nil),
        t(TokenType::Identifier, "x", Literal::Nil),
        t(TokenType::Semicolon, ";", Literal::Nil),
        t(TokenType::Number, "1", Literal::Nil),
        t(TokenType::Semicolon, ";", Literal::Nil),
        t(TokenType::Number, "2", Literal::Number("2".to_string())),
        t(TokenType::Semicolon, ";", Literal::Nil),
        t(TokenType::EOF, "", Literal::Nil),
    ];
    let stmts = Parser::new(tokens).parse().unwrap();
    assert_eq!(stmts.iter().map(show_stmt).collect::<Vec<_>>(), vec!["expr 2".to_string()]);
}

#[test]
fn scanned_identifiers_cannot_be_read_as_variables() {
    // The scanner gives identifiers no literal, so reading one is refused;
    // declaring one is not.
    let tokens = Scanner::new("var a = 1; print a; print 2;".to_string()).scan_tokens().unwrap();
    assert_eq!(tokens[1].literal, Literal::Nil);
    let stmts = Parser::new(tokens).parse().unwrap();
    assert_eq!(stmts.iter().map(show_stmt).collect::<Vec<_>>(), vec!["var a = 1", "print 2"]);
}

#[test]
fn parse_errors_are_handed_back_in_order() {
    let tokens = Scanner::new("print 1 var a = ; print (2; print 3;".to_string()).scan_tokens().unwrap();
    let (stmts, errors) = Parser::new(tokens).parse_with_errors();
    assert_eq!(stmts.iter().map(show_stmt).collect::<Vec<_>>(), vec!["print 3"]);
    let described: Vec<String> = errors
        .iter()
        .map(|e| match e {
            ParserError::UnexpectedToken(t) => format!("unexpected {}", t.lexeme),
            ParserError::UnterminatedGroup(t) => format!("group {}", t.lexeme),
            ParserError::UnterminatedStmt(t) => format!("statement {}", t.lexeme),
        })
        .collect();
    // Recovery from the first error skips `var a = ;` as a whole.
    assert_eq!(described, vec!["statement 1", "group ;"]);
}
