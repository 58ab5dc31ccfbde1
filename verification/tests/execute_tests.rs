use rlox::env::Environment;
use rlox::error::RuntimeError;
use rlox::expr::Expr;
use rlox::interpreter::{execute, interpret, RuntimeValue};
use rlox::parser::Parser;
use rlox::scanner::Scanner;
use rlox::stmt::Stmt;
use rlox::token::{Literal, Token, TokenType};

type V = RuntimeValue<f64>;

/// Evaluates literals and variables only.

/// Gives each identifier token the `Identifier` literal that the parser reads
/// a variable from (the scanner gives identifiers `Nil`).
fn with_names(tokens: Vec<Token>) -> Vec<Token> {
    tokens
        .into_iter()
        .map(|t| {
            if t.ttype == TokenType::Identifier {
                Token { literal: Literal::Identifier(t.lexeme.clone()), ..t }
            } else {
                t
            }
        })
        .collect()
}

fn eval(env: &Environment<V>, expr: &Expr) -> Result<V, RuntimeError> {
    match expr {
        Expr::Literal(Literal::Number(n)) => Ok(V::Number(n.parse().unwrap())),
        Expr::Literal(Literal::Str(s)) => Ok(V::Str(s.clone())),
        Expr::Literal(Literal::Bool(b)) => Ok(V::Bool(*b)),
        Expr::Literal(_) => Ok(V::Nil),
        Expr::Variable(t) => env.get(t),
        Expr::Grouping(e) => eval(env, e),
        _ => Ok(V::Nil),
    }
}

fn show(v: &V) -> String {
    match v {
        V::Number(n) => n.to_string(),
        V::Str(s) => s.clone(),
        V::Bool(b) => b.to_string(),
        V::Nil => "nil".to_string(),
    }
}

fn program(src: &str) -> Vec<Stmt> {
    let tokens = with_names(Scanner::new(src.to_string()).scan_tokens().unwrap());
    Parser::new(tokens).parse().unwrap()
}

fn run_all(env: &mut Environment<V>, stmts: &[Stmt]) -> Vec<Result<Option<String>, String>> {
    stmts
        .iter()
        .map(|s| execute(env, s, &eval, &show).map_err(|e| format!("{:?}", e)))
        .collect()
}

#[test]
fn print_and_expression_statements_output_values() {
    let mut env = Environment::new();
    let out = run_all(&mut env, &program("print 1; \"a\"; var x = true; x;"));
    assert_eq!(
        out,
        vec![Ok(Some("1".to_string())), Ok(Some("a".to_string())), Ok(None), Ok(Some("true".to_string()))]
    );
}

#[test]
fn declaration_without_initializer_is_nil() {
    let mut env = Environment::new();
    let out = run_all(&mut env, &program("var x; print x;"));
    assert_eq!(out, vec![Ok(None), Ok(Some("nil".to_string()))]);
}

#[test]
fn undefined_variable_stops_the_statement() {
    let mut env = Environment::new();
    let out = run_all(&mut env, &program("print y; var z = y; print z;"));
    assert!(out[0].is_err());
    assert!(out[1].is_err());
    assert!(out[2].is_err());
}

#[test]
fn blocks_scope_their_definitions_and_drop_their_output() {
    let mut env = Environment::new();
    let mut stmts = program("var a = 1;");
    let inner = program("var a = 2; print a;");
    stmts.push(Stmt::Block(inner));
    stmts.extend(program("print a;"));
    let out = run_all(&mut env, &stmts);
    assert_eq!(out, vec![Ok(None), Ok(None), Ok(Some("1".to_string()))]);
    assert!(env.into_enclosing().is_none());
}

#[test]
fn a_failing_block_stays_in_its_scope() {
    let mut env = Environment::new();
    let block = Stmt::Block(program("var b = 5; print nope;"));
    let r = execute(&mut env, &block, &eval, &show);
    assert!(r.is_err());
    let out = run_all(&mut env, &program("print b;"));
    assert_eq!(out, vec![Ok(Some("5".to_string()))]);
    assert!(env.into_enclosing().is_some());
}

#[test]
fn interpret_collects_outputs_in_order() {
    let mut env = Environment::new();
    let (outputs, result) = interpret(&mut env, program("print 1; \"a\"; var x = 2; print x;"), &eval, &show);
    assert_eq!(outputs, vec!["1", "a", "2"]);
    assert!(result.is_ok());
}

#[test]
fn interpret_stops_at_the_first_error() {
    let mut env = Environment::new();
    let (outputs, result) = interpret(&mut env, program("print 1; print y; print 2;"), &eval, &show);
    assert_eq!(outputs, vec!["1"]);
    assert!(matches!(result, Err(RuntimeError::UndefinedVariable(t)) if t.lexeme == "y"));
    // Variables defined before the error stay defined.
    let mut env = Environment::new();
    let (_, result) = interpret(&mut env, program("var a = 1; print b; var c = 2;"), &eval, &show);
    assert!(result.is_err());
    let (outputs, _) = interpret(&mut env, program("print a; print c;"), &eval, &show);
    assert_eq!(outputs, vec!["1"]);
}
