use rlox::env::Environment;
use rlox::error::RuntimeError;
use rlox::expr::Expr;
use rlox::interpreter::{evaluate, NumberOp, RuntimeValue};
use rlox::parser::Parser;
use rlox::scanner::Scanner;
use rlox::stmt::Stmt;
use rlox::token::{Literal, Token, TokenType};

type V = RuntimeValue<f64>;


/// Gives each identifier token the `Identifier` literal that the parser reads
/// a variable from (the scanner gives identifiers `Nil`).
fn with_names(tokens: Vec<Token>) -> Vec<Token> {
    tokens
        .into_iter()
        .map(|t| {
            if t.ttype == TokenType::Identifier {
                Token { literal: Literal::Identifier(t.lexeme.clone()), ..t }
            } else {
                t
            }
        })
        .collect()
}

fn numeral(text: &String) -> f64 {
    text.parse().unwrap()
}

/// A comparison of two numbers.
// Floating point: numbers are compared as floats.
fn compare(op: NumberOp, a: &f64, b: &f64) -> bool {
    let (a, b) = (*a, *b);
    match op {
        NumberOp::Greater => a > b,
        NumberOp::GreaterEqual => a >= b,
        NumberOp::Less => a < b,
        _ => a <= b,
    }
}

/// An arithmetic operation on two numbers; `None` where a division's divisor
/// is zero or not finite.
// Floating point: the operations are float operations.
fn arith(op: NumberOp, a: &f64, b: &f64) -> Option<f64> {
    let (a, b) = (*a, *b);
    match op {
        NumberOp::Subtract => Some(a - b),
        NumberOp::Multiply => Some(a * b),
        NumberOp::Divide => {
            if b == 0.0 || !b.is_finite() {
                None
            } else {
                Some(a / b)
            }
        }
        _ => Some(a + b),
    }
}

fn negate(a: &f64) -> f64 {
    -*a
}

fn number_text(a: &f64) -> String {
    a.to_string()
}

fn numbers_equal(a: &f64, b: &f64) -> bool {
    a == b
}

/// The expression of `print <src>;`.
fn expr(src: &str) -> Expr {
    let tokens = with_names(Scanner::new(format!("print {src};")).scan_tokens().unwrap());
    let mut stmts = Parser::new(tokens).parse().unwrap();
    assert_eq!(stmts.len(), 1);
    match stmts.remove(0) {
        Stmt::Print(e) => *e,
        _ => panic!("not a print statement"),
    }
}

fn eval_in(env: &Environment<V>, src: &str) -> Result<V, RuntimeError> {
    evaluate(env, &expr(src), &numeral, &compare, &arith, &negate, &number_text, &numbers_equal)
}

/// Evaluates `src` where `n` is `nil` (Lox source has no `nil` literal here).
fn eval(src: &str) -> Result<V, RuntimeError> {
    let mut env = Environment::new();
    env.define("n".to_string(), V::Nil);
    eval_in(&env, src)
}

/// The lexeme of the token an error names.
fn error_at(r: Result<V, RuntimeError>) -> (&'static str, String) {
    match r {
        Err(RuntimeError::TypeError(t)) => ("type", t.lexeme.clone()),
        Err(RuntimeError::DivByZero(t)) => ("div", t.lexeme.clone()),
        Err(RuntimeError::UndefinedVariable(t)) => ("undefined", t.lexeme.clone()),
        Ok(v) => panic!("no error: {:?}", v),
    }
}

#[test]
fn arithmetic_follows_precedence() {
    assert_eq!(eval("1 + 2 * 3").unwrap(), V::Number(7.0));
    assert_eq!(eval("(1 + 2) * 3").unwrap(), V::Number(9.0));
    assert_eq!(eval("10 - 4 - 3").unwrap(), V::Number(3.0));
    assert_eq!(eval("-2 * 3").unwrap(), V::Number(-6.0));
    assert_eq!(eval("7 / 2").unwrap(), V::Number(3.5));
}

#[test]
fn comparisons_and_not() {
    assert_eq!(eval("1 < 2").unwrap(), V::Bool(true));
    assert_eq!(eval("2 <= 1").unwrap(), V::Bool(false));
    assert_eq!(eval("!n").unwrap(), V::Bool(true));
    assert_eq!(eval("!0").unwrap(), V::Bool(false));
    assert_eq!(eval("(1 < 2) == true").unwrap(), V::Bool(true));
}

#[test]
fn joining_strings_and_numbers() {
    assert_eq!(eval("\"a\" + \"b\"").unwrap(), V::Str("ab".to_string()));
    assert_eq!(eval("\"a\" + 1.5").unwrap(), V::Str("a1.5".to_string()));
    assert_eq!(eval("2 + \"b\"").unwrap(), V::Str("2b".to_string()));
}

#[test]
fn evaluated_equality() {
    assert_eq!(eval("1 == 1").unwrap(), V::Bool(true));
    assert_eq!(eval("1 != 2").unwrap(), V::Bool(true));
    assert_eq!(eval("n == false").unwrap(), V::Bool(false));
    assert_eq!(eval("n == n").unwrap(), V::Bool(true));
    assert_eq!(eval("\"a\" != \"a\"").unwrap(), V::Bool(false));
    assert_eq!(eval("\"1\" == 1").unwrap(), V::Bool(false));
}

#[test]
fn errors_name_the_operator() {
    assert_eq!(error_at(eval("-\"x\"")), ("type", "-".to_string()));
    assert_eq!(error_at(eval("true + 1")), ("type", "+".to_string()));
    assert_eq!(error_at(eval("1 / 0")), ("div", "/".to_string()));
    assert_eq!(error_at(eval("y")), ("undefined", "y".to_string()));
}

#[test]
fn operands_are_evaluated_left_to_right() {
    assert_eq!(error_at(eval("(-\"a\") + y")), ("type", "-".to_string()));
    assert_eq!(error_at(eval("y + (-\"a\")")), ("undefined", "y".to_string()));
    assert_eq!(error_at(eval("1 / 0 < y")), ("div", "/".to_string()));
}

#[test]
fn variables_are_read_from_the_environment() {
    let mut env = Environment::new();
    env.define("x".to_string(), V::Number(4.0));
    env.define("s".to_string(), V::Str("hi".to_string()));
    assert_eq!(eval_in(&env, "x * 2").unwrap(), V::Number(8.0));
    assert_eq!(eval_in(&env, "s + x").unwrap(), V::Str("hi4".to_string()));
    let inner = Environment::new_from(env);
    assert_eq!(eval_in(&inner, "x").unwrap(), V::Number(4.0));
}
