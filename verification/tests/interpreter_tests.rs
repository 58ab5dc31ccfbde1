use rlox::error::{ParserError, RloxError, ScannerError};
use rlox::interpreter::{
    binary_action, unary_action, values_equal, BinaryAction, NumberOp, RuntimeValue, UnaryAction,
};
use rlox::run;
use rlox::stmt::Stmt;
use rlox::token::TokenType;

type V = RuntimeValue<f64>;

#[test]
fn truthiness() {
    assert!(!V::Nil.is_truthy());
    assert!(!V::Bool(false).is_truthy());
    assert!(V::Bool(true).is_truthy());
    assert!(V::Number(0.0).is_truthy());
    assert!(V::Str(String::new()).is_truthy());
}

#[test]
fn arithmetic_needs_numbers() {
    let one = V::Number(1.0);
    let s = V::Str("a".to_string());
    assert_eq!(binary_action(TokenType::Minus, &one, &one), BinaryAction::Numbers(NumberOp::Subtract));
    assert_eq!(binary_action(TokenType::Star, &one, &one), BinaryAction::Numbers(NumberOp::Multiply));
    assert_eq!(binary_action(TokenType::Slash, &one, &one), BinaryAction::Numbers(NumberOp::Divide));
    assert_eq!(binary_action(TokenType::Less, &one, &one), BinaryAction::Numbers(NumberOp::Less));
    assert_eq!(binary_action(TokenType::GreaterEqual, &one, &one), BinaryAction::Numbers(NumberOp::GreaterEqual));
    assert_eq!(binary_action(TokenType::Minus, &one, &s), BinaryAction::TypeError);
    assert_eq!(binary_action(TokenType::Greater, &V::Nil, &one), BinaryAction::TypeError);
    assert_eq!(binary_action(TokenType::And, &one, &one), BinaryAction::TypeError);
}

#[test]
fn plus_adds_or_joins() {
    let one = V::Number(1.0);
    let s = V::Str("a".to_string());
    assert_eq!(binary_action(TokenType::Plus, &one, &one), BinaryAction::Numbers(NumberOp::Add));
    assert_eq!(binary_action(TokenType::Plus, &s, &s), BinaryAction::JoinStrings);
    assert_eq!(binary_action(TokenType::Plus, &s, &one), BinaryAction::JoinStringNumber);
    assert_eq!(binary_action(TokenType::Plus, &one, &s), BinaryAction::JoinNumberString);
    assert_eq!(binary_action(TokenType::Plus, &V::Bool(true), &one), BinaryAction::TypeError);
}

#[test]
fn equality_operators_take_anything() {
    assert_eq!(
        binary_action(TokenType::EqualEqual, &V::Nil, &V::Bool(true)),
        BinaryAction::Equality { negate: false }
    );
    assert_eq!(
        binary_action(TokenType::BangEqual, &V::Nil, &V::Bool(true)),
        BinaryAction::Equality { negate: true }
    );
}

#[test]
fn equality_of_values() {
    assert_eq!(values_equal(&V::Nil, &V::Nil), Some(true));
    assert_eq!(values_equal(&V::Nil, &V::Bool(false)), Some(false));
    assert_eq!(values_equal(&V::Bool(false), &V::Nil), Some(false));
    assert_eq!(values_equal(&V::Bool(true), &V::Bool(true)), Some(true));
    assert_eq!(values_equal(&V::Str("a".to_string()), &V::Str("a".to_string())), Some(true));
    assert_eq!(values_equal(&V::Str("a".to_string()), &V::Str("b".to_string())), Some(false));
    assert_eq!(values_equal(&V::Str("1".to_string()), &V::Number(1.0)), Some(false));
    assert_eq!(values_equal(&V::Number(1.0), &V::Number(1.0)), None);
}

#[test]
fn unary_operators() {
    assert_eq!(unary_action(TokenType::Bang, &V::Nil), UnaryAction::Not(true));
    assert_eq!(unary_action(TokenType::Bang, &V::Number(0.0)), UnaryAction::Not(false));
    assert_eq!(unary_action(TokenType::Minus, &V::Number(2.0)), UnaryAction::Negate);
    assert_eq!(unary_action(TokenType::Minus, &V::Str("a".to_string())), UnaryAction::TypeError);
    assert_eq!(unary_action(TokenType::Plus, &V::Number(2.0)), UnaryAction::TypeError);
}

#[test]
fn bool_converts_to_a_value() {
    let v: V = true.into();
    assert_eq!(v, V::Bool(true));
}

#[test]
fn run_hands_the_statements_to_the_evaluator() {
    let r = run("print 1; print 2;".to_string(), |stmts: Vec<Stmt>, errors: Vec<ParserError>| {
        stmts.len() == 2 && errors.is_empty()
    });
    assert!(matches!(r, Ok(true)));
    let r = run("print 1;".to_string(), |_stmts: Vec<Stmt>, _errors: Vec<ParserError>| false);
    assert!(matches!(r, Ok(false)));
}

#[test]
fn run_reports_scanner_errors() {
    let r = run("print \"open;".to_string(), |_stmts: Vec<Stmt>, _errors: Vec<ParserError>| true);
    assert!(matches!(r, Err(RloxError::Scanner(ScannerError::UnterminatedString { line: 1 }))));
}

#[test]
fn run_hands_over_the_parse_errors() {
    let r = run("print (1; print 2; 3 +;".to_string(), |stmts: Vec<Stmt>, errors: Vec<ParserError>| {
        stmts.len() == 1
            && errors.len() == 2
            && matches!(&errors[0], ParserError::UnterminatedGroup(t) if t.lexeme == ";")
            && matches!(&errors[1], ParserError::UnexpectedToken(t) if t.lexeme == ";")
    });
    assert!(matches!(r, Ok(true)));
}
