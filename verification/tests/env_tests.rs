use std::rc::Rc;

use rlox::env::Environment;
use rlox::error::RuntimeError;
use rlox::token::{Literal, Token, TokenType};

fn name(s: &str) -> Rc<Token> {
    Rc::new(Token {
        ttype: TokenType::Identifier,
        lexeme: s.to_string(),
        literal: Literal::Identifier(s.to_string()),
        line: 1,
    })
}

#[test]
fn get_after_define() {
    let mut env: Environment<i64> = Environment::new();
    assert_eq!(env.define("a".to_string(), 1), None);
    assert_eq!(env.get(&name("a")).unwrap(), 1);
    assert_eq!(env.define("a".to_string(), 2), Some(1));
    assert_eq!(env.get(&name("a")).unwrap(), 2);
}

#[test]
fn define_keeps_other_names() {
    let mut env: Environment<i64> = Environment::new();
    env.define("a".to_string(), 1);
    env.define("b".to_string(), 2);
    assert_eq!(env.get(&name("a")).unwrap(), 1);
    assert_eq!(env.get(&name("b")).unwrap(), 2);
}

#[test]
fn undefined_variable_is_an_error() {
    let env: Environment<i64> = Environment::new();
    match env.get(&name("x")) {
        Err(RuntimeError::UndefinedVariable(t)) => assert_eq!(t.lexeme, "x"),
        other => panic!("unexpected {:?}", other),
    }
}

#[test]
fn assign_then_get() {
    let mut env: Environment<i64> = Environment::new();
    env.define("a".to_string(), 1);
    assert_eq!(env.assign(&name("a"), 5).unwrap(), 5);
    assert_eq!(env.get(&name("a")).unwrap(), 5);
}

#[test]
fn assign_to_undefined_changes_nothing() {
    let mut env: Environment<i64> = Environment::new();
    env.define("a".to_string(), 1);
    match env.assign(&name("b"), 5) {
        Err(RuntimeError::UndefinedVariable(t)) => assert_eq!(t.lexeme, "b"),
        other => panic!("unexpected {:?}", other),
    }
    assert_eq!(env.get(&name("a")).unwrap(), 1);
    assert!(env.get(&name("b")).is_err());
}

#[test]
fn inner_scope_shadows_and_vanishes() {
    let mut outer: Environment<i64> = Environment::new();
    outer.define("a".to_string(), 1);
    let mut inner = Environment::new_from(outer);
    assert_eq!(inner.get(&name("a")).unwrap(), 1);
    inner.define("a".to_string(), 2);
    inner.define("b".to_string(), 3);
    assert_eq!(inner.get(&name("a")).unwrap(), 2);
    let outer = inner.into_enclosing().unwrap();
    assert_eq!(outer.get(&name("a")).unwrap(), 1);
    assert!(outer.get(&name("b")).is_err());
    assert!(outer.into_enclosing().is_none());
}

#[test]
fn assignment_in_inner_scope_persists() {
    let mut outer: Environment<i64> = Environment::new();
    outer.define("a".to_string(), 1);
    let mut inner = Environment::new_from(outer);
    assert_eq!(inner.assign(&name("a"), 7).unwrap(), 7);
    let outer = inner.into_enclosing().unwrap();
    assert_eq!(outer.get(&name("a")).unwrap(), 7);
}
