use std::rc::Rc;

use rlox::error::{ParserError, RloxError, RuntimeError, ScannerError};
use rlox::token::{Literal, Token, TokenType};

fn token(lexeme: &str, line: usize) -> Rc<Token> {
    Rc::new(Token { ttype: TokenType::Identifier, lexeme: lexeme.to_string(), literal: Literal::Nil, line })
}

#[test]
fn scanner_error_messages() {
    assert_eq!(ScannerError::UnterminatedString { line: 3 }.message(), "[line 3] Unterminated string.");
    assert_eq!(
        ScannerError::UnexpectedCharacter { line: 12, character: 'é' }.message(),
        "[line 12] Unexpected character: 'é'"
    );
    assert_eq!(
        ScannerError::UnterminatedBlockComment { line: 1 }.message(),
        "[line 1] Unterminated block comment."
    );
    assert_eq!(ScannerError::ParseFloat("1x".to_string()).message(), "ParseFloatError: invalid float literal");
    assert_eq!(
        ScannerError::ParseFloat(String::new()).message(),
        "ParseFloatError: cannot parse float from empty string"
    );
    // The same texts as std's float parser gives.
    assert_eq!(format!("ParseFloatError: {}", "1x".parse::<f64>().unwrap_err()), "ParseFloatError: invalid float literal");
    assert_eq!(
        format!("ParseFloatError: {}", "".parse::<f64>().unwrap_err()),
        "ParseFloatError: cannot parse float from empty string"
    );
}

#[test]
fn parser_error_messages() {
    assert_eq!(ParserError::UnexpectedToken(token("+", 2)).message(), "[line 2] Unexpected Token at +.");
    assert_eq!(
        ParserError::UnterminatedGroup(token(";", 40)).message(),
        "[line 40] Unterminated Grouping.  Expect ')' after expression."
    );
    assert_eq!(
        ParserError::UnterminatedStmt(token("1", 5)).message(),
        "[line 5] Unterminated Statement.  Expect ';' after 1."
    );
}

#[test]
fn runtime_error_messages() {
    assert_eq!(RuntimeError::TypeError(token("-", 7)).message(), "[line 7] Incorrect type at -.");
    assert_eq!(RuntimeError::DivByZero(token("/", 0)).message(), "[line 0] Unable to divide by 0.");
    assert_eq!(RuntimeError::UndefinedVariable(token("y", 9)).message(), "[line 9] Undefined variable y.");
}

#[test]
fn rlox_error_messages() {
    assert_eq!(
        RloxError::Scanner(ScannerError::UnterminatedString { line: 1 }).message(),
        "Scanner error: [line 1] Unterminated string."
    );
    assert_eq!(
        RloxError::Parser(ParserError::UnexpectedToken(token("x", 2))).message(),
        "Parser error: [line 2] Unexpected Token at x."
    );
    assert_eq!(
        RloxError::Interpreter(RuntimeError::DivByZero(token("/", 3))).message(),
        "Interpreter error: [line 3] Unable to divide by 0."
    );
}
