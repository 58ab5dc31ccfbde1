use rlox::error::ScannerError;
use rlox::scanner::{keyword_capture, Scanner};
use rlox::token::{Literal, TokenType};

fn kinds(src: &str) -> Vec<TokenType> {
    Scanner::new(src.to_string())
        .scan_tokens()
        .unwrap()
        .iter()
        .map(|t| t.ttype)
        .collect()
}

#[test]
fn keywords_are_recognised() {
    assert_eq!(keyword_capture("and"), Some(TokenType::And));
    assert_eq!(keyword_capture("while"), Some(TokenType::While));
    assert_eq!(keyword_capture("var"), Some(TokenType::Var));
    assert_eq!(keyword_capture("vars"), None);
    assert_eq!(keyword_capture("Var"), None);
    assert_eq!(keyword_capture(""), None);
}

#[test]
fn operators_of_one_and_two_characters() {
    assert_eq!(
        kinds("! != = == < <= > >= ( ) { } , . - + ; * /"),
        vec![
            TokenType::Bang,
            TokenType::BangEqual,
            TokenType::Equal,
            TokenType::EqualEqual,
            TokenType::Less,
            TokenType::LessEqual,
            TokenType::Greater,
            TokenType::GreaterEqual,
            TokenType::LeftParen,
            TokenType::RightParen,
            TokenType::LeftBrace,
            TokenType::RightBrace,
            TokenType::Comma,
            TokenType::Dot,
            TokenType::Minus,
            TokenType::Plus,
            TokenType::Semicolon,
            TokenType::Star,
            TokenType::Slash,
            TokenType::EOF,
        ]
    );
}

#[test]
fn numbers_keep_their_numeral() {
    let toks = Scanner::new("12.5 7. 3".to_string()).scan_tokens().unwrap();
    assert_eq!(toks.len(), 5);
    assert_eq!(toks[0].ttype, TokenType::Number);
    assert_eq!(toks[0].lexeme, "12.5");
    assert_eq!(toks[0].literal, Literal::Number("12.5".to_string()));
    assert_eq!(toks[1].lexeme, "7");
    assert_eq!(toks[2].ttype, TokenType::Dot);
    assert_eq!(toks[3].lexeme, "3");
    assert_eq!(toks[4].ttype, TokenType::EOF);
    assert_eq!(toks[4].lexeme, "");
}

#[test]
fn strings_span_lines() {
    let toks = Scanner::new("\"a\nb\" x".to_string()).scan_tokens().unwrap();
    assert_eq!(toks[0].ttype, TokenType::String);
    assert_eq!(toks[0].lexeme, "\"a\nb\"");
    assert_eq!(toks[0].literal, Literal::Str("a\nb".to_string()));
    assert_eq!(toks[0].line, 2);
    assert_eq!(toks[1].ttype, TokenType::Identifier);
    assert_eq!(toks[1].literal, Literal::Nil);
}

#[test]
fn strings_keep_non_ascii_text() {
    let toks = Scanner::new("\"héllo\"".to_string()).scan_tokens().unwrap();
    assert_eq!(toks[0].literal, Literal::Str("héllo".to_string()));
}

#[test]
fn comments_are_skipped_and_nest() {
    let toks = Scanner::new("a // b\n/* c /* d */ e\n*/ f".to_string()).scan_tokens().unwrap();
    let lexemes: Vec<&str> = toks.iter().map(|t| t.lexeme.as_str()).collect();
    assert_eq!(lexemes, vec!["a", "f", ""]);
    assert_eq!(toks[1].line, 3);
}

#[test]
fn keywords_and_identifiers() {
    let toks = Scanner::new("var foo_1 = nil;".to_string()).scan_tokens().unwrap();
    assert_eq!(toks[0].ttype, TokenType::Var);
    assert_eq!(toks[0].literal, Literal::Nil);
    assert_eq!(toks[1].ttype, TokenType::Identifier);
    assert_eq!(toks[1].lexeme, "foo_1");
    assert_eq!(toks[3].ttype, TokenType::Nil);
    assert_eq!(toks[4].ttype, TokenType::Semicolon);
}

#[test]
fn unterminated_string_is_an_error() {
    match Scanner::new("\"abc\n".to_string()).scan_tokens() {
        Err(ScannerError::UnterminatedString { line }) => assert_eq!(line, 2),
        other => panic!("unexpected {:?}", other),
    }
}

#[test]
fn unexpected_character_is_an_error() {
    match Scanner::new("a\n@".to_string()).scan_tokens() {
        Err(ScannerError::UnexpectedCharacter { line, character }) => {
            assert_eq!(line, 2);
            assert_eq!(character, '@');
        }
        other => panic!("unexpected {:?}", other),
    }
}

#[test]
fn non_ascii_outside_strings_reports_its_first_byte() {
    match Scanner::new("é".to_string()).scan_tokens() {
        Err(ScannerError::UnexpectedCharacter { line, character }) => {
            assert_eq!(line, 1);
            assert_eq!(character, 0xC3u8 as char);
        }
        other => panic!("unexpected {:?}", other),
    }
}

#[test]
fn unterminated_block_comment_is_an_error() {
    match Scanner::new("/* a /* b */\n".to_string()).scan_tokens() {
        Err(ScannerError::UnterminatedBlockComment { line }) => assert_eq!(line, 2),
        other => panic!("unexpected {:?}", other),
    }
}

#[test]
fn scanner_is_left_empty_after_success() {
    let mut s = Scanner::new("1+2".to_string());
    let toks = s.scan_tokens().unwrap();
    assert_eq!(toks.len(), 4);
    assert!(s.tokens.is_empty());
    assert_eq!(s.current, 3);
    assert_eq!(s.line, 1);
}
