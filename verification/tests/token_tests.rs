use rlox::token::{decimal_text, kind_name_text, Literal, Token, TokenType};

fn literal_debug(l: &Literal) -> String {
    match l {
        Literal::Number(n) => format!("Number({:?})", n.parse::<f64>().unwrap()),
        Literal::Str(s) => format!("Str({:?})", s),
        Literal::Identifier(s) => format!("Identifier({:?})", s),
        Literal::Bool(b) => format!("Bool({:?})", b),
        Literal::Nil => "Nil".to_string(),
    }
}

#[test]
fn token_show_describes_the_token() {
    let t = Token {
        ttype: TokenType::Number,
        lexeme: "12".to_string(),
        literal: Literal::Number("12".to_string()),
        line: 305,
    };
    assert_eq!(t.show(&literal_debug), "line:305, ttypeNumber, lexeme:12, literal:Number(12.0)");
    let t = Token { ttype: TokenType::LeftParen, lexeme: "(".to_string(), literal: Literal::Nil, line: 0 };
    assert_eq!(t.show(&literal_debug), "line:0, ttypeLeftParen, lexeme:(, literal:Nil");
}

#[test]
fn decimal_numerals() {
    assert_eq!(decimal_text(0), "0");
    assert_eq!(decimal_text(9), "9");
    assert_eq!(decimal_text(10), "10");
    assert_eq!(decimal_text(1234567890), "1234567890");
    assert_eq!(decimal_text(usize::MAX), usize::MAX.to_string());
}

#[test]
fn kind_names_are_the_variant_names() {
    for t in [TokenType::LeftParen, TokenType::BangEqual, TokenType::Identifier, TokenType::While, TokenType::EOF] {
        assert_eq!(kind_name_text(t), format!("{:?}", t));
    }
}
