use std::rc::Rc;

use vstd::prelude::*;
use vstd::string::StringExecFns;
use vstd::utf8::encode_utf8;

use crate::text::{lemma_text_of, text_is_function, text_of};

verus! {

/// The kinds of lexical tokens of Lox.
#[derive(Clone, Copy, Debug, PartialEq, Eq, Structural)]
pub enum TokenType {
    // Single-character tokens
    LeftParen,
    RightParen,
    LeftBrace,
    RightBrace,
    Comma,
    Dot,
    Minus,
    Plus,
    Semicolon,
    Slash,
    Star,
    // One or two character tokens
    Bang,
    BangEqual,
    Equal,
    EqualEqual,
    Greater,
    GreaterEqual,
    Less,
    LessEqual,
    // Literals
    Identifier,
    String,
    Number,
    // Keywords
    And,
    Class,
    Else,
    False,
    Fun,
    For,
    If,
    Nil,
    Or,
    Print,
    Return,
    Super,
    This,
    True,
    Var,
    While,
    EOF,
}

/// The literal value a token carries.
///
/// A number literal keeps its numeral text (ASCII digits with at most one
/// inner dot); converting it to a floating-point value is left to the evaluator.
/// The scanner gives identifiers `Nil`; the parser reads a variable only from
/// an identifier that carries an `Identifier` literal.
#[derive(Clone, Debug, PartialEq)]
pub enum Literal {
    Identifier(String),
    Str(String),
    Number(String),
    Bool(bool),
    Nil,
}

/// A lexical token: its kind, the source text it covers, its literal value and
/// the line on which it ends.
#[derive(Clone, Debug)]
pub struct Token {
    pub ttype: TokenType,
    pub lexeme: String,
    pub literal: Literal,
    pub line: usize,
}

/// The mathematical model of a literal: texts are taken as their UTF-8 bytes.
pub enum SpecLiteral {
    Identifier(Seq<u8>),
    Str(Seq<u8>),
    Number(Seq<u8>),
    Bool(bool),
    Nil,
}

/// The mathematical model of a token.
pub struct SpecToken {
    pub ttype: TokenType,
    pub lexeme: Seq<u8>,
    pub literal: SpecLiteral,
    pub line: nat,
}

/// The UTF-8 bytes of a string.
pub open spec fn utf8_of(s: String) -> Seq<u8> {
    encode_utf8(s@)
}

impl View for Literal {
    type V = SpecLiteral;

    open spec fn view(&self) -> SpecLiteral {
        match self {
            Literal::Identifier(s) => SpecLiteral::Identifier(utf8_of(*s)),
            Literal::Str(s) => SpecLiteral::Str(utf8_of(*s)),
            Literal::Number(s) => SpecLiteral::Number(utf8_of(*s)),
            Literal::Bool(b) => SpecLiteral::Bool(*b),
            Literal::Nil => SpecLiteral::Nil,
        }
    }
}

impl View for Token {
    type V = SpecToken;

    open spec fn view(&self) -> SpecToken {
        SpecToken {
            ttype: self.ttype,
            lexeme: utf8_of(self.lexeme),
            literal: self.literal@,
            line: self.line as nat,
        }
    }
}

/// Copies a shared pointer.
///
/// Trusted: `Rc::clone` hands out another pointer to the same allocation, so
/// the copy stands for the same value.
#[verifier::external_body]
pub(crate) fn share<T>(r: &Rc<T>) -> (c: Rc<T>)
    ensures
        c == *r,
{
    Rc::clone(r)
}

/// The models of a sequence of tokens.
pub open spec fn tokens_view(ts: Seq<Token>) -> Seq<SpecToken> {
    ts.map_values(|t: Token| t@)
}


/// The name of a token kind, as it is written in Lox's source of the kinds.
pub open spec fn kind_name(t: TokenType) -> Seq<char> {
    match t {
        TokenType::LeftParen => "LeftParen"@,
        TokenType::RightParen => "RightParen"@,
        TokenType::LeftBrace => "LeftBrace"@,
        TokenType::RightBrace => "RightBrace"@,
        TokenType::Comma => "Comma"@,
        TokenType::Dot => "Dot"@,
        TokenType::Minus => "Minus"@,
        TokenType::Plus => "Plus"@,
        TokenType::Semicolon => "Semicolon"@,
        TokenType::Slash => "Slash"@,
        TokenType::Star => "Star"@,
        TokenType::Bang => "Bang"@,
        TokenType::BangEqual => "BangEqual"@,
        TokenType::Equal => "Equal"@,
        TokenType::EqualEqual => "EqualEqual"@,
        TokenType::Greater => "Greater"@,
        TokenType::GreaterEqual => "GreaterEqual"@,
        TokenType::Less => "Less"@,
        TokenType::LessEqual => "LessEqual"@,
        TokenType::Identifier => "Identifier"@,
        TokenType::String => "String"@,
        TokenType::Number => "Number"@,
        TokenType::And => "And"@,
        TokenType::Class => "Class"@,
        TokenType::Else => "Else"@,
        TokenType::False => "False"@,
        TokenType::Fun => "Fun"@,
        TokenType::For => "For"@,
        TokenType::If => "If"@,
        TokenType::Nil => "Nil"@,
        TokenType::Or => "Or"@,
        TokenType::Print => "Print"@,
        TokenType::Return => "Return"@,
        TokenType::Super => "Super"@,
        TokenType::This => "This"@,
        TokenType::True => "True"@,
        TokenType::Var => "Var"@,
        TokenType::While => "While"@,
        TokenType::EOF => "EOF"@,
    }
}

/// The name of a token kind.
pub fn kind_name_text(t: TokenType) -> (r: &'static str)
    ensures
        r@ == kind_name(t),
{
    match t {
        TokenType::LeftParen => "LeftParen",
        TokenType::RightParen => "RightParen",
        TokenType::LeftBrace => "LeftBrace",
        TokenType::RightBrace => "RightBrace",
        TokenType::Comma => "Comma",
        TokenType::Dot => "Dot",
        TokenType::Minus => "Minus",
        TokenType::Plus => "Plus",
        TokenType::Semicolon => "Semicolon",
        TokenType::Slash => "Slash",
        TokenType::Star => "Star",
        TokenType::Bang => "Bang",
        TokenType::BangEqual => "BangEqual",
        TokenType::Equal => "Equal",
        TokenType::EqualEqual => "EqualEqual",
        TokenType::Greater => "Greater",
        TokenType::GreaterEqual => "GreaterEqual",
        TokenType::Less => "Less",
        TokenType::LessEqual => "LessEqual",
        TokenType::Identifier => "Identifier",
        TokenType::String => "String",
        TokenType::Number => "Number",
        TokenType::And => "And",
        TokenType::Class => "Class",
        TokenType::Else => "Else",
        TokenType::False => "False",
        TokenType::Fun => "Fun",
        TokenType::For => "For",
        TokenType::If => "If",
        TokenType::Nil => "Nil",
        TokenType::Or => "Or",
        TokenType::Print => "Print",
        TokenType::Return => "Return",
        TokenType::Super => "Super",
        TokenType::This => "This",
        TokenType::True => "True",
        TokenType::Var => "Var",
        TokenType::While => "While",
        TokenType::EOF => "EOF",
    }
}

/// The decimal digit `d`.
pub open spec fn digit(d: nat) -> Seq<char> {
    if d == 0 {
        "0"@
    } else if d == 1 {
        "1"@
    } else if d == 2 {
        "2"@
    } else if d == 3 {
        "3"@
    } else if d == 4 {
        "4"@
    } else if d == 5 {
        "5"@
    } else if d == 6 {
        "6"@
    } else if d == 7 {
        "7"@
    } else if d == 8 {
        "8"@
    } else {
        "9"@
    }
}

/// The decimal numeral of `n`, without leading zeros.
pub open spec fn decimal(n: nat) -> Seq<char>
    decreases n,
{
    if n < 10 {
        digit(n)
    } else {
        decimal(n / 10) + digit(n % 10)
    }
}

fn digit_text(d: usize) -> (r: &'static str)
    requires
        d < 10,
    ensures
        r@ == digit(d as nat),
{
    match d {
        0 => "0",
        1 => "1",
        2 => "2",
        3 => "3",
        4 => "4",
        5 => "5",
        6 => "6",
        7 => "7",
        8 => "8",
        _ => "9",
    }
}

/// The decimal numeral of `n`.
pub fn decimal_text(n: usize) -> (r: String)
    ensures
        r@ == decimal(n as nat),
    decreases n,
{
    if n < 10 {
        String::from_str(digit_text(n))
    } else {
        let mut s = decimal_text(n / 10);
        s.append(digit_text(n % 10));
        s
    }
}

/// A one-line description of a token: its line, kind, lexeme and literal,
/// the literal as `show_literal` gives it.
pub open spec fn token_line<L: Fn(&Literal) -> String>(show_literal: L, t: Token) -> Seq<char> {
    "line:"@ + decimal(t.line as nat) + ", ttype"@ + kind_name(t.ttype) + ", lexeme:"@ + t.lexeme@
        + ", literal:"@ + text_of(show_literal, t.literal)
}

impl Token {
    /// A one-line description of the token; `show_literal` gives the text of
    /// its literal.
    pub fn show<L: Fn(&Literal) -> String>(&self, show_literal: &L) -> (r: String)
        requires
            forall|l: &Literal| call_requires(*show_literal, (l,)),
            text_is_function::<Literal, L>(*show_literal),
        ensures
            r@ == token_line(*show_literal, *self),
    {
        let literal = show_literal(&self.literal);
        proof {
            lemma_text_of(*show_literal, self.literal, literal);
        }
        let mut s = String::from_str("line:");
        s.append(decimal_text(self.line).as_str());
        s.append(", ttype");
        s.append(kind_name_text(self.ttype));
        s.append(", lexeme:");
        s.append(self.lexeme.as_str());
        s.append(", literal:");
        s.append(literal.as_str());
        s
    }
}

} // verus!
