use std::rc::Rc;

use vstd::prelude::*;

use vstd::string::StringExecFns;

use crate::text::char_text;
use crate::token::{Token, decimal, decimal_text};

verus! {

/// Errors that stop the scanner.
#[derive(Debug)]
pub enum ScannerError {
    /// A numeral whose text is not a number; holds the numeral. Scanning
    /// never reports it (the numerals it reads are digits with at most one
    /// inner dot); it is raised where a numeral is converted to a number.
    ParseFloat(String),
    UnterminatedString { line: usize },
    UnexpectedCharacter { line: usize, character: char },
    UnterminatedBlockComment { line: usize },
}

/// Errors of the parser; each holds the token at which it was found.
#[derive(Debug)]
pub enum ParserError {
    UnexpectedToken(Rc<Token>),
    UnterminatedGroup(Rc<Token>),
    UnterminatedStmt(Rc<Token>),
}

/// Errors of evaluation; each holds the token at which it was found.
#[derive(Debug)]
pub enum RuntimeError {
    TypeError(Rc<Token>),
    DivByZero(Rc<Token>),
    UndefinedVariable(Rc<Token>),
}

/// The errors of running a program.
#[derive(Debug)]
pub enum RloxError {
    Scanner(ScannerError),
    Parser(ParserError),
    Interpreter(RuntimeError),
}

impl From<ScannerError> for RloxError {
    fn from(err: ScannerError) -> (r: Self) {
        RloxError::Scanner(err)
    }
}

impl vstd::std_specs::convert::FromSpecImpl<ScannerError> for RloxError {
    open spec fn obeys_from_spec() -> bool {
        true
    }

    open spec fn from_spec(err: ScannerError) -> Self {
        RloxError::Scanner(err)
    }
}

/// `[line N] `, the start of a message about line `line`.
pub open spec fn line_prefix(line: nat) -> Seq<char> {
    "[line "@ + decimal(line) + "] "@
}

fn line_prefix_text(line: usize) -> (r: String)
    ensures
        r@ == line_prefix(line as nat),
{
    let mut s = String::from_str("[line ");
    s.append(decimal_text(line).as_str());
    s.append("] ");
    s
}

/// The message of a scanner error. A numeral that is not a number gets the
/// message of std's float parser.
pub open spec fn scanner_message(e: ScannerError) -> Seq<char> {
    match e {
        ScannerError::ParseFloat(text) => if text@.len() == 0 {
            "ParseFloatError: cannot parse float from empty string"@
        } else {
            "ParseFloatError: invalid float literal"@
        },
        ScannerError::UnterminatedString { line } => line_prefix(line as nat) + "Unterminated string."@,
        ScannerError::UnexpectedCharacter { line, character } => line_prefix(line as nat)
            + "Unexpected character: '"@ + seq![character] + "'"@,
        ScannerError::UnterminatedBlockComment { line } => line_prefix(line as nat)
            + "Unterminated block comment."@,
    }
}

/// The message of a parser error.
pub open spec fn parser_message(e: ParserError) -> Seq<char> {
    match e {
        ParserError::UnexpectedToken(t) => line_prefix(t.line as nat) + "Unexpected Token at "@ + t.lexeme@
            + "."@,
        ParserError::UnterminatedGroup(t) => line_prefix(t.line as nat)
            + "Unterminated Grouping.  Expect ')' after expression."@,
        ParserError::UnterminatedStmt(t) => line_prefix(t.line as nat) + "Unterminated Statement.  Expect ';' after "@
            + t.lexeme@ + "."@,
    }
}

/// The message of an evaluation error.
pub open spec fn runtime_message(e: RuntimeError) -> Seq<char> {
    match e {
        RuntimeError::TypeError(t) => line_prefix(t.line as nat) + "Incorrect type at "@ + t.lexeme@ + "."@,
        RuntimeError::DivByZero(t) => line_prefix(t.line as nat) + "Unable to divide by 0."@,
        RuntimeError::UndefinedVariable(t) => line_prefix(t.line as nat) + "Undefined variable "@ + t.lexeme@
            + "."@,
    }
}

/// The message of an error of running a program: its stage, then the
/// stage's message.
pub open spec fn rlox_message(e: RloxError) -> Seq<char> {
    match e {
        RloxError::Scanner(err) => "Scanner error: "@ + scanner_message(err),
        RloxError::Parser(err) => "Parser error: "@ + parser_message(err),
        RloxError::Interpreter(err) => "Interpreter error: "@ + runtime_message(err),
    }
}

impl ScannerError {
    /// The error's message.
    pub fn message(&self) -> (r: String)
        ensures
            r@ == scanner_message(*self),
    {
        match self {
            ScannerError::ParseFloat(text) => if text.as_str().unicode_len() == 0 {
                String::from_str("ParseFloatError: cannot parse float from empty string")
            } else {
                String::from_str("ParseFloatError: invalid float literal")
            },
            ScannerError::UnterminatedString { line } => {
                let mut s = line_prefix_text(*line);
                s.append("Unterminated string.");
                s
            },
            ScannerError::UnexpectedCharacter { line, character } => {
                let mut s = line_prefix_text(*line);
                s.append("Unexpected character: '");
                s.append(char_text(*character).as_str());
                s.append("'");
                s
            },
            ScannerError::UnterminatedBlockComment { line } => {
                let mut s = line_prefix_text(*line);
                s.append("Unterminated block comment.");
                s
            },
        }
    }
}

impl ParserError {
    /// The error's message.
    pub fn message(&self) -> (r: String)
        ensures
            r@ == parser_message(*self),
    {
        match self {
            ParserError::UnexpectedToken(t) => {
                let mut s = line_prefix_text(t.line);
                s.append("Unexpected Token at ");
                s.append(t.lexeme.as_str());
                s.append(".");
                s
            },
            ParserError::UnterminatedGroup(t) => {
                let mut s = line_prefix_text(t.line);
                s.append("Unterminated Grouping.  Expect ')' after expression.");
                s
            },
            ParserError::UnterminatedStmt(t) => {
                let mut s = line_prefix_text(t.line);
                s.append("Unterminated Statement.  Expect ';' after ");
                s.append(t.lexeme.as_str());
                s.append(".");
                s
            },
        }
    }
}

impl RuntimeError {
    /// The error's message.
    pub fn message(&self) -> (r: String)
        ensures
            r@ == runtime_message(*self),
    {
        match self {
            RuntimeError::TypeError(t) => {
                let mut s = line_prefix_text(t.line);
                s.append("Incorrect type at ");
                s.append(t.lexeme.as_str());
                s.append(".");
                s
            },
            RuntimeError::DivByZero(t) => {
                let mut s = line_prefix_text(t.line);
                s.append("Unable to divide by 0.");
                s
            },
            RuntimeError::UndefinedVariable(t) => {
                let mut s = line_prefix_text(t.line);
                s.append("Undefined variable ");
                s.append(t.lexeme.as_str());
                s.append(".");
                s
            },
        }
    }
}

impl RloxError {
    /// The error's message.
    pub fn message(&self) -> (r: String)
        ensures
            r@ == rlox_message(*self),
    {
        let (mut s, inner) = match self {
            RloxError::Scanner(err) => (String::from_str("Scanner error: "), err.message()),
            RloxError::Parser(err) => (String::from_str("Parser error: "), err.message()),
            RloxError::Interpreter(err) => (String::from_str("Interpreter error: "), err.message()),
        };
        s.append(inner.as_str());
        s
    }
}

} // verus!
