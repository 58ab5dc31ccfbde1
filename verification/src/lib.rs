//! A tree-walking interpreter core for the Lox language: scanner, parser,
//! variable environments and the value rules of the evaluator.

pub mod env;
pub mod error;
pub mod expr;
pub mod interpreter;
pub mod laws;
pub mod parser;
pub mod scanner;
pub mod stmt;
pub mod text;
pub mod token;

use vstd::prelude::*;
use vstd::utf8::encode_utf8;

use crate::error::{ParserError, RloxError};
use crate::parser::{Parser, at_end, eof_index, p_program, p_program_errors, tokens_ready, lemma_eof_index_at};
use crate::scanner::{Scanner, law_scanned_tokens_shape, scan_run, scan_source};
use crate::stmt::Stmt;
use crate::token::{SpecToken, Token, tokens_view};

verus! {

/// The models of a sequence of shared tokens.
pub open spec fn shared_tokens_view(toks: Seq<std::rc::Rc<Token>>) -> Seq<SpecToken> {
    toks.map_values(|t: std::rc::Rc<Token>| (*t)@)
}

/// The tokens of any scanned source are ready for the parser: parsing from
/// the start never runs past the closing `EOF`.
pub proof fn law_scanned_tokens_parse(src: Seq<u8>, toks: Seq<std::rc::Rc<Token>>)
    requires
        scan_source(src) matches Ok(ts) && shared_tokens_view(toks) == ts,
    ensures
        tokens_ready(toks, 0),
        eof_index(toks, 0) == toks.len() - 1,
{
    let ts = scan_source(src)->Ok_0;
    law_scanned_tokens_shape(src);
    let n = toks.len() - 1;
    assert forall|i: int| 0 <= i < toks.len() implies (*#[trigger] toks[i])@ == ts[i] by {
        assert(shared_tokens_view(toks)[i] == ts[i]);
    }
    assert forall|k: int| 0 <= k < n implies !at_end(toks, k) by {
        assert((*toks[k])@ == ts[k]);
    }
    assert(at_end(toks, n)) by {
        assert((*toks[n])@ == ts[n]);
    }
    lemma_eof_index_at(toks, 0, n);
}

/// Runs a program: scans and parses `source`, then hands the statements and
/// the parse errors to `interpret`, which reports the errors, evaluates the
/// statements and tells whether evaluation succeeded.
///
/// A scanning error is returned; otherwise the result is what `interpret`
/// answered for the program's statements (declarations that fail to parse
/// are left out of them, and their errors handed over in order).
pub fn run<F: FnOnce(Vec<Stmt>, Vec<ParserError>) -> bool>(source: String, interpret: F) -> (r: Result<bool, RloxError>)
    requires
        encode_utf8(source@).len() < usize::MAX,
        forall|stmts: Vec<Stmt>, errors: Vec<ParserError>| call_requires(interpret, (stmts, errors)),
    ensures
        match scan_source(encode_utf8(source@)) {
            Err(e) => r == Err::<bool, RloxError>(RloxError::Scanner(e)),
            Ok(scanned) => exists|toks: Seq<std::rc::Rc<Token>>, stmts: Vec<Stmt>, errors: Vec<ParserError>, b: bool|
                {
                    &&& shared_tokens_view(toks) == scanned
                    &&& stmts@ == p_program(toks, 0)
                    &&& errors@ == p_program_errors(toks, 0)
                    &&& call_ensures(interpret, (stmts, errors), b)
                    &&& r == Ok::<bool, RloxError>(b)
                },
        },
{
    let ghost src = encode_utf8(source@);
    let mut scanner = Scanner::new(source);
    let tokens = match scanner.scan_tokens() {
        Ok(tokens) => tokens,
        Err(e) => {
            return Err(RloxError::from(e));
        },
    };
    let ghost scanned = scan_run(src, 0, 0, 1);
    let mut parser = Parser::new(tokens);
    let ghost toks = parser.tokens@;
    proof {
        assert(tokens_view(tokens@) =~= scanned.tokens.push(crate::scanner::eof_token(scanned.line)));
        assert(shared_tokens_view(toks) =~= tokens_view(tokens@));
        law_scanned_tokens_parse(src, toks);
    }
    let (stmts, errors) = parser.parse_with_errors();
    let b = interpret(stmts, errors);
    Ok(b)
}

} // verus!
