use std::rc::Rc;

use vstd::prelude::*;

use crate::env::lookup;
use crate::expr::{Expr, pad, pretty_text};
use crate::parser::{
    Parsed, binary, p_comparison, p_comparison_rest, p_consume, p_declaration, p_declaration_error, p_declaration_outcome, p_equality,
    p_equality_rest, p_expression, p_factor, p_factor_rest, p_primary, p_print_statement, p_program, p_program_errors,
    p_statement, p_term, p_term_rest, p_unary, p_var_declaration, sync_from, synchronize,
};
use crate::interpreter::{
    arithmetic, binary_value, compared, equality_rule, eval_expr, negated, numbers_equal_spec, numeral_value,
    BinaryAction, NumberOp, RuntimeValue, Scopes, UnaryAction, ValueModel, binary_rule, evaluated, run_stmt, shown,
    truthy, unary_rule, run_program, run_stmts, stmt_size, stmts_size,
};
use crate::error::{parser_message, rlox_message, runtime_message, scanner_message};
use crate::scanner::{Step, block_comment_end, digits_end, eof_token, line_end, string_end, keyword_of, scan_run, scan_source, scan_step, word_end};
use crate::stmt::Stmt;
use crate::text::text_of;
use crate::token::{Literal, SpecLiteral, SpecToken, Token, TokenType, decimal, digit, kind_name, token_line};

verus! {

// ---------------------------------------------------------------------------
// Laws of the language, each stated with the tokens, operations, bytes or
// names it concerns written out.
// ---------------------------------------------------------------------------

/// Each arithmetic or comparison operator, applied to two numbers, performs
/// its own operation: `>` is `Greater`, `>=` is `GreaterEqual`, `<` is `Less`,
/// `<=` is `LessEqual`, `-` is `Subtract`, `*` is `Multiply`, `/` is `Divide`
/// and `+` is `Add`.
pub proof fn law_number_operators<N>(x: N, y: N)
    ensures
        binary_rule(TokenType::Greater, ValueModel::Number(x), ValueModel::Number(y)) == BinaryAction::Numbers(
            NumberOp::Greater,
        ),
        binary_rule(TokenType::GreaterEqual, ValueModel::Number(x), ValueModel::Number(y))
            == BinaryAction::Numbers(NumberOp::GreaterEqual),
        binary_rule(TokenType::Less, ValueModel::Number(x), ValueModel::Number(y)) == BinaryAction::Numbers(
            NumberOp::Less,
        ),
        binary_rule(TokenType::LessEqual, ValueModel::Number(x), ValueModel::Number(y)) == BinaryAction::Numbers(
            NumberOp::LessEqual,
        ),
        binary_rule(TokenType::Minus, ValueModel::Number(x), ValueModel::Number(y)) == BinaryAction::Numbers(
            NumberOp::Subtract,
        ),
        binary_rule(TokenType::Star, ValueModel::Number(x), ValueModel::Number(y)) == BinaryAction::Numbers(
            NumberOp::Multiply,
        ),
        binary_rule(TokenType::Slash, ValueModel::Number(x), ValueModel::Number(y)) == BinaryAction::Numbers(
            NumberOp::Divide,
        ),
        binary_rule(TokenType::Plus, ValueModel::Number(x), ValueModel::Number(y)) == BinaryAction::Numbers(
            NumberOp::Add,
        ),
{
}

/// `==` compares any two values and `!=` gives the opposite; `+` joins two
/// strings, or a string and a number's text either way round.
pub proof fn law_equality_and_joining<N>(a: ValueModel<N>, b: ValueModel<N>, s: Seq<char>, t: Seq<char>, x: N)
    ensures
        binary_rule(TokenType::EqualEqual, a, b) == (BinaryAction::Equality { negate: false }),
        binary_rule(TokenType::BangEqual, a, b) == (BinaryAction::Equality { negate: true }),
        binary_rule(TokenType::Plus, ValueModel::<N>::Str(s), ValueModel::<N>::Str(t)) == BinaryAction::JoinStrings,
        binary_rule(TokenType::Plus, ValueModel::Str(s), ValueModel::Number(x)) == BinaryAction::JoinStringNumber,
        binary_rule(TokenType::Plus, ValueModel::Number(x), ValueModel::Str(s)) == BinaryAction::JoinNumberString,
{
}

/// `!` gives the opposite of a value's truth, on any value; `-` negates a
/// number and refuses anything else.
pub proof fn law_unary_operators<N>(v: ValueModel<N>, x: N)
    ensures
        unary_rule(TokenType::Bang, v) == UnaryAction::Not(
            !(match v {
                ValueModel::Nil => false,
                ValueModel::Bool(b) => b,
                _ => true,
            }),
        ),
        unary_rule(TokenType::Minus, ValueModel::Number(x)) == UnaryAction::Negate,
        !(v is Number) ==> unary_rule(TokenType::Minus, v) == UnaryAction::TypeError,
{
}

/// After a variable declaration, the declared name reads as the initializer's
/// value (`nil` without initializer), whatever it held before, and every
/// other name reads as before; a declaration whose initializer fails changes
/// nothing.
pub proof fn law_declaration_binds<N, F, G>(
    evaluate: F,
    show: G,
    scopes: Scopes<N>,
    name: Rc<Token>,
    initializer: Option<Box<Expr>>,
    other: Seq<char>,
) where
    F: Fn(&crate::env::Environment<RuntimeValue<N>>, &Expr) -> Result<RuntimeValue<N>, crate::error::RuntimeError>,
    G: Fn(&RuntimeValue<N>) -> String,

    requires
        scopes.len() > 0,
    ensures
        ({
            let (after, r) = run_stmt(evaluate, show, scopes, Stmt::Var { name, initializer });
            match initializer {
                Some(e) => match evaluated(evaluate, scopes, *e) {
                    Ok(v) => {
                        &&& r == Ok::<Option<String>, crate::error::RuntimeError>(None)
                        &&& lookup(after, name.lexeme@) == Some(v)
                        &&& other != name.lexeme@ ==> lookup(after, other) == lookup(scopes, other)
                        &&& after.len() == scopes.len()
                    },
                    Err(x) => after == scopes && r == Err::<Option<String>, crate::error::RuntimeError>(x),
                },
                None => {
                    &&& r == Ok::<Option<String>, crate::error::RuntimeError>(None)
                    &&& lookup(after, name.lexeme@) == Some(RuntimeValue::<N>::Nil)
                    &&& other != name.lexeme@ ==> lookup(after, other) == lookup(scopes, other)
                    &&& after.len() == scopes.len()
                },
            }
        }),
{
    let value = match initializer {
        Some(e) => evaluated(evaluate, scopes, *e),
        None => Ok(RuntimeValue::Nil),
    };
    if let Ok(v) = value {
        crate::env::law_get_after_define(scopes, name.lexeme@, v);
        if other != name.lexeme@ {
            crate::env::law_define_keeps_others(scopes, name.lexeme@, other, v);
        }
    }
}

/// A `print` or expression statement outputs the text of its expression's
/// value and leaves the variables as they were.
pub proof fn law_output_statements<N, F, G>(evaluate: F, show: G, scopes: Scopes<N>, e: Box<Expr>) where
    F: Fn(&crate::env::Environment<RuntimeValue<N>>, &Expr) -> Result<RuntimeValue<N>, crate::error::RuntimeError>,
    G: Fn(&RuntimeValue<N>) -> String,

    ensures
        match evaluated(evaluate, scopes, *e) {
            Ok(v) => {
                &&& run_stmt(evaluate, show, scopes, Stmt::Print(e)) == (
                    scopes,
                    Ok::<Option<String>, crate::error::RuntimeError>(Some(shown(show, v))),
                )
                &&& run_stmt(evaluate, show, scopes, Stmt::Expression(e)) == (
                    scopes,
                    Ok::<Option<String>, crate::error::RuntimeError>(Some(shown(show, v))),
                )
            },
            Err(x) => {
                &&& run_stmt(evaluate, show, scopes, Stmt::Print(e)) == (
                    scopes,
                    Err::<Option<String>, crate::error::RuntimeError>(x),
                )
                &&& run_stmt(evaluate, show, scopes, Stmt::Expression(e)) == (
                    scopes,
                    Err::<Option<String>, crate::error::RuntimeError>(x),
                )
            },
        },
{
}

/// The name of each token kind is the kind's name as written in the list of
/// kinds.
pub proof fn law_kind_names()
    ensures
        kind_name(TokenType::LeftParen) == seq!['L', 'e', 'f', 't', 'P', 'a', 'r', 'e', 'n'],
        kind_name(TokenType::RightParen) == seq!['R', 'i', 'g', 'h', 't', 'P', 'a', 'r', 'e', 'n'],
        kind_name(TokenType::LeftBrace) == seq!['L', 'e', 'f', 't', 'B', 'r', 'a', 'c', 'e'],
        kind_name(TokenType::RightBrace) == seq!['R', 'i', 'g', 'h', 't', 'B', 'r', 'a', 'c', 'e'],
        kind_name(TokenType::Comma) == seq!['C', 'o', 'm', 'm', 'a'],
        kind_name(TokenType::Dot) == seq!['D', 'o', 't'],
        kind_name(TokenType::Minus) == seq!['M', 'i', 'n', 'u', 's'],
        kind_name(TokenType::Plus) == seq!['P', 'l', 'u', 's'],
        kind_name(TokenType::Semicolon) == seq!['S', 'e', 'm', 'i', 'c', 'o', 'l', 'o', 'n'],
        kind_name(TokenType::Slash) == seq!['S', 'l', 'a', 's', 'h'],
        kind_name(TokenType::Star) == seq!['S', 't', 'a', 'r'],
        kind_name(TokenType::Bang) == seq!['B', 'a', 'n', 'g'],
        kind_name(TokenType::BangEqual) == seq!['B', 'a', 'n', 'g', 'E', 'q', 'u', 'a', 'l'],
        kind_name(TokenType::Equal) == seq!['E', 'q', 'u', 'a', 'l'],
        kind_name(TokenType::EqualEqual) == seq!['E', 'q', 'u', 'a', 'l', 'E', 'q', 'u', 'a', 'l'],
        kind_name(TokenType::Greater) == seq!['G', 'r', 'e', 'a', 't', 'e', 'r'],
        kind_name(TokenType::GreaterEqual) == seq!['G', 'r', 'e', 'a', 't', 'e', 'r', 'E', 'q', 'u', 'a', 'l'],
        kind_name(TokenType::Less) == seq!['L', 'e', 's', 's'],
        kind_name(TokenType::LessEqual) == seq!['L', 'e', 's', 's', 'E', 'q', 'u', 'a', 'l'],
        kind_name(TokenType::Identifier) == seq!['I', 'd', 'e', 'n', 't', 'i', 'f', 'i', 'e', 'r'],
        kind_name(TokenType::String) == seq!['S', 't', 'r', 'i', 'n', 'g'],
        kind_name(TokenType::Number) == seq!['N', 'u', 'm', 'b', 'e', 'r'],
        kind_name(TokenType::And) == seq!['A', 'n', 'd'],
        kind_name(TokenType::Class) == seq!['C', 'l', 'a', 's', 's'],
        kind_name(TokenType::Else) == seq!['E', 'l', 's', 'e'],
        kind_name(TokenType::False) == seq!['F', 'a', 'l', 's', 'e'],
        kind_name(TokenType::Fun) == seq!['F', 'u', 'n'],
        kind_name(TokenType::For) == seq!['F', 'o', 'r'],
        kind_name(TokenType::If) == seq!['I', 'f'],
        kind_name(TokenType::Nil) == seq!['N', 'i', 'l'],
        kind_name(TokenType::Or) == seq!['O', 'r'],
        kind_name(TokenType::Print) == seq!['P', 'r', 'i', 'n', 't'],
        kind_name(TokenType::Return) == seq!['R', 'e', 't', 'u', 'r', 'n'],
        kind_name(TokenType::Super) == seq!['S', 'u', 'p', 'e', 'r'],
        kind_name(TokenType::This) == seq!['T', 'h', 'i', 's'],
        kind_name(TokenType::True) == seq!['T', 'r', 'u', 'e'],
        kind_name(TokenType::Var) == seq!['V', 'a', 'r'],
        kind_name(TokenType::While) == seq!['W', 'h', 'i', 'l', 'e'],
        kind_name(TokenType::EOF) == seq!['E', 'O', 'F'],
{
    reveal_strlit("LeftParen");
    reveal_strlit("RightParen");
    reveal_strlit("LeftBrace");
    reveal_strlit("RightBrace");
    reveal_strlit("Comma");
    reveal_strlit("Dot");
    reveal_strlit("Minus");
    reveal_strlit("Plus");
    reveal_strlit("Semicolon");
    reveal_strlit("Slash");
    reveal_strlit("Star");
    reveal_strlit("Bang");
    reveal_strlit("BangEqual");
    reveal_strlit("Equal");
    reveal_strlit("EqualEqual");
    reveal_strlit("Greater");
    reveal_strlit("GreaterEqual");
    reveal_strlit("Less");
    reveal_strlit("LessEqual");
    reveal_strlit("Identifier");
    reveal_strlit("String");
    reveal_strlit("Number");
    reveal_strlit("And");
    reveal_strlit("Class");
    reveal_strlit("Else");
    reveal_strlit("False");
    reveal_strlit("Fun");
    reveal_strlit("For");
    reveal_strlit("If");
    reveal_strlit("Nil");
    reveal_strlit("Or");
    reveal_strlit("Print");
    reveal_strlit("Return");
    reveal_strlit("Super");
    reveal_strlit("This");
    reveal_strlit("True");
    reveal_strlit("Var");
    reveal_strlit("While");
    reveal_strlit("EOF");
}

/// Two kinds never share a name.
pub proof fn law_kind_names_distinct(a: TokenType, b: TokenType)
    requires
        kind_name(a) == kind_name(b),
    ensures
        a == b,
{
    law_kind_names();
    // The length and the characters at 0, 1 and 5 already tell the names apart.
    assert(kind_name(a).len() == kind_name(b).len());
    assert(kind_name(a)[0] == kind_name(b)[0]);
    assert(kind_name(a)[1] == kind_name(b)[1]);
    if kind_name(a).len() > 5 {
        assert(kind_name(a)[5] == kind_name(b)[5]);
    }
}

/// The tokens of `print <number> <op> <number>;` followed by the end, with
/// the number tokens carrying their numbers.
pub open spec fn print_binary_tokens(toks: Seq<Rc<Token>>) -> bool {
    &&& toks.len() == 6
    &&& toks[0].ttype == TokenType::Print
    &&& toks[1].ttype == TokenType::Number && toks[1].literal is Number
    &&& toks[3].ttype == TokenType::Number && toks[3].literal is Number
    &&& toks[4].ttype == TokenType::Semicolon
    &&& toks[5].ttype == TokenType::EOF
}

/// A token's literal.
spec fn literal_of(t: Rc<Token>) -> Literal {
    t.literal
}

/// The literal expression of a token's literal.
spec fn literal_expr(t: Rc<Token>) -> Expr {
    Expr::Literal(t.literal)
}

/// An expression parsed, ending before `p`.
spec fn parsed_at(e: Expr, p: int) -> Parsed<Expr> {
    Ok((e, p))
}

/// At a `;`, a `)` or the end, no operator level reads further.
proof fn lemma_levels_stop_at_semicolon(toks: Seq<Rc<Token>>, left: Expr, p: int)
    requires
        0 <= p < toks.len(),
        toks[p].ttype == TokenType::Semicolon || toks[p].ttype == TokenType::RightParen || toks[p].ttype
            == TokenType::EOF,
    ensures
        p_factor_rest(toks, left, p) == Ok::<(Expr, int), (crate::error::ParserError, int)>((left, p)),
        p_term_rest(toks, left, p) == Ok::<(Expr, int), (crate::error::ParserError, int)>((left, p)),
        p_comparison_rest(toks, left, p) == Ok::<(Expr, int), (crate::error::ParserError, int)>((left, p)),
        p_equality_rest(toks, left, p) == Ok::<(Expr, int), (crate::error::ParserError, int)>((left, p)),
{
}

/// When the tokens are `print`, an expression that ends at `end`, `;` and the
/// end, the program is that one `print` statement, with no error.
proof fn lemma_print_program(toks: Seq<Rc<Token>>, e: Expr, end: int)
    requires
        2 <= end,
        toks.len() == end + 2,
        toks[0].ttype == TokenType::Print,
        toks[end].ttype == TokenType::Semicolon,
        toks[end + 1].ttype == TokenType::EOF,
        p_expression(toks, 1) == parsed_at(e, end),
    ensures
        p_program(toks, 0) == seq![Stmt::Print(Box::new(e))],
        p_program_errors(toks, 0) == Seq::<crate::error::ParserError>::empty(),
{
    let stmt = Stmt::Print(Box::new(e));
    assert(p_consume(toks, end, TokenType::Semicolon) == Ok::<(Rc<Token>, int), (crate::error::ParserError, int)>(
        (toks[end], end + 1),
    ));
    assert(p_print_statement(toks, 1) == Ok::<(Stmt, int), (crate::error::ParserError, int)>((stmt, end + 1)));
    assert(p_statement(toks, 0) == Ok::<(Stmt, int), (crate::error::ParserError, int)>((stmt, end + 1)));
    assert(p_declaration_outcome(toks, 0) == Ok::<(Stmt, int), (crate::error::ParserError, int)>((stmt, end + 1)));
    assert(p_declaration(toks, 0) == (Some(stmt), end + 1));
    assert(p_declaration_error(toks, 0) == None::<crate::error::ParserError>);
    assert(p_program(toks, end + 1) == Seq::<Stmt>::empty());
    assert(p_program_errors(toks, end + 1) == Seq::<crate::error::ParserError>::empty());
    assert(p_program(toks, 0) =~= seq![stmt]);
    assert(p_program_errors(toks, 0) =~= Seq::<crate::error::ParserError>::empty());
}

/// Every binary operator between two numbers is parsed into one binary
/// expression with that operator: `print 2 > 1;` is one `print` statement
/// of `2 > 1`, with no error, and so for `>=`, `<`, `<=`, `==`, `!=`, `+`,
/// `-`, `*` and `/`.
pub proof fn law_binary_operator_parses(toks: Seq<Rc<Token>>)
    requires
        print_binary_tokens(toks),
        toks[2].ttype == TokenType::Greater || toks[2].ttype == TokenType::GreaterEqual || toks[2].ttype
            == TokenType::Less || toks[2].ttype == TokenType::LessEqual || toks[2].ttype == TokenType::EqualEqual
            || toks[2].ttype == TokenType::BangEqual || toks[2].ttype == TokenType::Plus || toks[2].ttype
            == TokenType::Minus || toks[2].ttype == TokenType::Star || toks[2].ttype == TokenType::Slash,
    ensures
        p_program(toks, 0) == seq![
            Stmt::Print(
                Box::new(
                    Expr::Binary {
                        left: Box::new(Expr::Literal(toks[1].literal)),
                        operator: toks[2],
                        right: Box::new(Expr::Literal(toks[3].literal)),
                    },
                ),
            ),
        ],
        p_program_errors(toks, 0) == Seq::<crate::error::ParserError>::empty(),
{
    let l1 = literal_expr(toks[1]);
    let l3 = literal_expr(toks[3]);
    let bin = binary(l1, toks[2], l3);
    assert(p_primary(toks, 1) == parsed_at(l1, 2));
    assert(p_unary(toks, 1) == parsed_at(l1, 2));
    assert(p_primary(toks, 3) == parsed_at(l3, 4));
    assert(p_unary(toks, 3) == parsed_at(l3, 4));
    lemma_levels_stop_at_semicolon(toks, l3, 4);
    lemma_levels_stop_at_semicolon(toks, bin, 4);
    let t = toks[2].ttype;
    if t == TokenType::Star || t == TokenType::Slash {
        assert(p_factor_rest(toks, l1, 2) == parsed_at(bin, 4));
        assert(p_factor(toks, 1) == parsed_at(bin, 4));
        assert(p_term(toks, 1) == parsed_at(bin, 4));
        assert(p_comparison(toks, 1) == parsed_at(bin, 4));
        assert(p_equality(toks, 1) == parsed_at(bin, 4));
    } else {
        assert(p_factor_rest(toks, l1, 2) == parsed_at(l1, 2));
        assert(p_factor(toks, 1) == parsed_at(l1, 2));
        assert(p_factor(toks, 3) == parsed_at(l3, 4));
        if t == TokenType::Plus || t == TokenType::Minus {
            assert(p_term_rest(toks, l1, 2) == parsed_at(bin, 4));
            assert(p_term(toks, 1) == parsed_at(bin, 4));
            assert(p_comparison(toks, 1) == parsed_at(bin, 4));
            assert(p_equality(toks, 1) == parsed_at(bin, 4));
        } else {
            assert(p_term_rest(toks, l1, 2) == parsed_at(l1, 2));
            assert(p_term(toks, 1) == parsed_at(l1, 2));
            assert(p_term(toks, 3) == parsed_at(l3, 4));
            if t == TokenType::EqualEqual || t == TokenType::BangEqual {
                assert(p_comparison_rest(toks, l1, 2) == parsed_at(l1, 2));
                assert(p_comparison(toks, 1) == parsed_at(l1, 2));
                assert(p_comparison(toks, 3) == parsed_at(l3, 4));
                assert(p_equality_rest(toks, l1, 2) == parsed_at(bin, 4));
                assert(p_equality(toks, 1) == parsed_at(bin, 4));
            } else {
                assert(p_comparison_rest(toks, l1, 2) == parsed_at(bin, 4));
                assert(p_comparison(toks, 1) == parsed_at(bin, 4));
                assert(p_equality(toks, 1) == parsed_at(bin, 4));
            }
        }
    }
    assert(p_expression(toks, 1) == parsed_at(bin, 4));
    lemma_print_program(toks, bin, 4);
}

/// A byte that may start a word: an ASCII letter, lower case (`a` is 97,
/// `z` 122) or upper case (`A` is 65, `Z` 90), or `_` (95).
pub open spec fn word_start_byte(c: u8) -> bool {
    (97 <= c <= 122) || (65 <= c <= 90) || c == 95
}

/// A byte that may continue a word: one that may start it, or an ASCII digit
/// (`0` is 48, `9` 57).
pub open spec fn word_byte(c: u8) -> bool {
    word_start_byte(c) || (48 <= c <= 57)
}

/// The token of the word `src` on line 1: the keyword it spells, or an
/// identifier.
pub open spec fn word_token(src: Seq<u8>) -> SpecToken {
    SpecToken {
        ttype: match keyword_of(src) {
            Some(k) => k,
            None => TokenType::Identifier,
        },
        lexeme: src,
        literal: SpecLiteral::Nil,
        line: 1,
    }
}

proof fn lemma_word_runs_to_end(src: Seq<u8>, i: int)
    requires
        0 <= i <= src.len(),
        forall|k: int| i <= k < src.len() ==> word_byte(#[trigger] src[k]),
    ensures
        word_end(src, i) == src.len(),
    decreases src.len() - i,
{
    if i < src.len() {
        lemma_word_runs_to_end(src, i + 1);
    }
}

/// A source that is one word (a letter or `_`, then letters, digits and
/// `_`) scans to that word's token alone: an identifier, or the keyword it
/// spells, on line 1, followed by the end.
pub proof fn law_word_scans_to_one_token(src: Seq<u8>)
    requires
        src.len() > 0,
        word_start_byte(src[0]),
        forall|k: int| 1 <= k < src.len() ==> word_byte(#[trigger] src[k]),
    ensures
        scan_source(src) == Ok::<Seq<SpecToken>, crate::error::ScannerError>(seq![word_token(src), eof_token(1)]),
{
    lemma_word_runs_to_end(src, 1);
    assert(src.subrange(0, src.len() as int) =~= src);
    let rest = scan_run(src, 0, src.len() as int, 1);
    assert(rest.tokens == Seq::<SpecToken>::empty() && rest.line == 1 && rest.error is None);
    let tok = word_token(src);
    let run = scan_run(src, 0, 0, 1);
    assert(run.tokens =~= seq![tok]);
    assert(run.error is None && run.line == 1);
    assert(run.tokens.push(eof_token(1)) =~= seq![tok, eof_token(1)]);
    assert(scan_source(src) == Ok::<Seq<SpecToken>, crate::error::ScannerError>(run.tokens.push(eof_token(1))));
    assert(scan_source(src) == Ok::<Seq<SpecToken>, crate::error::ScannerError>(seq![tok, eof_token(1)]));
}

/// `!` and `-` before a number are parsed into one unary expression with
/// that operator: `print -1;` is one `print` statement of `-1`, with no error.
pub proof fn law_unary_operator_parses(toks: Seq<Rc<Token>>)
    requires
        toks.len() == 5,
        toks[0].ttype == TokenType::Print,
        toks[1].ttype == TokenType::Bang || toks[1].ttype == TokenType::Minus,
        toks[2].ttype == TokenType::Number && toks[2].literal is Number,
        toks[3].ttype == TokenType::Semicolon,
        toks[4].ttype == TokenType::EOF,
    ensures
        p_program(toks, 0) == seq![
            Stmt::Print(Box::new(Expr::Unary { operator: toks[1], right: Box::new(Expr::Literal(toks[2].literal)) })),
        ],
        p_program_errors(toks, 0) == Seq::<crate::error::ParserError>::empty(),
{
    let l2 = literal_expr(toks[2]);
    let u = Expr::Unary { operator: toks[1], right: Box::new(l2) };
    assert(p_primary(toks, 2) == parsed_at(l2, 3));
    assert(p_unary(toks, 2) == parsed_at(l2, 3));
    assert(p_unary(toks, 1) == parsed_at(u, 3));
    lemma_levels_stop_at_semicolon(toks, u, 3);
    assert(p_factor(toks, 1) == parsed_at(u, 3));
    assert(p_term(toks, 1) == parsed_at(u, 3));
    assert(p_comparison(toks, 1) == parsed_at(u, 3));
    assert(p_equality(toks, 1) == parsed_at(u, 3));
    assert(p_expression(toks, 1) == parsed_at(u, 3));
    lemma_print_program(toks, u, 3);
}

/// The tokens of a source that is the single token `src` of kind `k`, on
/// line 1, followed by the end.
pub open spec fn one_token(src: Seq<u8>, k: TokenType) -> Result<Seq<SpecToken>, crate::error::ScannerError> {
    Ok(seq![SpecToken { ttype: k, lexeme: src, literal: SpecLiteral::Nil, line: 1 }, eof_token(1)])
}

/// A source read by one step, as one token, scans to that token alone.
proof fn lemma_whole_token(src: Seq<u8>, k: TokenType, literal: SpecLiteral)
    requires
        src.len() > 0,
        scan_step(src, 0, 1) == (Step::Emit { end: src.len() as int, line: 1, ttype: k, literal }),
    ensures
        scan_source(src) == Ok::<Seq<SpecToken>, crate::error::ScannerError>(
            seq![SpecToken { ttype: k, lexeme: src, literal, line: 1 }, eof_token(1)],
        ),
{
    assert(src.subrange(0, src.len() as int) =~= src);
    let tok = SpecToken { ttype: k, lexeme: src, literal, line: 1 };
    let rest = scan_run(src, 0, src.len() as int, 1);
    assert(rest.tokens == Seq::<SpecToken>::empty() && rest.line == 1 && rest.error is None);
    let run = scan_run(src, 0, 0, 1);
    assert(run.tokens =~= seq![tok]);
    assert(run.tokens.push(eof_token(1)) =~= seq![tok, eof_token(1)]);
}

proof fn lemma_one_step_source(src: Seq<u8>, k: TokenType)
    requires
        src.len() > 0,
        scan_step(src, 0, 1) == (Step::Emit { end: src.len() as int, line: 1, ttype: k, literal: SpecLiteral::Nil }),
    ensures
        scan_source(src) == one_token(src, k),
{
    lemma_whole_token(src, k, SpecLiteral::Nil);
}

/// Each operator and punctuation mark scans to its own token: `(` is
/// `LeftParen`, `)` `RightParen`, `{` `LeftBrace`, `}` `RightBrace`, `,`
/// `Comma`, `.` `Dot`, `-` `Minus`, `+` `Plus`, `;` `Semicolon`, `*` `Star`,
/// `/` `Slash`, `!` `Bang`, `=` `Equal`, `<` `Less`, `>` `Greater`, and the
/// pairs `!=` `BangEqual`, `==` `EqualEqual`, `<=` `LessEqual`, `>=`
/// `GreaterEqual`.
pub proof fn law_operators_scan()
    ensures
        scan_source(seq![('(' as u8)]) == one_token(seq![('(' as u8)], TokenType::LeftParen),
        scan_source(seq![(')' as u8)]) == one_token(seq![(')' as u8)], TokenType::RightParen),
        scan_source(seq![('{' as u8)]) == one_token(seq![('{' as u8)], TokenType::LeftBrace),
        scan_source(seq![('}' as u8)]) == one_token(seq![('}' as u8)], TokenType::RightBrace),
        scan_source(seq![(',' as u8)]) == one_token(seq![(',' as u8)], TokenType::Comma),
        scan_source(seq![('.' as u8)]) == one_token(seq![('.' as u8)], TokenType::Dot),
        scan_source(seq![('-' as u8)]) == one_token(seq![('-' as u8)], TokenType::Minus),
        scan_source(seq![('+' as u8)]) == one_token(seq![('+' as u8)], TokenType::Plus),
        scan_source(seq![(';' as u8)]) == one_token(seq![(';' as u8)], TokenType::Semicolon),
        scan_source(seq![('*' as u8)]) == one_token(seq![('*' as u8)], TokenType::Star),
        scan_source(seq![('/' as u8)]) == one_token(seq![('/' as u8)], TokenType::Slash),
        scan_source(seq![('!' as u8)]) == one_token(seq![('!' as u8)], TokenType::Bang),
        scan_source(seq![('=' as u8)]) == one_token(seq![('=' as u8)], TokenType::Equal),
        scan_source(seq![('<' as u8)]) == one_token(seq![('<' as u8)], TokenType::Less),
        scan_source(seq![('>' as u8)]) == one_token(seq![('>' as u8)], TokenType::Greater),
        scan_source(seq![('!' as u8), ('=' as u8)]) == one_token(seq![('!' as u8), ('=' as u8)], TokenType::BangEqual),
        scan_source(seq![('=' as u8), ('=' as u8)]) == one_token(seq![('=' as u8), ('=' as u8)], TokenType::EqualEqual),
        scan_source(seq![('<' as u8), ('=' as u8)]) == one_token(seq![('<' as u8), ('=' as u8)], TokenType::LessEqual),
        scan_source(seq![('>' as u8), ('=' as u8)]) == one_token(seq![('>' as u8), ('=' as u8)], TokenType::GreaterEqual),
{
    lemma_one_step_source(seq![('(' as u8)], TokenType::LeftParen);
    lemma_one_step_source(seq![(')' as u8)], TokenType::RightParen);
    lemma_one_step_source(seq![('{' as u8)], TokenType::LeftBrace);
    lemma_one_step_source(seq![('}' as u8)], TokenType::RightBrace);
    lemma_one_step_source(seq![(',' as u8)], TokenType::Comma);
    lemma_one_step_source(seq![('.' as u8)], TokenType::Dot);
    lemma_one_step_source(seq![('-' as u8)], TokenType::Minus);
    lemma_one_step_source(seq![('+' as u8)], TokenType::Plus);
    lemma_one_step_source(seq![(';' as u8)], TokenType::Semicolon);
    lemma_one_step_source(seq![('*' as u8)], TokenType::Star);
    lemma_one_step_source(seq![('/' as u8)], TokenType::Slash);
    lemma_one_step_source(seq![('!' as u8)], TokenType::Bang);
    lemma_one_step_source(seq![('=' as u8)], TokenType::Equal);
    lemma_one_step_source(seq![('<' as u8)], TokenType::Less);
    lemma_one_step_source(seq![('>' as u8)], TokenType::Greater);
    lemma_one_step_source(seq![('!' as u8), ('=' as u8)], TokenType::BangEqual);
    lemma_one_step_source(seq![('=' as u8), ('=' as u8)], TokenType::EqualEqual);
    lemma_one_step_source(seq![('<' as u8), ('=' as u8)], TokenType::LessEqual);
    lemma_one_step_source(seq![('>' as u8), ('=' as u8)], TokenType::GreaterEqual);
}

/// The keywords are `and`, `class`, `else`, `false`, `for`, `fun`, `if`,
/// `nil`, `or`, `print`, `return`, `super`, `this`, `true`, `var` and
/// `while`, each of the kind of that name, and no other text is a keyword.
pub proof fn law_keywords(text: Seq<u8>)
    ensures
        keyword_of(seq![('a' as u8), ('n' as u8), ('d' as u8)]) == Some(TokenType::And),
        keyword_of(seq![('c' as u8), ('l' as u8), ('a' as u8), ('s' as u8), ('s' as u8)]) == Some(TokenType::Class),
        keyword_of(seq![('e' as u8), ('l' as u8), ('s' as u8), ('e' as u8)]) == Some(TokenType::Else),
        keyword_of(seq![('f' as u8), ('a' as u8), ('l' as u8), ('s' as u8), ('e' as u8)]) == Some(TokenType::False),
        keyword_of(seq![('f' as u8), ('o' as u8), ('r' as u8)]) == Some(TokenType::For),
        keyword_of(seq![('f' as u8), ('u' as u8), ('n' as u8)]) == Some(TokenType::Fun),
        keyword_of(seq![('i' as u8), ('f' as u8)]) == Some(TokenType::If),
        keyword_of(seq![('n' as u8), ('i' as u8), ('l' as u8)]) == Some(TokenType::Nil),
        keyword_of(seq![('o' as u8), ('r' as u8)]) == Some(TokenType::Or),
        keyword_of(seq![('p' as u8), ('r' as u8), ('i' as u8), ('n' as u8), ('t' as u8)]) == Some(TokenType::Print),
        keyword_of(seq![('r' as u8), ('e' as u8), ('t' as u8), ('u' as u8), ('r' as u8), ('n' as u8)]) == Some(TokenType::Return),
        keyword_of(seq![('s' as u8), ('u' as u8), ('p' as u8), ('e' as u8), ('r' as u8)]) == Some(TokenType::Super),
        keyword_of(seq![('t' as u8), ('h' as u8), ('i' as u8), ('s' as u8)]) == Some(TokenType::This),
        keyword_of(seq![('t' as u8), ('r' as u8), ('u' as u8), ('e' as u8)]) == Some(TokenType::True),
        keyword_of(seq![('v' as u8), ('a' as u8), ('r' as u8)]) == Some(TokenType::Var),
        keyword_of(seq![('w' as u8), ('h' as u8), ('i' as u8), ('l' as u8), ('e' as u8)]) == Some(TokenType::While),
        keyword_of(text) is Some ==> (text == seq![('a' as u8), ('n' as u8), ('d' as u8)]
            || text == seq![('c' as u8), ('l' as u8), ('a' as u8), ('s' as u8), ('s' as u8)]
            || text == seq![('e' as u8), ('l' as u8), ('s' as u8), ('e' as u8)]
            || text == seq![('f' as u8), ('a' as u8), ('l' as u8), ('s' as u8), ('e' as u8)]
            || text == seq![('f' as u8), ('o' as u8), ('r' as u8)]
            || text == seq![('f' as u8), ('u' as u8), ('n' as u8)]
            || text == seq![('i' as u8), ('f' as u8)]
            || text == seq![('n' as u8), ('i' as u8), ('l' as u8)]
            || text == seq![('o' as u8), ('r' as u8)]
            || text == seq![('p' as u8), ('r' as u8), ('i' as u8), ('n' as u8), ('t' as u8)]
            || text == seq![('r' as u8), ('e' as u8), ('t' as u8), ('u' as u8), ('r' as u8), ('n' as u8)]
            || text == seq![('s' as u8), ('u' as u8), ('p' as u8), ('e' as u8), ('r' as u8)]
            || text == seq![('t' as u8), ('h' as u8), ('i' as u8), ('s' as u8)]
            || text == seq![('t' as u8), ('r' as u8), ('u' as u8), ('e' as u8)]
            || text == seq![('v' as u8), ('a' as u8), ('r' as u8)]
            || text == seq![('w' as u8), ('h' as u8), ('i' as u8), ('l' as u8), ('e' as u8)]),
{
}

/// An ASCII digit: `0` is 48, `9` 57.
pub open spec fn digit_byte(c: u8) -> bool {
    48 <= c <= 57
}

proof fn lemma_digits_run(src: Seq<u8>, i: int, j: int)
    requires
        0 <= i <= j <= src.len(),
        forall|k: int| i <= k < j ==> digit_byte(#[trigger] src[k]),
        j == src.len() || !digit_byte(src[j]),
    ensures
        digits_end(src, i) == j,
    decreases j - i,
{
    if i < j {
        lemma_digits_run(src, i + 1, j);
    }
}

/// The token of a whole numeral `src` on line 1: a number carrying its text.
pub open spec fn numeral_token(src: Seq<u8>) -> SpecToken {
    SpecToken { ttype: TokenType::Number, lexeme: src, literal: SpecLiteral::Number(src), line: 1 }
}

/// A numeral (digits, or digits, a `.` and digits) scans to one number
/// token that carries the numeral's text.
pub proof fn law_numerals_scan(a: Seq<u8>, b: Seq<u8>)
    requires
        a.len() > 0,
        forall|k: int| 0 <= k < a.len() ==> digit_byte(#[trigger] a[k]),
        forall|k: int| 0 <= k < b.len() ==> digit_byte(#[trigger] b[k]),
    ensures
        scan_source(a) == Ok::<Seq<SpecToken>, crate::error::ScannerError>(seq![numeral_token(a), eof_token(1)]),
        b.len() > 0 ==> scan_source(a + seq![('.' as u8)] + b) == Ok::<Seq<SpecToken>, crate::error::ScannerError>(
            seq![numeral_token(a + seq![('.' as u8)] + b), eof_token(1)],
        ),
{
    lemma_digits_run(a, 1, a.len() as int);
    assert(a.subrange(0, a.len() as int) =~= a);
    lemma_whole_token(a, TokenType::Number, SpecLiteral::Number(a));
    if b.len() > 0 {
        let w = a + seq![('.' as u8)] + b;
        assert(w[a.len() as int] == ('.' as u8));
        assert forall|k: int| 1 <= k < a.len() implies digit_byte(#[trigger] w[k]) by {
            assert(w[k] == a[k]);
        }
        lemma_digits_run(w, 1, a.len() as int);
        assert forall|k: int| a.len() + 1 <= k < w.len() implies digit_byte(#[trigger] w[k]) by {
            assert(w[k] == b[k - a.len() - 1]);
        }
        assert(w[a.len() + 1int] == b[0]);
        lemma_digits_run(w, a.len() + 1int, w.len() as int);
        assert(w[0] == a[0]);
        assert(w.subrange(0, w.len() as int) =~= w);
        lemma_whole_token(w, TokenType::Number, SpecLiteral::Number(w));
    }
}

proof fn lemma_string_run(src: Seq<u8>, i: int)
    requires
        1 <= i <= src.len() - 1,
        forall|k: int| 1 <= k < src.len() - 1 ==> src[k] != 34 && src[k] != 10,
        src[src.len() - 1] == 34,
    ensures
        string_end(src, i, 1) == (src.len() - 1, 1nat),
    decreases src.len() - i,
{
    if i < src.len() - 1 {
        lemma_string_run(src, i + 1);
    }
}

/// A string on one line (`"`, then text without `"` or a newline, then `"`)
/// scans to one string token that carries the text between the quotes.
pub proof fn law_string_scans(body: Seq<u8>)
    requires
        forall|k: int| 0 <= k < body.len() ==> #[trigger] body[k] != ('"' as u8) && body[k] != ('\n' as u8),
    ensures
        scan_source(seq![('"' as u8)] + body + seq![('"' as u8)]) == Ok::<Seq<SpecToken>, crate::error::ScannerError>(
            seq![
                SpecToken {
                    ttype: TokenType::String,
                    lexeme: seq![('"' as u8)] + body + seq![('"' as u8)],
                    literal: SpecLiteral::Str(body),
                    line: 1,
                },
                eof_token(1),
            ],
        ),
{
    let w = seq![('"' as u8)] + body + seq![('"' as u8)];
    assert forall|k: int| 1 <= k < w.len() - 1 implies w[k] != 34 && w[k] != 10 by {
        assert(w[k] == body[k - 1]);
    }
    lemma_string_run(w, 1);
    assert(w.subrange(1, w.len() - 1) =~= body);
    lemma_whole_token(w, TokenType::String, SpecLiteral::Str(body));
}

/// The token of the word `w` on line `line`: the keyword it spells, or an
/// identifier.
pub open spec fn word_token_on(w: Seq<u8>, line: nat) -> SpecToken {
    SpecToken { line, ..word_token(w) }
}

/// A space, tab or carriage return before a word is skipped, and a newline is
/// skipped and moves the word to the next line.
pub proof fn law_whitespace_and_lines(w: Seq<u8>)
    requires
        w.len() > 0,
        word_start_byte(w[0]),
        forall|k: int| 1 <= k < w.len() ==> word_byte(#[trigger] w[k]),
    ensures
        scan_source(seq![(' ' as u8)] + w) == Ok::<Seq<SpecToken>, crate::error::ScannerError>(
            seq![word_token_on(w, 1), eof_token(1)],
        ),
        scan_source(seq![('\t' as u8)] + w) == Ok::<Seq<SpecToken>, crate::error::ScannerError>(
            seq![word_token_on(w, 1), eof_token(1)],
        ),
        scan_source(seq![('\r' as u8)] + w) == Ok::<Seq<SpecToken>, crate::error::ScannerError>(
            seq![word_token_on(w, 1), eof_token(1)],
        ),
        scan_source(seq![('\n' as u8)] + w) == Ok::<Seq<SpecToken>, crate::error::ScannerError>(
            seq![word_token_on(w, 2), eof_token(2)],
        ),
{
    lemma_word_after(w, (' ' as u8), 1);
    lemma_word_after(w, ('\t' as u8), 1);
    lemma_word_after(w, ('\r' as u8), 1);
    lemma_word_after(w, ('\n' as u8), 2);
}

proof fn lemma_word_after(w: Seq<u8>, c: u8, line: nat)
    requires
        w.len() > 0,
        word_start_byte(w[0]),
        forall|k: int| 1 <= k < w.len() ==> word_byte(#[trigger] w[k]),
        c == 32 || c == 9 || c == 13 || c == 10,
        line == if c == 10 { 2nat } else { 1nat },
    ensures
        scan_source(seq![c] + w) == Ok::<Seq<SpecToken>, crate::error::ScannerError>(
            seq![word_token_on(w, line), eof_token(line)],
        ),
{
    let src = seq![c] + w;
    assert forall|k: int| 2 <= k < src.len() implies word_byte(#[trigger] src[k]) by {
        assert(src[k] == w[k - 1]);
    }
    lemma_word_runs_to_end(src, 2);
    assert(src[1] == w[0]);
    assert(src.subrange(1, src.len() as int) =~= w);
    let tok = word_token_on(w, line);
    let rest = scan_run(src, 1, src.len() as int, line);
    assert(rest.tokens == Seq::<SpecToken>::empty() && rest.line == line && rest.error is None);
    let at_word = scan_run(src, 1, 1, line);
    assert(at_word.tokens =~= seq![tok]);
    assert(at_word.error is None && at_word.line == line);
    let run = scan_run(src, 0, 0, 1);
    assert(run == scan_run(src, 0, 1, line));
    assert(scan_run(src, 0, 1, line).tokens == at_word.tokens);
    assert(run.tokens.push(eof_token(line)) =~= seq![tok, eof_token(line)]);
}

/// The binary expression `left operator right`.
pub open spec fn binary_of(left: Expr, operator: Rc<Token>, right: Expr) -> Expr {
    Expr::Binary { left: Box::new(left), operator, right: Box::new(right) }
}

/// A binary operator evaluates its left operand first, then its right one,
/// and the first error stops the evaluation.
pub proof fn law_operands_evaluate_first<N, C, P, A, G, J, E>(
    numeral: C,
    compare: P,
    arith: A,
    negate: G,
    number_text: J,
    numbers_equal: E,
    scopes: Scopes<N>,
    left: Expr,
    operator: Rc<Token>,
    right: Expr,
) where
    C: Fn(&String) -> N,
    P: Fn(NumberOp, &N, &N) -> bool,
    A: Fn(NumberOp, &N, &N) -> Option<N>,
    G: Fn(&N) -> N,
    J: Fn(&N) -> String,
    E: Fn(&N, &N) -> bool,
    ensures
        eval_expr(numeral, compare, arith, negate, number_text, numbers_equal, scopes, left) is Err ==> eval_expr(numeral, compare, arith, negate, number_text, numbers_equal, scopes, binary_of(left, operator, right)) == eval_expr(numeral, compare, arith, negate, number_text, numbers_equal, scopes, left),
        eval_expr(numeral, compare, arith, negate, number_text, numbers_equal, scopes, left) is Ok && eval_expr(numeral, compare, arith, negate, number_text, numbers_equal, scopes, right) is Err ==> eval_expr(numeral, compare, arith, negate, number_text, numbers_equal, scopes, binary_of(left, operator, right)) == eval_expr(numeral, compare, arith, negate, number_text, numbers_equal, scopes, right),
{
}

/// On two numbers, `==` and `!=` compare them as numbers; `>`, `>=`, `<`,
/// `<=` compare them by `Greater`, `GreaterEqual`, `Less`, `LessEqual`; `+`,
/// `-`, `*` give the number `Add`, `Subtract`, `Multiply` give; `/` gives the
/// number `Divide` gives, or `DivByZero` where the division fails.
pub proof fn law_number_operands<N, C, P, A, G, J, E>(
    numeral: C,
    compare: P,
    arith: A,
    negate: G,
    number_text: J,
    numbers_equal: E,
    scopes: Scopes<N>,
    left: Expr,
    operator: Rc<Token>,
    right: Expr,
    x: N,
    y: N,
) where
    C: Fn(&String) -> N,
    P: Fn(NumberOp, &N, &N) -> bool,
    A: Fn(NumberOp, &N, &N) -> Option<N>,
    G: Fn(&N) -> N,
    J: Fn(&N) -> String,
    E: Fn(&N, &N) -> bool,
    requires
        eval_expr(numeral, compare, arith, negate, number_text, numbers_equal, scopes, left) == Ok::<ValueModel<N>, crate::error::RuntimeError>(ValueModel::Number(x)),
        eval_expr(numeral, compare, arith, negate, number_text, numbers_equal, scopes, right) == Ok::<ValueModel<N>, crate::error::RuntimeError>(ValueModel::Number(y)),
    ensures
        operator.ttype == TokenType::EqualEqual ==> eval_expr(numeral, compare, arith, negate, number_text, numbers_equal, scopes, binary_of(left, operator, right)) == Ok::<ValueModel<N>, crate::error::RuntimeError>(
            ValueModel::Bool(numbers_equal_spec(numbers_equal, x, y)),
        ),
        operator.ttype == TokenType::BangEqual ==> eval_expr(numeral, compare, arith, negate, number_text, numbers_equal, scopes, binary_of(left, operator, right)) == Ok::<ValueModel<N>, crate::error::RuntimeError>(
            ValueModel::Bool(!numbers_equal_spec(numbers_equal, x, y)),
        ),
        operator.ttype == TokenType::Greater ==> eval_expr(numeral, compare, arith, negate, number_text, numbers_equal, scopes, binary_of(left, operator, right)) == Ok::<ValueModel<N>, crate::error::RuntimeError>(
            ValueModel::Bool(compared(compare, NumberOp::Greater, x, y)),
        ),
        operator.ttype == TokenType::GreaterEqual ==> eval_expr(numeral, compare, arith, negate, number_text, numbers_equal, scopes, binary_of(left, operator, right)) == Ok::<ValueModel<N>, crate::error::RuntimeError>(
            ValueModel::Bool(compared(compare, NumberOp::GreaterEqual, x, y)),
        ),
        operator.ttype == TokenType::Less ==> eval_expr(numeral, compare, arith, negate, number_text, numbers_equal, scopes, binary_of(left, operator, right)) == Ok::<ValueModel<N>, crate::error::RuntimeError>(
            ValueModel::Bool(compared(compare, NumberOp::Less, x, y)),
        ),
        operator.ttype == TokenType::LessEqual ==> eval_expr(numeral, compare, arith, negate, number_text, numbers_equal, scopes, binary_of(left, operator, right)) == Ok::<ValueModel<N>, crate::error::RuntimeError>(
            ValueModel::Bool(compared(compare, NumberOp::LessEqual, x, y)),
        ),
        operator.ttype == TokenType::Plus ==> arithmetic(arith, NumberOp::Add, x, y) is Some && eval_expr(numeral, compare, arith, negate, number_text, numbers_equal, scopes, binary_of(left, operator, right)) == Ok::<ValueModel<N>, crate::error::RuntimeError>(
            ValueModel::Number(arithmetic(arith, NumberOp::Add, x, y)->Some_0),
        ),
        operator.ttype == TokenType::Minus ==> arithmetic(arith, NumberOp::Subtract, x, y) is Some && eval_expr(numeral, compare, arith, negate, number_text, numbers_equal, scopes, binary_of(left, operator, right)) == Ok::<ValueModel<N>, crate::error::RuntimeError>(
            ValueModel::Number(arithmetic(arith, NumberOp::Subtract, x, y)->Some_0),
        ),
        operator.ttype == TokenType::Star ==> arithmetic(arith, NumberOp::Multiply, x, y) is Some && eval_expr(numeral, compare, arith, negate, number_text, numbers_equal, scopes, binary_of(left, operator, right)) == Ok::<ValueModel<N>, crate::error::RuntimeError>(
            ValueModel::Number(arithmetic(arith, NumberOp::Multiply, x, y)->Some_0),
        ),
        operator.ttype == TokenType::Slash ==> eval_expr(numeral, compare, arith, negate, number_text, numbers_equal, scopes, binary_of(left, operator, right)) == match arithmetic(arith, NumberOp::Divide, x, y) {
            Some(n) => Ok::<ValueModel<N>, crate::error::RuntimeError>(ValueModel::Number(n)),
            None => Err(crate::error::RuntimeError::DivByZero(operator)),
        },
{
}

/// On two values, `==` gives whether they are equal and `!=` the opposite;
/// `+` joins two strings, or a string and a number's text in their order.
pub proof fn law_equality_and_joining_evaluation<N, C, P, A, G, J, E>(
    numeral: C,
    compare: P,
    arith: A,
    negate: G,
    number_text: J,
    numbers_equal: E,
    scopes: Scopes<N>,
    left: Expr,
    operator: Rc<Token>,
    right: Expr,
    lv: ValueModel<N>,
    rv: ValueModel<N>,
) where
    C: Fn(&String) -> N,
    P: Fn(NumberOp, &N, &N) -> bool,
    A: Fn(NumberOp, &N, &N) -> Option<N>,
    G: Fn(&N) -> N,
    J: Fn(&N) -> String,
    E: Fn(&N, &N) -> bool,
    requires
        eval_expr(numeral, compare, arith, negate, number_text, numbers_equal, scopes, left) == Ok::<ValueModel<N>, crate::error::RuntimeError>(lv),
        eval_expr(numeral, compare, arith, negate, number_text, numbers_equal, scopes, right) == Ok::<ValueModel<N>, crate::error::RuntimeError>(rv),
    ensures
        equality_rule(lv, rv) matches Some(q) ==> (operator.ttype == TokenType::EqualEqual ==> eval_expr(numeral, compare, arith, negate, number_text, numbers_equal, scopes, binary_of(left, operator, right)) == Ok::<ValueModel<N>, crate::error::RuntimeError>(
            ValueModel::Bool(q),
        )) && (operator.ttype == TokenType::BangEqual ==> eval_expr(numeral, compare, arith, negate, number_text, numbers_equal, scopes, binary_of(left, operator, right)) == Ok::<ValueModel<N>, crate::error::RuntimeError>(ValueModel::Bool(!q))),
        operator.ttype == TokenType::Plus && lv is Str && rv is Str ==> eval_expr(numeral, compare, arith, negate, number_text, numbers_equal, scopes, binary_of(left, operator, right)) == Ok::<ValueModel<N>, crate::error::RuntimeError>(
            ValueModel::Str(lv->Str_0 + rv->Str_0),
        ),
        operator.ttype == TokenType::Plus && lv is Str && rv is Number ==> eval_expr(numeral, compare, arith, negate, number_text, numbers_equal, scopes, binary_of(left, operator, right)) == Ok::<ValueModel<N>, crate::error::RuntimeError>(
            ValueModel::Str(lv->Str_0 + text_of(number_text, rv->Number_0)),
        ),
        operator.ttype == TokenType::Plus && lv is Number && rv is Str ==> eval_expr(numeral, compare, arith, negate, number_text, numbers_equal, scopes, binary_of(left, operator, right)) == Ok::<ValueModel<N>, crate::error::RuntimeError>(
            ValueModel::Str(text_of(number_text, lv->Number_0) + rv->Str_0),
        ),
{
    let b = eval_expr(
        numeral,
        compare,
        arith,
        negate,
        number_text,
        numbers_equal,
        scopes,
        binary_of(left, operator, right),
    );
    assert(b == binary_value(compare, arith, number_text, numbers_equal, operator, lv, rv));
    if operator.ttype == TokenType::Plus {
        if let (ValueModel::Str(x), ValueModel::Str(y)) = (lv, rv) {
            assert(binary_rule(TokenType::Plus, lv, rv) == BinaryAction::JoinStrings);
            assert(b == Ok::<ValueModel<N>, crate::error::RuntimeError>(ValueModel::Str(x + y)));
        }
        if let (ValueModel::Str(x), ValueModel::Number(y)) = (lv, rv) {
            assert(binary_rule(TokenType::Plus, lv, rv) == BinaryAction::JoinStringNumber);
            assert(b == Ok::<ValueModel<N>, crate::error::RuntimeError>(ValueModel::Str(x + text_of(number_text, y))));
        }
        if let (ValueModel::Number(x), ValueModel::Str(y)) = (lv, rv) {
            assert(binary_rule(TokenType::Plus, lv, rv) == BinaryAction::JoinNumberString);
            assert(b == Ok::<ValueModel<N>, crate::error::RuntimeError>(ValueModel::Str(text_of(number_text, x) + y)));
        }
    }
}

/// `>`, `>=`, `<`, `<=`, `-`, `*` and `/` refuse operands that are not both
/// numbers with a `TypeError` at the operator.
pub proof fn law_number_operators_need_numbers<N, C, P, A, G, J, E>(
    numeral: C,
    compare: P,
    arith: A,
    negate: G,
    number_text: J,
    numbers_equal: E,
    scopes: Scopes<N>,
    left: Expr,
    operator: Rc<Token>,
    right: Expr,
    lv: ValueModel<N>,
    rv: ValueModel<N>,
) where
    C: Fn(&String) -> N,
    P: Fn(NumberOp, &N, &N) -> bool,
    A: Fn(NumberOp, &N, &N) -> Option<N>,
    G: Fn(&N) -> N,
    J: Fn(&N) -> String,
    E: Fn(&N, &N) -> bool,
    requires
        eval_expr(numeral, compare, arith, negate, number_text, numbers_equal, scopes, left) == Ok::<ValueModel<N>, crate::error::RuntimeError>(lv),
        eval_expr(numeral, compare, arith, negate, number_text, numbers_equal, scopes, right) == Ok::<ValueModel<N>, crate::error::RuntimeError>(rv),
        !(lv is Number && rv is Number),
        operator.ttype == TokenType::Greater || operator.ttype == TokenType::GreaterEqual || operator.ttype
            == TokenType::Less || operator.ttype == TokenType::LessEqual || operator.ttype == TokenType::Minus
            || operator.ttype == TokenType::Star || operator.ttype == TokenType::Slash,
    ensures
        eval_expr(numeral, compare, arith, negate, number_text, numbers_equal, scopes, binary_of(left, operator, right)) == Err::<ValueModel<N>, crate::error::RuntimeError>(crate::error::RuntimeError::TypeError(operator)),
{
}

/// Evaluating a unary operator: the operand first, its error stopping the
/// evaluation; then `!` gives the opposite of the value's truth (only `nil`
/// and `false` are false), and `-` negates a number and refuses anything
/// else with a `TypeError`.
pub proof fn law_unary_evaluation<N, C, P, A, G, J, E>(
    numeral: C,
    compare: P,
    arith: A,
    negate: G,
    number_text: J,
    numbers_equal: E,
    scopes: Scopes<N>,
    operator: Rc<Token>,
    right: Expr,
) where
    C: Fn(&String) -> N,
    P: Fn(NumberOp, &N, &N) -> bool,
    A: Fn(NumberOp, &N, &N) -> Option<N>,
    G: Fn(&N) -> N,
    J: Fn(&N) -> String,
    E: Fn(&N, &N) -> bool,
    ensures
        ({
            let v = eval_expr(numeral, compare, arith, negate, number_text, numbers_equal, scopes, right);
            let u = eval_expr(
                numeral,
                compare,
                arith,
                negate,
                number_text,
                numbers_equal,
                scopes,
                Expr::Unary { operator, right: Box::new(right) },
            );
            &&& v is Err ==> u == v
            &&& operator.ttype == TokenType::Bang ==> (v matches Ok(x) ==> u == Ok::<
                ValueModel<N>,
                crate::error::RuntimeError,
            >(
                ValueModel::Bool(
                    match x {
                        ValueModel::Nil => true,
                        ValueModel::Bool(q) => !q,
                        _ => false,
                    },
                ),
            ))
            &&& operator.ttype == TokenType::Minus ==> (v matches Ok(ValueModel::Number(n)) ==> u == Ok::<
                ValueModel<N>,
                crate::error::RuntimeError,
            >(ValueModel::Number(negated(negate, n))))
            &&& operator.ttype == TokenType::Minus ==> (v matches Ok(x) && !(x is Number) ==> u == Err::<
                ValueModel<N>,
                crate::error::RuntimeError,
            >(crate::error::RuntimeError::TypeError(operator)))
        }),
{
}

/// The value of a decimal digit character (`'0'` to `'9'`).
pub open spec fn digit_value(c: char) -> int {
    c as int - '0' as int
}

/// The number that a text of decimal digits stands for.
pub open spec fn digits_value(s: Seq<char>) -> int
    decreases s.len(),
{
    if s.len() == 0 {
        0
    } else {
        digits_value(s.drop_last()) * 10 + digit_value(s.last())
    }
}

proof fn lemma_digit(d: nat)
    requires
        d < 10,
    ensures
        digit(d) == seq![(('0' as int) + d) as char],
{
    reveal_strlit("0");
    reveal_strlit("1");
    reveal_strlit("2");
    reveal_strlit("3");
    reveal_strlit("4");
    reveal_strlit("5");
    reveal_strlit("6");
    reveal_strlit("7");
    reveal_strlit("8");
    reveal_strlit("9");
    assert(digit(d) =~= seq![(('0' as int) + d) as char]);
}

/// The decimal numeral of a number is made of digits, has no leading zero
/// unless it is `0`, and stands for that number.
pub proof fn law_decimal_numerals(n: nat)
    ensures
        decimal(n).len() >= 1,
        forall|i: int| 0 <= i < decimal(n).len() ==> '0' <= #[trigger] decimal(n)[i] <= '9',
        decimal(n).len() > 1 ==> decimal(n)[0] != '0',
        digits_value(decimal(n)) == n,
    decreases n,
{
    if n < 10 {
        lemma_digit(n);
        assert(decimal(n).drop_last() =~= Seq::<char>::empty());
        assert(digits_value(Seq::<char>::empty()) == 0);
        assert(digit_value(decimal(n)[0]) == n);
        assert(decimal(n).last() == decimal(n)[0]);
    } else {
        law_decimal_numerals(n / 10);
        lemma_digit(n % 10);
        let h = decimal(n / 10);
        let d = decimal(n);
        assert(d == h + digit(n % 10));
        assert(d.drop_last() =~= h);
        assert(d.last() == (('0' as int) + n % 10) as char);
        assert(digit_value(d.last()) == n % 10);
        assert(n == (n / 10) * 10 + n % 10);
        assert(digits_value(d) == digits_value(h) * 10 + digit_value(d.last()));
        assert(d[0] == h[0]);
        if h.len() == 1 {
            assert(h.drop_last() =~= Seq::<char>::empty());
            assert(digits_value(Seq::<char>::empty()) == 0);
            assert(h.last() == h[0]);
            assert(digits_value(h) == digit_value(h[0]));
        }
        assert forall|i: int| 0 <= i < d.len() implies '0' <= #[trigger] d[i] <= '9' by {
            if i < d.len() - 1 {
                assert(d[i] == decimal(n / 10)[i]);
            }
        }
    }
}

/// A source whose first step skips to `end` on line `line`, and nothing
/// after, scans to the end token alone, on that line.
proof fn lemma_skip_all(src: Seq<u8>, line: nat)
    requires
        src.len() > 0,
        scan_step(src, 0, 1) == (Step::Skip { end: src.len() as int, line }),
    ensures
        scan_source(src) == Ok::<Seq<SpecToken>, crate::error::ScannerError>(seq![eof_token(line)]),
{
    let rest = scan_run(src, 0, src.len() as int, line);
    assert(rest.tokens == Seq::<SpecToken>::empty() && rest.line == line && rest.error is None);
    let run = scan_run(src, 0, 0, 1);
    assert(run == rest);
    assert(run.tokens.push(eof_token(line)) =~= seq![eof_token(line)]);
}

/// A source whose first step fails at the end with `error` scans to that
/// error.
proof fn lemma_fail_at_once(src: Seq<u8>, line: nat, error: crate::error::ScannerError)
    requires
        src.len() > 0,
        scan_step(src, 0, 1) == (Step::Fail { end: src.len() as int, line, error }),
    ensures
        scan_source(src) == Err::<Seq<SpecToken>, crate::error::ScannerError>(error),
{
}

proof fn lemma_no_newline_to_end(src: Seq<u8>, i: int)
    requires
        0 <= i <= src.len(),
        forall|k: int| i <= k < src.len() ==> #[trigger] src[k] != 10,
    ensures
        line_end(src, i) == src.len(),
    decreases src.len() - i,
{
    if i < src.len() {
        lemma_no_newline_to_end(src, i + 1);
    }
}

/// `//` starts a comment that runs to the end of the line: a source that is
/// one such comment scans to the end token alone.
pub proof fn law_line_comment(text: Seq<u8>)
    requires
        forall|k: int| 0 <= k < text.len() ==> #[trigger] text[k] != ('\n' as u8),
    ensures
        scan_source(seq![('/' as u8), ('/' as u8)] + text) == Ok::<Seq<SpecToken>, crate::error::ScannerError>(
            seq![eof_token(1)],
        ),
{
    let src = seq![('/' as u8), ('/' as u8)] + text;
    assert forall|k: int| 2 <= k < src.len() implies #[trigger] src[k] != 10 by {
        assert(src[k] == text[k - 2]);
    }
    lemma_no_newline_to_end(src, 2);
    lemma_skip_all(src, 1);
}

proof fn lemma_comment_body(src: Seq<u8>, i: int, closed: bool)
    requires
        2 <= i <= src.len(),
        closed ==> src.len() >= 4 && i <= src.len() - 2 && src[src.len() - 2] == 42 && src[src.len() - 1] == 47,
        forall|k: int|
            i <= k < (if closed { src.len() - 2 } else { src.len() as int }) ==> #[trigger] src[k] != 42 && src[k] != 47
                && src[k] != 10,
    ensures
        block_comment_end(src, i, 1, 1) == if closed {
            Ok::<(int, nat), nat>((src.len() as int, 1nat))
        } else {
            Err::<(int, nat), nat>(1nat)
        },
    decreases src.len() - i,
{
    if closed {
        if i < src.len() - 2 {
            lemma_comment_body(src, i + 1, closed);
        } else {
            assert(block_comment_end(src, i + 2, 0, 1) == Ok::<(int, nat), nat>((i + 2, 1nat)));
        }
    } else if i < src.len() {
        lemma_comment_body(src, i + 1, closed);
    }
}

/// `/*` starts a comment that runs to the matching `*/`: a source that is one
/// such comment scans to the end token alone, and one whose comment is never
/// closed is refused.
pub proof fn law_block_comment(body: Seq<u8>)
    requires
        forall|k: int|
            0 <= k < body.len() ==> #[trigger] body[k] != ('*' as u8) && body[k] != ('/' as u8) && body[k] != ('\n' as u8),
    ensures
        scan_source(seq![('/' as u8), ('*' as u8)] + body + seq![('*' as u8), ('/' as u8)]) == Ok::<
            Seq<SpecToken>,
            crate::error::ScannerError,
        >(seq![eof_token(1)]),
        scan_source(seq![('/' as u8), ('*' as u8)] + body) == Err::<Seq<SpecToken>, crate::error::ScannerError>(
            crate::error::ScannerError::UnterminatedBlockComment { line: 1 },
        ),
{
    let closed = seq![('/' as u8), ('*' as u8)] + body + seq![('*' as u8), ('/' as u8)];
    assert forall|k: int| 2 <= k < closed.len() - 2 implies #[trigger] closed[k] != 42 && closed[k] != 47 && closed[k] != 10 by {
        assert(closed[k] == body[k - 2]);
    }
    lemma_comment_body(closed, 2, true);
    lemma_skip_all(closed, 1);
    let open = seq![('/' as u8), ('*' as u8)] + body;
    assert forall|k: int| 2 <= k < open.len() implies #[trigger] open[k] != 42 && open[k] != 47 && open[k] != 10 by {
        assert(open[k] == body[k - 2]);
    }
    lemma_comment_body(open, 2, false);
    lemma_fail_at_once(open, 1, crate::error::ScannerError::UnterminatedBlockComment { line: 1 });
}

proof fn lemma_open_string(src: Seq<u8>, i: int)
    requires
        1 <= i <= src.len(),
        forall|k: int| 1 <= k < src.len() ==> src[k] != 34 && src[k] != 10,
    ensures
        string_end(src, i, 1) == (src.len() as int, 1nat),
    decreases src.len() - i,
{
    if i < src.len() {
        lemma_open_string(src, i + 1);
    }
}

/// A string that is never closed is refused.
pub proof fn law_unterminated_string(body: Seq<u8>)
    requires
        forall|k: int| 0 <= k < body.len() ==> #[trigger] body[k] != ('"' as u8) && body[k] != ('\n' as u8),
    ensures
        scan_source(seq![('"' as u8)] + body) == Err::<Seq<SpecToken>, crate::error::ScannerError>(
            crate::error::ScannerError::UnterminatedString { line: 1 },
        ),
{
    let src = seq![('"' as u8)] + body;
    assert forall|k: int| 1 <= k < src.len() implies src[k] != 34 && src[k] != 10 by {
        assert(src[k] == body[k - 1]);
    }
    lemma_open_string(src, 1);
    lemma_fail_at_once(src, 1, crate::error::ScannerError::UnterminatedString { line: 1 });
}

/// An ASCII character that is none of the language's (a bracket, brace,
/// `,`, `.`, `-`, `+`, `;`, `*`, `/`, `!`, `=`, `<`, `>`, whitespace, `"`, a
/// digit, a letter or `_`) is refused where it stands.
pub proof fn law_unexpected_character(c: u8)
    requires
        c < 128,
        c != ('(' as u8) && c != (')' as u8) && c != ('{' as u8) && c != ('}' as u8) && c != (',' as u8) && c != ('.' as u8) && c != ('-' as u8) && c != ('+' as u8) && c != (';' as u8) && c != ('*' as u8) && c != ('/' as u8) && c != ('!' as u8) && c != ('=' as u8) && c != ('<' as u8) && c != ('>' as u8) && c != (' ' as u8) && c != ('\r' as u8) && c != ('\t' as u8) && c != ('\n' as u8) && c != ('"' as u8) && c != ('_' as u8),
        !(('0' as u8) <= c <= ('9' as u8)),
        !(('a' as u8) <= c <= ('z' as u8)),
        !(('A' as u8) <= c <= ('Z' as u8)),
    ensures
        scan_source(seq![c]) == Err::<Seq<SpecToken>, crate::error::ScannerError>(
            crate::error::ScannerError::UnexpectedCharacter { line: 1, character: c as char },
        ),
{
    lemma_fail_at_once(
        seq![c],
        1,
        crate::error::ScannerError::UnexpectedCharacter { line: 1, character: c as char },
    );
}

/// An operand parsed as a unary expression, followed by a `;`, a `)` or the
/// end, is the whole expression.
proof fn lemma_expression_of_unary(toks: Seq<Rc<Token>>, p: int, e: Expr, q: int)
    requires
        0 <= p < q < toks.len(),
        p_unary(toks, p) == parsed_at(e, q),
        toks[q].ttype == TokenType::Semicolon || toks[q].ttype == TokenType::RightParen || toks[q].ttype
            == TokenType::EOF,
    ensures
        p_expression(toks, p) == parsed_at(e, q),
{
    lemma_levels_stop_at_semicolon(toks, e, q);
    assert(p_factor(toks, p) == parsed_at(e, q));
    assert(p_term(toks, p) == parsed_at(e, q));
    assert(p_comparison(toks, p) == parsed_at(e, q));
    assert(p_equality(toks, p) == parsed_at(e, q));
}

/// A program whose first declaration parses as `stmt` up to the end is that
/// one statement, with no error.
proof fn lemma_single_declaration(toks: Seq<Rc<Token>>, stmt: Stmt, end: int)
    requires
        0 < end,
        toks.len() == end + 1,
        toks[0].ttype != TokenType::EOF,
        toks[end].ttype == TokenType::EOF,
        p_declaration_outcome(toks, 0) == Ok::<(Stmt, int), (crate::error::ParserError, int)>((stmt, end)),
    ensures
        p_program(toks, 0) == seq![stmt],
        p_program_errors(toks, 0) == Seq::<crate::error::ParserError>::empty(),
{
    assert(p_declaration(toks, 0) == (Some(stmt), end));
    assert(p_declaration_error(toks, 0) == None::<crate::error::ParserError>);
    assert(p_program(toks, end) == Seq::<Stmt>::empty());
    assert(p_program_errors(toks, end) == Seq::<crate::error::ParserError>::empty());
    assert(p_program(toks, 0) =~= seq![stmt]);
    assert(p_program_errors(toks, 0) =~= Seq::<crate::error::ParserError>::empty());
}

/// `var x = <number>;` declares `x` with that number as initializer;
/// `var x;` and `var x` (the `;` is not demanded) declare `x` without one.
pub proof fn law_var_declarations_parse(toks: Seq<Rc<Token>>)
    requires
        toks.len() >= 3,
        toks[0].ttype == TokenType::Var,
        toks[1].ttype == TokenType::Identifier,
    ensures
        toks.len() == 6 && toks[2].ttype == TokenType::Equal && toks[3].ttype == TokenType::Number
            && toks[3].literal is Number && toks[4].ttype == TokenType::Semicolon && toks[5].ttype == TokenType::EOF
            ==> p_program(toks, 0) == seq![
            Stmt::Var { name: toks[1], initializer: Some(Box::new(Expr::Literal(toks[3].literal))) },
        ] && p_program_errors(toks, 0) == Seq::<crate::error::ParserError>::empty(),
        toks.len() == 4 && toks[2].ttype == TokenType::Semicolon && toks[3].ttype == TokenType::EOF ==> p_program(
            toks,
            0,
        ) == seq![Stmt::Var { name: toks[1], initializer: None }] && p_program_errors(toks, 0) == Seq::<
            crate::error::ParserError,
        >::empty(),
        toks.len() == 3 && toks[2].ttype == TokenType::EOF ==> p_program(toks, 0) == seq![
            Stmt::Var { name: toks[1], initializer: None },
        ] && p_program_errors(toks, 0) == Seq::<crate::error::ParserError>::empty(),
{
    if toks.len() == 6 && toks[2].ttype == TokenType::Equal && toks[3].ttype == TokenType::Number
        && literal_of(toks[3]) is Number && toks[4].ttype == TokenType::Semicolon && toks[5].ttype == TokenType::EOF {
        let l3 = literal_expr(toks[3]);
        assert(p_primary(toks, 3) == parsed_at(l3, 4));
        assert(p_unary(toks, 3) == parsed_at(l3, 4));
        lemma_expression_of_unary(toks, 3, l3, 4);
        let stmt = Stmt::Var { name: toks[1], initializer: Some(Box::new(l3)) };
        assert(p_var_declaration(toks, 1) == Ok::<(Stmt, int), (crate::error::ParserError, int)>((stmt, 5)));
        lemma_single_declaration(toks, stmt, 5);
    }
    if toks.len() == 4 && toks[2].ttype == TokenType::Semicolon && toks[3].ttype == TokenType::EOF {
        let stmt = Stmt::Var { name: toks[1], initializer: None };
        assert(p_var_declaration(toks, 1) == Ok::<(Stmt, int), (crate::error::ParserError, int)>((stmt, 3)));
        lemma_single_declaration(toks, stmt, 3);
    }
    if toks.len() == 3 && toks[2].ttype == TokenType::EOF {
        let stmt = Stmt::Var { name: toks[1], initializer: None };
        assert(p_var_declaration(toks, 1) == Ok::<(Stmt, int), (crate::error::ParserError, int)>((stmt, 2)));
        lemma_single_declaration(toks, stmt, 2);
    }
}

/// The primary expressions: `true`, `false`, a number, a string, a variable
/// (an identifier carrying its name) and a parenthesized expression. In a
/// `print` statement each is parsed as that expression; an identifier that
/// does not carry its name is refused where it stands.
pub proof fn law_primary_expressions_parse(toks: Seq<Rc<Token>>)
    requires
        toks.len() == 4,
        toks[0].ttype == TokenType::Print,
        toks[2].ttype == TokenType::Semicolon,
        toks[3].ttype == TokenType::EOF,
    ensures
        toks[1].ttype == TokenType::True ==> p_program(toks, 0) == seq![
            Stmt::Print(Box::new(Expr::Literal(Literal::Bool(true)))),
        ],
        toks[1].ttype == TokenType::False ==> p_program(toks, 0) == seq![
            Stmt::Print(Box::new(Expr::Literal(Literal::Bool(false)))),
        ],
        toks[1].ttype == TokenType::Number && toks[1].literal is Number ==> p_program(toks, 0) == seq![
            Stmt::Print(Box::new(Expr::Literal(toks[1].literal))),
        ],
        toks[1].ttype == TokenType::String && toks[1].literal is Str ==> p_program(toks, 0) == seq![
            Stmt::Print(Box::new(Expr::Literal(toks[1].literal))),
        ],
        toks[1].ttype == TokenType::Identifier && toks[1].literal is Identifier ==> p_program(toks, 0) == seq![
            Stmt::Print(Box::new(Expr::Variable(toks[1]))),
        ],
        toks[1].ttype == TokenType::Identifier && !(toks[1].literal is Identifier) ==> p_program(toks, 0)
            == Seq::<Stmt>::empty() && p_program_errors(toks, 0) == seq![
            crate::error::ParserError::UnexpectedToken(toks[1]),
        ],
{
    let t = toks[1].ttype;
    let lit = if t == TokenType::True {
        Expr::Literal(Literal::Bool(true))
    } else if t == TokenType::False {
        Expr::Literal(Literal::Bool(false))
    } else if t == TokenType::Identifier {
        Expr::Variable(toks[1])
    } else {
        literal_expr(toks[1])
    };
    if (t == TokenType::True || t == TokenType::False || (t == TokenType::Number && literal_of(toks[1]) is Number) || (t
        == TokenType::String && literal_of(toks[1]) is Str) || (t == TokenType::Identifier
        && literal_of(toks[1]) is Identifier)) {
        assert(p_primary(toks, 1) == parsed_at(lit, 2));
        assert(p_unary(toks, 1) == parsed_at(lit, 2));
        lemma_expression_of_unary(toks, 1, lit, 2);
        lemma_print_program(toks, lit, 2);
    }
    if t == TokenType::Identifier && !(literal_of(toks[1]) is Identifier) {
        let err = crate::error::ParserError::UnexpectedToken(toks[1]);
        assert(p_primary(toks, 1) == Err::<(Expr, int), (crate::error::ParserError, int)>((err, 2)));
        assert(p_unary(toks, 1) == Err::<(Expr, int), (crate::error::ParserError, int)>((err, 2)));
        assert(p_factor(toks, 1) == Err::<(Expr, int), (crate::error::ParserError, int)>((err, 2)));
        assert(p_term(toks, 1) == Err::<(Expr, int), (crate::error::ParserError, int)>((err, 2)));
        assert(p_comparison(toks, 1) == Err::<(Expr, int), (crate::error::ParserError, int)>((err, 2)));
        assert(p_equality(toks, 1) == Err::<(Expr, int), (crate::error::ParserError, int)>((err, 2)));
        assert(p_expression(toks, 1) == Err::<(Expr, int), (crate::error::ParserError, int)>((err, 2)));
        assert(p_declaration_outcome(toks, 0) == Err::<(Stmt, int), (crate::error::ParserError, int)>((err, 2)));
        assert(synchronize(toks, 2) == 3);
        assert(p_declaration(toks, 0) == (None::<Stmt>, 3int));
        assert(p_program(toks, 3) == Seq::<Stmt>::empty());
        assert(p_program_errors(toks, 3) == Seq::<crate::error::ParserError>::empty());
        assert(p_program(toks, 0) =~= Seq::<Stmt>::empty());
        assert(p_program_errors(toks, 0) =~= seq![err]);
    }
}

/// A parenthesized expression is parsed as a grouping of what it encloses;
/// a group that is not closed is refused at the token that should have been
/// `)`.
pub proof fn law_grouping_parses(toks: Seq<Rc<Token>>)
    requires
        toks[0].ttype == TokenType::Print,
        toks[1].ttype == TokenType::LeftParen,
        toks[2].ttype == TokenType::Number && toks[2].literal is Number,
    ensures
        toks.len() == 6 && toks[3].ttype == TokenType::RightParen && toks[4].ttype == TokenType::Semicolon
            && toks[5].ttype == TokenType::EOF ==> p_program(toks, 0) == seq![
            Stmt::Print(Box::new(Expr::Grouping(Box::new(Expr::Literal(toks[2].literal))))),
        ] && p_program_errors(toks, 0) == Seq::<crate::error::ParserError>::empty(),
        toks.len() == 5 && toks[3].ttype == TokenType::Semicolon && toks[4].ttype == TokenType::EOF ==> p_program(
            toks,
            0,
        ) == Seq::<Stmt>::empty() && p_program_errors(toks, 0) == seq![crate::error::ParserError::UnterminatedGroup(toks[3])],
{
    let l2 = literal_expr(toks[2]);
    if toks.len() == 6 && toks[3].ttype == TokenType::RightParen && toks[4].ttype == TokenType::Semicolon
        && toks[5].ttype == TokenType::EOF {
        assert(p_primary(toks, 2) == parsed_at(l2, 3));
        assert(p_unary(toks, 2) == parsed_at(l2, 3));
        lemma_expression_of_unary(toks, 2, l2, 3);
        let g = Expr::Grouping(Box::new(l2));
        assert(p_primary(toks, 1) == parsed_at(g, 4));
        assert(p_unary(toks, 1) == parsed_at(g, 4));
        lemma_expression_of_unary(toks, 1, g, 4);
        lemma_print_program(toks, g, 4);
    }
    if toks.len() == 5 && toks[3].ttype == TokenType::Semicolon && toks[4].ttype == TokenType::EOF {
        assert(p_primary(toks, 2) == parsed_at(l2, 3));
        assert(p_unary(toks, 2) == parsed_at(l2, 3));
        lemma_expression_of_unary(toks, 2, l2, 3);
        let err = crate::error::ParserError::UnterminatedGroup(toks[3]);
        let failed = Err::<(Expr, int), (crate::error::ParserError, int)>((err, 3));
        assert(p_primary(toks, 1) == failed);
        assert(p_unary(toks, 1) == failed);
        assert(p_factor(toks, 1) == failed);
        assert(p_term(toks, 1) == failed);
        assert(p_comparison(toks, 1) == failed);
        assert(p_equality(toks, 1) == failed);
        assert(p_expression(toks, 1) == failed);
        assert(p_declaration_outcome(toks, 0) == Err::<(Stmt, int), (crate::error::ParserError, int)>((err, 3)));
        assert(sync_from(toks, 4) == 4);
        assert(p_declaration(toks, 0) == (None::<Stmt>, 4int));
        assert(p_program(toks, 4) == Seq::<Stmt>::empty());
        assert(p_program_errors(toks, 4) == Seq::<crate::error::ParserError>::empty());
        assert(p_program(toks, 0) =~= Seq::<Stmt>::empty());
        assert(p_program_errors(toks, 0) =~= seq![err]);
    }
}

/// A statement without its `;` is refused, naming the token before the
/// missing `;`.
pub proof fn law_missing_semicolon(toks: Seq<Rc<Token>>)
    requires
        toks.len() == 3,
        toks[0].ttype == TokenType::Print,
        toks[1].ttype == TokenType::Number && toks[1].literal is Number,
        toks[2].ttype == TokenType::EOF,
    ensures
        p_program(toks, 0) == Seq::<Stmt>::empty(),
        p_program_errors(toks, 0) == seq![crate::error::ParserError::UnterminatedStmt(toks[1])],
{
    let l1 = literal_expr(toks[1]);
    assert(p_primary(toks, 1) == parsed_at(l1, 2));
    assert(p_unary(toks, 1) == parsed_at(l1, 2));
    lemma_expression_of_unary(toks, 1, l1, 2);
    let err = crate::error::ParserError::UnterminatedStmt(toks[1]);
    assert(p_consume(toks, 2, TokenType::Semicolon) == Err::<(Rc<Token>, int), (crate::error::ParserError, int)>((err, 2)));
    assert(p_declaration_outcome(toks, 0) == Err::<(Stmt, int), (crate::error::ParserError, int)>((err, 2)));
    assert(sync_from(toks, 2) == 2);
    assert(p_declaration(toks, 0) == (None::<Stmt>, 2int));
    assert(p_program(toks, 2) == Seq::<Stmt>::empty());
    assert(p_program_errors(toks, 2) == Seq::<crate::error::ParserError>::empty());
    assert(p_program(toks, 0) =~= Seq::<Stmt>::empty());
    assert(p_program_errors(toks, 0) =~= seq![err]);
}

/// A declaration that fails is left out and reported, and parsing resumes
/// after its `;`: `print ; print 1;` is the one statement `print 1;` and one
/// error at the first `;`.
pub proof fn law_recovery_after_semicolon(toks: Seq<Rc<Token>>)
    requires
        toks.len() == 6,
        toks[0].ttype == TokenType::Print,
        toks[1].ttype == TokenType::Semicolon,
        toks[2].ttype == TokenType::Print,
        toks[3].ttype == TokenType::Number && toks[3].literal is Number,
        toks[4].ttype == TokenType::Semicolon,
        toks[5].ttype == TokenType::EOF,
    ensures
        p_program(toks, 0) == seq![Stmt::Print(Box::new(Expr::Literal(toks[3].literal)))],
        p_program_errors(toks, 0) == seq![crate::error::ParserError::UnexpectedToken(toks[1])],
{
    let err = crate::error::ParserError::UnexpectedToken(toks[1]);
    let failed = Err::<(Expr, int), (crate::error::ParserError, int)>((err, 1));
    assert(p_primary(toks, 1) == failed);
    assert(p_unary(toks, 1) == failed);
    assert(p_factor(toks, 1) == failed);
    assert(p_term(toks, 1) == failed);
    assert(p_comparison(toks, 1) == failed);
    assert(p_equality(toks, 1) == failed);
    assert(p_expression(toks, 1) == failed);
    assert(p_declaration_outcome(toks, 0) == Err::<(Stmt, int), (crate::error::ParserError, int)>((err, 1)));
    assert(sync_from(toks, 2) == 2);
    assert(p_declaration(toks, 0) == (None::<Stmt>, 2int));
    let l3 = literal_expr(toks[3]);
    assert(p_primary(toks, 3) == parsed_at(l3, 4));
    assert(p_unary(toks, 3) == parsed_at(l3, 4));
    lemma_expression_of_unary(toks, 3, l3, 4);
    let stmt = Stmt::Print(Box::new(l3));
    assert(p_consume(toks, 4, TokenType::Semicolon) == Ok::<(Rc<Token>, int), (crate::error::ParserError, int)>((toks[4], 5)));
    assert(p_print_statement(toks, 3) == Ok::<(Stmt, int), (crate::error::ParserError, int)>((stmt, 5)));
    assert(p_statement(toks, 2) == Ok::<(Stmt, int), (crate::error::ParserError, int)>((stmt, 5)));
    assert(p_declaration_outcome(toks, 2) == Ok::<(Stmt, int), (crate::error::ParserError, int)>((stmt, 5)));
    assert(p_declaration(toks, 2) == (Some(stmt), 5int));
    assert(p_declaration_error(toks, 2) == None::<crate::error::ParserError>);
    assert(p_program(toks, 5) == Seq::<Stmt>::empty());
    assert(p_program_errors(toks, 5) == Seq::<crate::error::ParserError>::empty());
    assert(p_program(toks, 2) =~= seq![stmt]);
    assert(p_program_errors(toks, 2) =~= Seq::<crate::error::ParserError>::empty());
    assert(p_program(toks, 0) =~= seq![stmt]);
    assert(p_program_errors(toks, 0) =~= seq![err]);
}

/// `*` and `/` bind more tightly than `+` and `-`, and operators of one
/// level group to the left: `1 + 2 * 3` is `1 + (2 * 3)`, `1 * 2 + 3` is
/// `(1 * 2) + 3` and `1 - 2 + 3` is `(1 - 2) + 3`.
pub proof fn law_term_and_factor_precedence(toks: Seq<Rc<Token>>)
    requires
        toks.len() == 8,
        toks[0].ttype == TokenType::Print,
        toks[1].ttype == TokenType::Number && toks[1].literal is Number,
        toks[3].ttype == TokenType::Number && toks[3].literal is Number,
        toks[5].ttype == TokenType::Number && toks[5].literal is Number,
        toks[6].ttype == TokenType::Semicolon,
        toks[7].ttype == TokenType::EOF,
    ensures
        ({
            let n1 = Expr::Literal(toks[1].literal);
            let n3 = Expr::Literal(toks[3].literal);
            let n5 = Expr::Literal(toks[5].literal);
            let term1 = toks[2].ttype == TokenType::Plus || toks[2].ttype == TokenType::Minus;
            let factor1 = toks[2].ttype == TokenType::Star || toks[2].ttype == TokenType::Slash;
            let term2 = toks[4].ttype == TokenType::Plus || toks[4].ttype == TokenType::Minus;
            let factor2 = toks[4].ttype == TokenType::Star || toks[4].ttype == TokenType::Slash;
            &&& term1 && factor2 ==> p_program(toks, 0) == seq![
                Stmt::Print(Box::new(binary_of(n1, toks[2], binary_of(n3, toks[4], n5)))),
            ]
            &&& factor1 && term2 ==> p_program(toks, 0) == seq![
                Stmt::Print(Box::new(binary_of(binary_of(n1, toks[2], n3), toks[4], n5))),
            ]
            &&& term1 && term2 ==> p_program(toks, 0) == seq![
                Stmt::Print(Box::new(binary_of(binary_of(n1, toks[2], n3), toks[4], n5))),
            ]
        }),
{
    let n1 = literal_expr(toks[1]);
    let n3 = literal_expr(toks[3]);
    let n5 = literal_expr(toks[5]);
    let t2 = toks[2].ttype;
    let t4 = toks[4].ttype;
    let term1 = t2 == TokenType::Plus || t2 == TokenType::Minus;
    let factor1 = t2 == TokenType::Star || t2 == TokenType::Slash;
    let term2 = t4 == TokenType::Plus || t4 == TokenType::Minus;
    let factor2 = t4 == TokenType::Star || t4 == TokenType::Slash;
    assert(p_primary(toks, 1) == parsed_at(n1, 2));
    assert(p_unary(toks, 1) == parsed_at(n1, 2));
    assert(p_primary(toks, 3) == parsed_at(n3, 4));
    assert(p_unary(toks, 3) == parsed_at(n3, 4));
    assert(p_primary(toks, 5) == parsed_at(n5, 6));
    assert(p_unary(toks, 5) == parsed_at(n5, 6));
    if term1 && factor2 {
        let e35 = binary_of(n3, toks[4], n5);
        let e = binary_of(n1, toks[2], e35);
        lemma_levels_stop_at_semicolon(toks, e35, 6);
        lemma_levels_stop_at_semicolon(toks, e, 6);
        assert(p_factor_rest(toks, n1, 2) == parsed_at(n1, 2));
        assert(p_factor(toks, 1) == parsed_at(n1, 2));
        assert(p_factor_rest(toks, n3, 4) == parsed_at(e35, 6));
        assert(p_factor(toks, 3) == parsed_at(e35, 6));
        assert(p_term_rest(toks, n1, 2) == parsed_at(e, 6));
        assert(p_term(toks, 1) == parsed_at(e, 6));
        assert(p_comparison(toks, 1) == parsed_at(e, 6));
        assert(p_equality(toks, 1) == parsed_at(e, 6));
        assert(p_expression(toks, 1) == parsed_at(e, 6));
        lemma_print_program(toks, e, 6);
    }
    if factor1 && term2 {
        let e13 = binary_of(n1, toks[2], n3);
        let e = binary_of(e13, toks[4], n5);
        lemma_levels_stop_at_semicolon(toks, n5, 6);
        lemma_levels_stop_at_semicolon(toks, e, 6);
        assert(p_factor_rest(toks, e13, 4) == parsed_at(e13, 4));
        assert(p_factor_rest(toks, n1, 2) == parsed_at(e13, 4));
        assert(p_factor(toks, 1) == parsed_at(e13, 4));
        assert(p_factor(toks, 5) == parsed_at(n5, 6));
        assert(p_term_rest(toks, e13, 4) == parsed_at(e, 6));
        assert(p_term(toks, 1) == parsed_at(e, 6));
        assert(p_comparison(toks, 1) == parsed_at(e, 6));
        assert(p_equality(toks, 1) == parsed_at(e, 6));
        assert(p_expression(toks, 1) == parsed_at(e, 6));
        lemma_print_program(toks, e, 6);
    }
    if term1 && term2 {
        let e13 = binary_of(n1, toks[2], n3);
        let e = binary_of(e13, toks[4], n5);
        lemma_levels_stop_at_semicolon(toks, n5, 6);
        lemma_levels_stop_at_semicolon(toks, e, 6);
        assert(p_factor_rest(toks, n1, 2) == parsed_at(n1, 2));
        assert(p_factor(toks, 1) == parsed_at(n1, 2));
        assert(p_factor_rest(toks, n3, 4) == parsed_at(n3, 4));
        assert(p_factor(toks, 3) == parsed_at(n3, 4));
        assert(p_factor(toks, 5) == parsed_at(n5, 6));
        assert(p_term_rest(toks, e13, 4) == parsed_at(e, 6));
        assert(p_term_rest(toks, n1, 2) == parsed_at(e, 6));
        assert(p_term(toks, 1) == parsed_at(e, 6));
        assert(p_comparison(toks, 1) == parsed_at(e, 6));
        assert(p_equality(toks, 1) == parsed_at(e, 6));
        assert(p_expression(toks, 1) == parsed_at(e, 6));
        lemma_print_program(toks, e, 6);
    }
}

/// A statement that succeeds changes at most the innermost scope.
proof fn lemma_outer_scopes_kept<N, F, G>(evaluate: F, show: G, scopes: Scopes<N>, stmt: Stmt) where
    F: Fn(&crate::env::Environment<RuntimeValue<N>>, &Expr) -> Result<RuntimeValue<N>, crate::error::RuntimeError>,
    G: Fn(&RuntimeValue<N>) -> String,

    requires
        scopes.len() > 0,
    ensures
        run_stmt(evaluate, show, scopes, stmt).1 is Ok ==> run_stmt(evaluate, show, scopes, stmt).0.len()
            == scopes.len() && run_stmt(evaluate, show, scopes, stmt).0.drop_first() == scopes.drop_first(),
    decreases stmt_size(stmt), 1int,
{
    match stmt {
        Stmt::Block(stmts) => {
            let inner = seq![Map::empty()] + scopes;
            lemma_all_outer_scopes_kept(evaluate, show, inner, stmts@);
            assert(inner.drop_first() =~= scopes);
        },
        Stmt::Var { name, initializer } => {
            let (after, r) = run_stmt(evaluate, show, scopes, stmt);
            if r is Ok {
                assert(after.drop_first() =~= scopes.drop_first());
            }
        },
        _ => {},
    }
}

/// Statements that succeed change at most the innermost scope.
proof fn lemma_all_outer_scopes_kept<N, F, G>(evaluate: F, show: G, scopes: Scopes<N>, stmts: Seq<Stmt>) where
    F: Fn(&crate::env::Environment<RuntimeValue<N>>, &Expr) -> Result<RuntimeValue<N>, crate::error::RuntimeError>,
    G: Fn(&RuntimeValue<N>) -> String,

    requires
        scopes.len() > 0,
    ensures
        run_stmts(evaluate, show, scopes, stmts).1 is Ok ==> run_stmts(evaluate, show, scopes, stmts).0.len()
            == scopes.len() && run_stmts(evaluate, show, scopes, stmts).0.drop_first() == scopes.drop_first(),
    decreases stmts_size(stmts), 0int,
{
    if stmts.len() > 0 {
        lemma_outer_scopes_kept(evaluate, show, scopes, stmts[0]);
        let (s1, r1) = run_stmt(evaluate, show, scopes, stmts[0]);
        if r1 is Ok {
            lemma_all_outer_scopes_kept(evaluate, show, s1, stmts.drop_first());
        }
    }
}

/// A block that succeeds outputs nothing and leaves every variable as it was:
/// what it declares lives only inside it.
pub proof fn law_block_leaves_variables<N, F, G>(evaluate: F, show: G, scopes: Scopes<N>, stmts: Vec<Stmt>) where
    F: Fn(&crate::env::Environment<RuntimeValue<N>>, &Expr) -> Result<RuntimeValue<N>, crate::error::RuntimeError>,
    G: Fn(&RuntimeValue<N>) -> String,

    requires
        scopes.len() > 0,
    ensures
        run_stmt(evaluate, show, scopes, Stmt::Block(stmts)).1 is Ok ==> run_stmt(
            evaluate,
            show,
            scopes,
            Stmt::Block(stmts),
        ) == (scopes, Ok::<Option<String>, crate::error::RuntimeError>(None)),
{
    let inner = seq![Map::empty()] + scopes;
    lemma_all_outer_scopes_kept(evaluate, show, inner, stmts@);
    assert(inner.drop_first() =~= scopes);
}

/// Running a program statement by statement: running `p` then `t` is
/// running `p` and, if it succeeded, running `t` from where it left the
/// variables, with the outputs of both in order; if `p` failed, nothing of
/// `t` runs. A single statement outputs its output, if any.
pub proof fn law_program_runs_in_order<N, F, G>(
    evaluate: F,
    show: G,
    scopes: Scopes<N>,
    p: Seq<Stmt>,
    t: Seq<Stmt>,
    stmt: Stmt,
) where
    F: Fn(&crate::env::Environment<RuntimeValue<N>>, &Expr) -> Result<RuntimeValue<N>, crate::error::RuntimeError>,
    G: Fn(&RuntimeValue<N>) -> String,

    ensures
        ({
            let (s1, o1, r1) = run_program(evaluate, show, scopes, p);
            let (s2, o2, r2) = run_program(evaluate, show, s1, t);
            run_program(evaluate, show, scopes, p + t) == if r1 is Ok {
                (s2, o1 + o2, r2)
            } else {
                (s1, o1, r1)
            }
        }),
        run_program(evaluate, show, scopes, seq![stmt]) == match run_stmt(evaluate, show, scopes, stmt) {
            (s1, Ok(Some(o))) => (s1, seq![o], Ok::<(), crate::error::RuntimeError>(())),
            (s1, Ok(None)) => (s1, Seq::<String>::empty(), Ok::<(), crate::error::RuntimeError>(())),
            (s1, Err(e)) => (s1, Seq::<String>::empty(), Err::<(), crate::error::RuntimeError>(e)),
        },
    decreases p.len(),
{
    assert(seq![stmt].drop_first() =~= Seq::<Stmt>::empty());
    assert(seq![stmt][0] == stmt);
    let (s0, r0) = run_stmt(evaluate, show, scopes, stmt);
    assert(run_program(evaluate, show, s0, Seq::<Stmt>::empty()) == (
        s0,
        Seq::<String>::empty(),
        Ok::<(), crate::error::RuntimeError>(()),
    ));
    match r0 {
        Ok(Some(o)) => {
            assert(seq![o] + Seq::<String>::empty() =~= seq![o]);
        },
        Ok(None) => {
            assert(Seq::<String>::empty() + Seq::<String>::empty() =~= Seq::<String>::empty());
        },
        Err(_) => {},
    }
    if p.len() == 0 {
        assert(p + t =~= t);
        let (s2, o2, r2) = run_program(evaluate, show, scopes, t);
        assert(Seq::<String>::empty() + o2 =~= o2);
    } else {
        assert((p + t)[0] == p[0]);
        assert((p + t).drop_first() =~= p.drop_first() + t);
        let (s1, r1) = run_stmt(evaluate, show, scopes, p[0]);
        if let Ok(out) = r1 {
            law_program_runs_in_order(evaluate, show, s1, p.drop_first(), t, stmt);
            let (sa, oa, ra) = run_program(evaluate, show, s1, p.drop_first());
            let (sb, ob, rb) = run_program(evaluate, show, sa, t);
            let first = match out {
                Some(o) => seq![o],
                None => Seq::<String>::empty(),
            };
            assert(first + (oa + ob) =~= (first + oa) + ob);
        }
    }
}

/// A literal evaluates to its value (a number literal to the number its
/// numeral stands for, `nil` and an identifier's literal to `nil`), a
/// variable to the value of the innermost scope that defines it or to an
/// `UndefinedVariable` error, and a grouping to what it encloses.
pub proof fn law_leaf_evaluation<N, C, P, A, G, J, E>(
    numeral: C,
    compare: P,
    arith: A,
    negate: G,
    number_text: J,
    numbers_equal: E,
    scopes: Scopes<N>,
    b: bool,
    text: String,
    var: Rc<Token>,
    inner: Expr,
) where
    C: Fn(&String) -> N,
    P: Fn(NumberOp, &N, &N) -> bool,
    A: Fn(NumberOp, &N, &N) -> Option<N>,
    G: Fn(&N) -> N,
    J: Fn(&N) -> String,
    E: Fn(&N, &N) -> bool,
    ensures
        eval_expr(numeral, compare, arith, negate, number_text, numbers_equal, scopes, Expr::Literal(Literal::Bool(b))) == Ok::<ValueModel<N>, crate::error::RuntimeError>(ValueModel::Bool(b)),
        eval_expr(numeral, compare, arith, negate, number_text, numbers_equal, scopes, Expr::Literal(Literal::Str(text))) == Ok::<ValueModel<N>, crate::error::RuntimeError>(ValueModel::Str(text@)),
        eval_expr(numeral, compare, arith, negate, number_text, numbers_equal, scopes, Expr::Literal(Literal::Number(text))) == Ok::<ValueModel<N>, crate::error::RuntimeError>(ValueModel::Number(numeral_value(numeral, text))),
        eval_expr(numeral, compare, arith, negate, number_text, numbers_equal, scopes, Expr::Literal(Literal::Nil)) == Ok::<ValueModel<N>, crate::error::RuntimeError>(ValueModel::Nil),
        eval_expr(numeral, compare, arith, negate, number_text, numbers_equal, scopes, Expr::Literal(Literal::Identifier(text))) == Ok::<ValueModel<N>, crate::error::RuntimeError>(ValueModel::Nil),
        eval_expr(numeral, compare, arith, negate, number_text, numbers_equal, scopes, Expr::Variable(var)) == match lookup(scopes, var.lexeme@) {
            Some(v) => Ok::<ValueModel<N>, crate::error::RuntimeError>(v@),
            None => Err(crate::error::RuntimeError::UndefinedVariable(var)),
        },
        eval_expr(numeral, compare, arith, negate, number_text, numbers_equal, scopes, Expr::Grouping(Box::new(inner))) == eval_expr(numeral, compare, arith, negate, number_text, numbers_equal, scopes, inner),
{
}

/// Equality of values: `nil` equals only `nil`, two booleans or two strings
/// are equal when they are the same, values of different kinds are never
/// equal, and two numbers are left to the number type.
pub proof fn law_equality_of_values<N>(a: ValueModel<N>, b: ValueModel<N>, p: bool, q: bool, s: Seq<char>, t: Seq<char>, x: N, y: N)
    ensures
        equality_rule(ValueModel::<N>::Nil, ValueModel::<N>::Nil) == Some(true),
        equality_rule(ValueModel::<N>::Bool(p), ValueModel::<N>::Bool(q)) == Some(p == q),
        equality_rule(ValueModel::<N>::Str(s), ValueModel::<N>::Str(t)) == Some(s == t),
        equality_rule(ValueModel::Number(x), ValueModel::Number(y)) is None,
        !(a is Nil && b is Nil) && !(a is Bool && b is Bool) && !(a is Str && b is Str) && !(a is Number
            && b is Number) ==> equality_rule(a, b) == Some(false),
{
}

/// Only `nil` and `false` are false.
pub proof fn law_truthiness<N>(v: ValueModel<N>)
    ensures
        truthy(v) == !(v is Nil || v == ValueModel::<N>::Bool(false)),
{
}

proof fn lemma_string_plain(src: Seq<u8>, i: int, j: int, line: nat)
    requires
        0 <= i <= j <= src.len(),
        forall|k: int| i <= k < j ==> #[trigger] src[k] != 34 && src[k] != 10,
    ensures
        string_end(src, i, line) == string_end(src, j, line),
    decreases j - i,
{
    if i < j {
        lemma_string_plain(src, i + 1, j, line);
    }
}

proof fn lemma_comment_plain(src: Seq<u8>, i: int, j: int, line: nat)
    requires
        0 <= i <= j <= src.len(),
        forall|k: int| i <= k < j ==> #[trigger] src[k] != 42 && src[k] != 47 && src[k] != 10,
    ensures
        block_comment_end(src, i, 1, line) == block_comment_end(src, j, 1, line),
    decreases j - i,
{
    if i < j {
        lemma_comment_plain(src, i + 1, j, line);
    }
}

/// Line by line: a string or a block comment that spans a newline ends on
/// the next line, and a string keeps the newline in its text.
pub proof fn law_newlines_inside_strings_and_comments(a: Seq<u8>, b: Seq<u8>)
    requires
        forall|k: int| 0 <= k < a.len() ==> #[trigger] a[k] != ('"' as u8) && a[k] != ('\n' as u8) && a[k] != ('*' as u8)
            && a[k] != ('/' as u8),
        forall|k: int| 0 <= k < b.len() ==> #[trigger] b[k] != ('"' as u8) && b[k] != ('\n' as u8) && b[k] != ('*' as u8)
            && b[k] != ('/' as u8),
    ensures
        scan_source(seq![('"' as u8)] + a + seq![('\n' as u8)] + b + seq![('"' as u8)]) == Ok::<
            Seq<SpecToken>,
            crate::error::ScannerError,
        >(
            seq![
                SpecToken {
                    ttype: TokenType::String,
                    lexeme: seq![('"' as u8)] + a + seq![('\n' as u8)] + b + seq![('"' as u8)],
                    literal: SpecLiteral::Str(a + seq![('\n' as u8)] + b),
                    line: 2,
                },
                eof_token(2),
            ],
        ),
        scan_source(seq![('/' as u8), ('*' as u8)] + a + seq![('\n' as u8)] + b + seq![('*' as u8), ('/' as u8)])
            == Ok::<Seq<SpecToken>, crate::error::ScannerError>(seq![eof_token(2)]),
{
    let src = seq![('"' as u8)] + a + seq![('\n' as u8)] + b + seq![('"' as u8)];
    let n = a.len() as int;
    assert forall|k: int| 1 <= k < 1 + n implies #[trigger] src[k] != 34 && src[k] != 10 by {
        assert(src[k] == a[k - 1]);
    }
    assert forall|k: int| n + 2 <= k < src.len() - 1 implies #[trigger] src[k] != 34 && src[k] != 10 by {
        assert(src[k] == b[k - n - 2]);
    }
    lemma_string_plain(src, 1, 1 + n, 1);
    assert(src[1 + n] == 10);
    lemma_string_plain(src, n + 2, src.len() - 1, 2);
    assert(src[src.len() - 1] == 34);
    assert(string_end(src, 1, 1) == (src.len() - 1, 2nat));
    let text = a + seq![('\n' as u8)] + b;
    assert(src.subrange(1, src.len() - 1) =~= text);
    let tok = SpecToken { ttype: TokenType::String, lexeme: src, literal: SpecLiteral::Str(text), line: 2 };
    assert(src.subrange(0, src.len() as int) =~= src);
    let rest = scan_run(src, 0, src.len() as int, 2);
    assert(rest.tokens == Seq::<SpecToken>::empty() && rest.line == 2 && rest.error is None);
    let run = scan_run(src, 0, 0, 1);
    assert(run.tokens =~= seq![tok]);
    assert(run.tokens.push(eof_token(2)) =~= seq![tok, eof_token(2)]);

    let c = seq![('/' as u8), ('*' as u8)] + a + seq![('\n' as u8)] + b + seq![('*' as u8), ('/' as u8)];
    assert forall|k: int| 2 <= k < 2 + n implies #[trigger] c[k] != 42 && c[k] != 47 && c[k] != 10 by {
        assert(c[k] == a[k - 2]);
    }
    assert forall|k: int| n + 3 <= k < c.len() - 2 implies #[trigger] c[k] != 42 && c[k] != 47 && c[k] != 10 by {
        assert(c[k] == b[k - n - 3]);
    }
    lemma_comment_plain(c, 2, 2 + n, 1);
    assert(c[2 + n] == 10);
    lemma_comment_plain(c, n + 3, c.len() - 2, 2);
    assert(c[c.len() - 2] == 42 && c[c.len() - 1] == 47);
    assert(block_comment_end(c, c.len() as int, 0, 2) == Ok::<(int, nat), nat>((c.len() as int, 2nat)));
    assert(block_comment_end(c, 2, 1, 1) == Ok::<(int, nat), nat>((c.len() as int, 2nat)));
    lemma_skip_all(c, 2);
}

/// `n` spaces.
pub open spec fn spaces(n: nat) -> Seq<char> {
    Seq::new(n, |i: int| ' ')
}

proof fn lemma_pad_is_spaces(n: nat)
    ensures
        pad(n) == spaces(n),
    decreases n,
{
    reveal_strlit(" ");
    if n > 0 {
        lemma_pad_is_spaces((n - 1) as nat);
    }
    assert(pad(n) =~= spaces(n));
}

/// The tree layout of an expression: each node starts with as many spaces as
/// its depth below the given indent, then `Literal` and the literal's text,
/// `Variable` and the token's text, `Group` and a newline, `Unary(` with the
/// operator and `)` and a newline, or `Binary(` with the operator and `)`
/// and a newline; the operands follow one level deeper, and after each
/// operand of a binary node come the node's spaces (and a newline after the
/// first).
pub proof fn law_pretty_layout<L, T>(show_literal: L, show_token: T, e: Expr, n: nat) where
    L: Fn(&Literal) -> String,
    T: Fn(&Token) -> String,

    ensures
        match e {
            Expr::Literal(l) => pretty_text(show_literal, show_token, e, n) == spaces(n) + seq!['L', 'i', 't', 'e', 'r', 'a', 'l'] + text_of(
                show_literal,
                l,
            ),
            Expr::Variable(v) => pretty_text(show_literal, show_token, e, n) == spaces(n) + seq!['V', 'a', 'r', 'i', 'a', 'b', 'l', 'e'] + text_of(
                show_token,
                *v,
            ),
            Expr::Grouping(inner) => pretty_text(show_literal, show_token, e, n) == spaces(n) + seq!['G', 'r', 'o', 'u', 'p', '\n']
                + pretty_text(show_literal, show_token, *inner, n + 1),
            Expr::Unary { operator, right } => pretty_text(show_literal, show_token, e, n) == spaces(n) + seq!['U', 'n', 'a', 'r', 'y', '(']
                + operator.lexeme@ + seq![')', '\n'] + pretty_text(show_literal, show_token, *right, n + 1),
            Expr::Binary { left, operator, right } => pretty_text(show_literal, show_token, e, n) == spaces(n)
                + seq!['B', 'i', 'n', 'a', 'r', 'y', '('] + operator.lexeme@ + seq![')', '\n'] + pretty_text(show_literal, show_token, *left, n + 1)
                + spaces(n) + seq!['\n'] + pretty_text(show_literal, show_token, *right, n + 1) + spaces(n),
        },
{
    lemma_pad_is_spaces(n);
    reveal_strlit("Literal");
    reveal_strlit("Variable");
    reveal_strlit("Group\n");
    reveal_strlit("Unary(");
    reveal_strlit("Binary(");
    reveal_strlit(")\n");
    reveal_strlit("\n");
    match e {
        Expr::Literal(l) => {
            assert("Literal"@ =~= seq!['L', 'i', 't', 'e', 'r', 'a', 'l']);
        },
        Expr::Variable(v) => {
            assert("Variable"@ =~= seq!['V', 'a', 'r', 'i', 'a', 'b', 'l', 'e']);
        },
        Expr::Grouping(inner) => {
            assert("Group\n"@ =~= seq!['G', 'r', 'o', 'u', 'p', '\n']);
        },
        Expr::Unary { operator, right } => {
            assert("Unary("@ =~= seq!['U', 'n', 'a', 'r', 'y', '(']);
            assert(")\n"@ =~= seq![')', '\n']);
        },
        Expr::Binary { left, operator, right } => {
            assert("Binary("@ =~= seq!['B', 'i', 'n', 'a', 'r', 'y', '(']);
            assert(")\n"@ =~= seq![')', '\n']);
            assert("\n"@ =~= seq!['\n']);
        },
    }
}

/// The error messages: a scanner, parser or evaluation error starts with
/// `[line N] ` and says what went wrong and where, and an error of running a
/// program names its stage first.
pub proof fn law_error_messages(
    text: String,
    line: usize,
    c: char,
    t: Rc<Token>,
    s: crate::error::ScannerError,
    pe: crate::error::ParserError,
    re: crate::error::RuntimeError,
)
    ensures
        scanner_message(crate::error::ScannerError::ParseFloat(text)) == if text@.len() == 0 {
            seq!['P', 'a', 'r', 's', 'e', 'F', 'l', 'o', 'a', 't', 'E', 'r', 'r', 'o', 'r', ':', ' ', 'c', 'a', 'n', 'n', 'o', 't', ' ', 'p', 'a', 'r', 's', 'e', ' ', 'f', 'l', 'o', 'a', 't', ' ', 'f', 'r', 'o', 'm', ' ', 'e', 'm', 'p', 't', 'y', ' ', 's', 't', 'r', 'i', 'n', 'g']
        } else {
            seq!['P', 'a', 'r', 's', 'e', 'F', 'l', 'o', 'a', 't', 'E', 'r', 'r', 'o', 'r', ':', ' ', 'i', 'n', 'v', 'a', 'l', 'i', 'd', ' ', 'f', 'l', 'o', 'a', 't', ' ', 'l', 'i', 't', 'e', 'r', 'a', 'l']
        },
        scanner_message(crate::error::ScannerError::UnterminatedString { line }) == seq!['[', 'l', 'i', 'n', 'e', ' '] + decimal(line as nat) + seq![']', ' '] + seq!['U', 'n', 't', 'e', 'r', 'm', 'i', 'n', 'a', 't', 'e', 'd', ' ', 's', 't', 'r', 'i', 'n', 'g', '.'],
        scanner_message(crate::error::ScannerError::UnexpectedCharacter { line, character: c }) == seq!['[', 'l', 'i', 'n', 'e', ' '] + decimal(line as nat) + seq![']', ' '] + seq!['U', 'n', 'e', 'x', 'p', 'e', 'c', 't', 'e', 'd', ' ', 'c', 'h', 'a', 'r', 'a', 'c', 't', 'e', 'r', ':', ' ', '\''] + seq![c] + seq!['\''],
        scanner_message(crate::error::ScannerError::UnterminatedBlockComment { line }) == seq!['[', 'l', 'i', 'n', 'e', ' '] + decimal(line as nat) + seq![']', ' '] + seq!['U', 'n', 't', 'e', 'r', 'm', 'i', 'n', 'a', 't', 'e', 'd', ' ', 'b', 'l', 'o', 'c', 'k', ' ', 'c', 'o', 'm', 'm', 'e', 'n', 't', '.'],
        parser_message(crate::error::ParserError::UnexpectedToken(t)) == seq!['[', 'l', 'i', 'n', 'e', ' '] + decimal(t.line as nat) + seq![']', ' '] + seq!['U', 'n', 'e', 'x', 'p', 'e', 'c', 't', 'e', 'd', ' ', 'T', 'o', 'k', 'e', 'n', ' ', 'a', 't', ' '] + t.lexeme@ + seq!['.'],
        parser_message(crate::error::ParserError::UnterminatedGroup(t)) == seq!['[', 'l', 'i', 'n', 'e', ' '] + decimal(t.line as nat) + seq![']', ' '] + seq!['U', 'n', 't', 'e', 'r', 'm', 'i', 'n', 'a', 't', 'e', 'd', ' ', 'G', 'r', 'o', 'u', 'p', 'i', 'n', 'g', '.', ' ', ' ', 'E', 'x', 'p', 'e', 'c', 't', ' ', '\'', ')', '\'', ' ', 'a', 'f', 't', 'e', 'r', ' ', 'e', 'x', 'p', 'r', 'e', 's', 's', 'i', 'o', 'n', '.'],
        parser_message(crate::error::ParserError::UnterminatedStmt(t)) == seq!['[', 'l', 'i', 'n', 'e', ' '] + decimal(t.line as nat) + seq![']', ' '] + seq!['U', 'n', 't', 'e', 'r', 'm', 'i', 'n', 'a', 't', 'e', 'd', ' ', 'S', 't', 'a', 't', 'e', 'm', 'e', 'n', 't', '.', ' ', ' ', 'E', 'x', 'p', 'e', 'c', 't', ' ', '\'', ';', '\'', ' ', 'a', 'f', 't', 'e', 'r', ' '] + t.lexeme@ + seq!['.'],
        runtime_message(crate::error::RuntimeError::TypeError(t)) == seq!['[', 'l', 'i', 'n', 'e', ' '] + decimal(t.line as nat) + seq![']', ' '] + seq!['I', 'n', 'c', 'o', 'r', 'r', 'e', 'c', 't', ' ', 't', 'y', 'p', 'e', ' ', 'a', 't', ' '] + t.lexeme@ + seq!['.'],
        runtime_message(crate::error::RuntimeError::DivByZero(t)) == seq!['[', 'l', 'i', 'n', 'e', ' '] + decimal(t.line as nat) + seq![']', ' '] + seq!['U', 'n', 'a', 'b', 'l', 'e', ' ', 't', 'o', ' ', 'd', 'i', 'v', 'i', 'd', 'e', ' ', 'b', 'y', ' ', '0', '.'],
        runtime_message(crate::error::RuntimeError::UndefinedVariable(t)) == seq!['[', 'l', 'i', 'n', 'e', ' '] + decimal(t.line as nat) + seq![']', ' '] + seq!['U', 'n', 'd', 'e', 'f', 'i', 'n', 'e', 'd', ' ', 'v', 'a', 'r', 'i', 'a', 'b', 'l', 'e', ' '] + t.lexeme@ + seq!['.'],
        rlox_message(crate::error::RloxError::Scanner(s)) == seq!['S', 'c', 'a', 'n', 'n', 'e', 'r', ' ', 'e', 'r', 'r', 'o', 'r', ':', ' '] + scanner_message(s),
        rlox_message(crate::error::RloxError::Parser(pe)) == seq!['P', 'a', 'r', 's', 'e', 'r', ' ', 'e', 'r', 'r', 'o', 'r', ':', ' '] + parser_message(pe),
        rlox_message(crate::error::RloxError::Interpreter(re)) == seq!['I', 'n', 't', 'e', 'r', 'p', 'r', 'e', 't', 'e', 'r', ' ', 'e', 'r', 'r', 'o', 'r', ':', ' '] + runtime_message(re),
{
    reveal_strlit("[line ");
    reveal_strlit("] ");
    reveal_strlit("ParseFloatError: cannot parse float from empty string");
    reveal_strlit("ParseFloatError: invalid float literal");
    reveal_strlit("Unterminated string.");
    reveal_strlit("Unexpected character: '");
    reveal_strlit("'");
    reveal_strlit("Unterminated block comment.");
    reveal_strlit("Unexpected Token at ");
    reveal_strlit(".");
    reveal_strlit("Unterminated Grouping.  Expect ')' after expression.");
    reveal_strlit("Unterminated Statement.  Expect ';' after ");
    reveal_strlit("Incorrect type at ");
    reveal_strlit("Unable to divide by 0.");
    reveal_strlit("Undefined variable ");
    reveal_strlit("Scanner error: ");
    reveal_strlit("Parser error: ");
    reveal_strlit("Interpreter error: ");
    assert("[line "@ =~= seq!['[', 'l', 'i', 'n', 'e', ' ']);
    assert("] "@ =~= seq![']', ' ']);
    assert("ParseFloatError: cannot parse float from empty string"@ =~= seq!['P', 'a', 'r', 's', 'e', 'F', 'l', 'o', 'a', 't', 'E', 'r', 'r', 'o', 'r', ':', ' ', 'c', 'a', 'n', 'n', 'o', 't', ' ', 'p', 'a', 'r', 's', 'e', ' ', 'f', 'l', 'o', 'a', 't', ' ', 'f', 'r', 'o', 'm', ' ', 'e', 'm', 'p', 't', 'y', ' ', 's', 't', 'r', 'i', 'n', 'g']);
    assert("ParseFloatError: invalid float literal"@ =~= seq!['P', 'a', 'r', 's', 'e', 'F', 'l', 'o', 'a', 't', 'E', 'r', 'r', 'o', 'r', ':', ' ', 'i', 'n', 'v', 'a', 'l', 'i', 'd', ' ', 'f', 'l', 'o', 'a', 't', ' ', 'l', 'i', 't', 'e', 'r', 'a', 'l']);
    assert("Unterminated string."@ =~= seq!['U', 'n', 't', 'e', 'r', 'm', 'i', 'n', 'a', 't', 'e', 'd', ' ', 's', 't', 'r', 'i', 'n', 'g', '.']);
    assert("Unexpected character: '"@ =~= seq!['U', 'n', 'e', 'x', 'p', 'e', 'c', 't', 'e', 'd', ' ', 'c', 'h', 'a', 'r', 'a', 'c', 't', 'e', 'r', ':', ' ', '\'']);
    assert("'"@ =~= seq!['\'']);
    assert("Unterminated block comment."@ =~= seq!['U', 'n', 't', 'e', 'r', 'm', 'i', 'n', 'a', 't', 'e', 'd', ' ', 'b', 'l', 'o', 'c', 'k', ' ', 'c', 'o', 'm', 'm', 'e', 'n', 't', '.']);
    assert("Unexpected Token at "@ =~= seq!['U', 'n', 'e', 'x', 'p', 'e', 'c', 't', 'e', 'd', ' ', 'T', 'o', 'k', 'e', 'n', ' ', 'a', 't', ' ']);
    assert("."@ =~= seq!['.']);
    assert("Unterminated Grouping.  Expect ')' after expression."@ =~= seq!['U', 'n', 't', 'e', 'r', 'm', 'i', 'n', 'a', 't', 'e', 'd', ' ', 'G', 'r', 'o', 'u', 'p', 'i', 'n', 'g', '.', ' ', ' ', 'E', 'x', 'p', 'e', 'c', 't', ' ', '\'', ')', '\'', ' ', 'a', 'f', 't', 'e', 'r', ' ', 'e', 'x', 'p', 'r', 'e', 's', 's', 'i', 'o', 'n', '.']);
    assert("Unterminated Statement.  Expect ';' after "@ =~= seq!['U', 'n', 't', 'e', 'r', 'm', 'i', 'n', 'a', 't', 'e', 'd', ' ', 'S', 't', 'a', 't', 'e', 'm', 'e', 'n', 't', '.', ' ', ' ', 'E', 'x', 'p', 'e', 'c', 't', ' ', '\'', ';', '\'', ' ', 'a', 'f', 't', 'e', 'r', ' ']);
    assert("Incorrect type at "@ =~= seq!['I', 'n', 'c', 'o', 'r', 'r', 'e', 'c', 't', ' ', 't', 'y', 'p', 'e', ' ', 'a', 't', ' ']);
    assert("Unable to divide by 0."@ =~= seq!['U', 'n', 'a', 'b', 'l', 'e', ' ', 't', 'o', ' ', 'd', 'i', 'v', 'i', 'd', 'e', ' ', 'b', 'y', ' ', '0', '.']);
    assert("Undefined variable "@ =~= seq!['U', 'n', 'd', 'e', 'f', 'i', 'n', 'e', 'd', ' ', 'v', 'a', 'r', 'i', 'a', 'b', 'l', 'e', ' ']);
    assert("Scanner error: "@ =~= seq!['S', 'c', 'a', 'n', 'n', 'e', 'r', ' ', 'e', 'r', 'r', 'o', 'r', ':', ' ']);
    assert("Parser error: "@ =~= seq!['P', 'a', 'r', 's', 'e', 'r', ' ', 'e', 'r', 'r', 'o', 'r', ':', ' ']);
    assert("Interpreter error: "@ =~= seq!['I', 'n', 't', 'e', 'r', 'p', 'r', 'e', 't', 'e', 'r', ' ', 'e', 'r', 'r', 'o', 'r', ':', ' ']);
}

/// A token's one-line text: `line:` and its line in decimal, `, ttype` and
/// its kind's name, `, lexeme:` and its lexeme, `, literal:` and its
/// literal's text.
pub proof fn law_token_line<L: Fn(&Literal) -> String>(show_literal: L, t: Token)
    ensures
        token_line(show_literal, t) == seq!['l', 'i', 'n', 'e', ':'] + decimal(t.line as nat) + seq![',', ' ', 't', 't', 'y', 'p', 'e'] + kind_name(t.ttype)
            + seq![',', ' ', 'l', 'e', 'x', 'e', 'm', 'e', ':'] + t.lexeme@ + seq![',', ' ', 'l', 'i', 't', 'e', 'r', 'a', 'l', ':'] + text_of(show_literal, t.literal),
{
    reveal_strlit("line:");
    reveal_strlit(", ttype");
    reveal_strlit(", lexeme:");
    reveal_strlit(", literal:");
    assert("line:"@ =~= seq!['l', 'i', 'n', 'e', ':']);
    assert(", ttype"@ =~= seq![',', ' ', 't', 't', 'y', 'p', 'e']);
    assert(", lexeme:"@ =~= seq![',', ' ', 'l', 'e', 'x', 'e', 'm', 'e', ':']);
    assert(", literal:"@ =~= seq![',', ' ', 'l', 'i', 't', 'e', 'r', 'a', 'l', ':']);
}

/// The expression statement `<number>;` from `p`, ending at the end token.
proof fn lemma_number_statement_at(toks: Seq<Rc<Token>>, p: int)
    requires
        0 < p,
        toks.len() == p + 3,
        toks[p].ttype == TokenType::Number && toks[p].literal is Number,
        toks[p + 1].ttype == TokenType::Semicolon,
        toks[p + 2].ttype == TokenType::EOF,
    ensures
        p_program(toks, p) == seq![Stmt::Expression(Box::new(Expr::Literal(toks[p].literal)))],
        p_program_errors(toks, p) == Seq::<crate::error::ParserError>::empty(),
{
    let l = literal_expr(toks[p]);
    assert(p_primary(toks, p) == parsed_at(l, p + 1));
    assert(p_unary(toks, p) == parsed_at(l, p + 1));
    lemma_expression_of_unary(toks, p, l, p + 1);
    let stmt = Stmt::Expression(Box::new(l));
    assert(p_consume(toks, p + 1, TokenType::Semicolon) == Ok::<(Rc<Token>, int), (crate::error::ParserError, int)>((toks[p + 1], p + 2)));
    assert(p_statement(toks, p) == Ok::<(Stmt, int), (crate::error::ParserError, int)>((stmt, p + 2)));
    assert(p_declaration_outcome(toks, p) == Ok::<(Stmt, int), (crate::error::ParserError, int)>((stmt, p + 2)));
    assert(p_declaration(toks, p) == (Some(stmt), p + 2));
    assert(p_declaration_error(toks, p) == None::<crate::error::ParserError>);
    assert(p_program(toks, p + 2) == Seq::<Stmt>::empty());
    assert(p_program_errors(toks, p + 2) == Seq::<crate::error::ParserError>::empty());
    assert(p_program(toks, p) =~= seq![stmt]);
    assert(p_program_errors(toks, p) =~= Seq::<crate::error::ParserError>::empty());
}

/// After a declaration fails, parsing skips to just after the next `;`:
/// `print ) 1 ; 2;` is the one statement `2;` and one error at the `)`, and
/// `print ; 2;` the one statement `2;` and one error at the first `;`.
pub proof fn law_recovery_skips_to_semicolon(toks: Seq<Rc<Token>>)
    requires
        toks[0].ttype == TokenType::Print,
    ensures
        toks.len() == 7 && toks[1].ttype == TokenType::RightParen && toks[2].ttype == TokenType::Number
            && toks[3].ttype == TokenType::Semicolon && toks[4].ttype == TokenType::Number && toks[4].literal is Number
            && toks[5].ttype == TokenType::Semicolon && toks[6].ttype == TokenType::EOF ==> p_program(toks, 0) == seq![
            Stmt::Expression(Box::new(Expr::Literal(toks[4].literal))),
        ] && p_program_errors(toks, 0) == seq![crate::error::ParserError::UnexpectedToken(toks[1])],
        toks.len() == 5 && toks[1].ttype == TokenType::Semicolon && toks[2].ttype == TokenType::Number
            && toks[2].literal is Number && toks[3].ttype == TokenType::Semicolon && toks[4].ttype == TokenType::EOF
            ==> p_program(toks, 0) == seq![Stmt::Expression(Box::new(Expr::Literal(toks[2].literal)))]
            && p_program_errors(toks, 0) == seq![crate::error::ParserError::UnexpectedToken(toks[1])],
{
    let err = crate::error::ParserError::UnexpectedToken(toks[1]);
    let failed = Err::<(Expr, int), (crate::error::ParserError, int)>((err, 1));
    if toks.len() == 7 && toks[1].ttype == TokenType::RightParen && toks[2].ttype == TokenType::Number
        && toks[3].ttype == TokenType::Semicolon && toks[4].ttype == TokenType::Number && literal_of(toks[4]) is Number
        && toks[5].ttype == TokenType::Semicolon && toks[6].ttype == TokenType::EOF {
        assert(p_primary(toks, 1) == failed);
        assert(p_unary(toks, 1) == failed);
        assert(p_factor(toks, 1) == failed);
        assert(p_term(toks, 1) == failed);
        assert(p_comparison(toks, 1) == failed);
        assert(p_equality(toks, 1) == failed);
        assert(p_expression(toks, 1) == failed);
        assert(p_declaration_outcome(toks, 0) == Err::<(Stmt, int), (crate::error::ParserError, int)>((err, 1)));
        assert(sync_from(toks, 4) == 4);
        assert(sync_from(toks, 3) == 4);
        assert(sync_from(toks, 2) == 4);
        assert(p_declaration(toks, 0) == (None::<Stmt>, 4int));
        lemma_number_statement_at(toks, 4);
        assert(p_program(toks, 0) =~= p_program(toks, 4));
        assert(p_program_errors(toks, 0) =~= seq![err]);
    }
    if toks.len() == 5 && toks[1].ttype == TokenType::Semicolon && toks[2].ttype == TokenType::Number
        && literal_of(toks[2]) is Number && toks[3].ttype == TokenType::Semicolon && toks[4].ttype == TokenType::EOF {
        assert(p_primary(toks, 1) == failed);
        assert(p_unary(toks, 1) == failed);
        assert(p_factor(toks, 1) == failed);
        assert(p_term(toks, 1) == failed);
        assert(p_comparison(toks, 1) == failed);
        assert(p_equality(toks, 1) == failed);
        assert(p_expression(toks, 1) == failed);
        assert(p_declaration_outcome(toks, 0) == Err::<(Stmt, int), (crate::error::ParserError, int)>((err, 1)));
        assert(sync_from(toks, 2) == 2);
        assert(p_declaration(toks, 0) == (None::<Stmt>, 2int));
        lemma_number_statement_at(toks, 2);
        assert(p_program(toks, 0) =~= p_program(toks, 2));
        assert(p_program_errors(toks, 0) =~= seq![err]);
    }
}

/// Where parsing resumes after an error at `p` (not the end): just after
/// `p` if the token there is `;`, or if the next token starts a statement
/// (`class`, `for`, `fun`, `if`, `print`, `return`, `while`, `var`);
/// otherwise where it would resume after an error one token further on; and
/// never past the end.
pub proof fn law_synchronize(toks: Seq<Rc<Token>>, p: int)
    requires
        0 <= p,
        p + 1 < toks.len(),
        toks[p].ttype != TokenType::EOF,
    ensures
        toks[p].ttype == TokenType::Semicolon ==> synchronize(toks, p) == p + 1,
        ({
            let k = toks[p + 1].ttype;
            k == TokenType::Class || k == TokenType::For || k == TokenType::Fun || k == TokenType::If || k
                == TokenType::Print || k == TokenType::Return || k == TokenType::While || k == TokenType::Var
        }) ==> synchronize(toks, p) == p + 1,
        toks[p + 1].ttype == TokenType::EOF ==> synchronize(toks, p) == p + 1,
        ({
            let k = toks[p + 1].ttype;
            &&& toks[p].ttype != TokenType::Semicolon
            &&& k != TokenType::EOF
            &&& !(k == TokenType::Class || k == TokenType::For || k == TokenType::Fun || k == TokenType::If || k
                == TokenType::Print || k == TokenType::Return || k == TokenType::While || k == TokenType::Var)
        }) ==> synchronize(toks, p) == synchronize(toks, p + 1),
{
}

/// Comparisons bind more tightly than `==` and `!=`, and `+` and `-` more
/// tightly than comparisons: `1 == 2 < 3` is `1 == (2 < 3)` and `1 < 2 + 3`
/// is `1 < (2 + 3)`; comparisons, and equalities, group to the left.
pub proof fn law_comparison_and_equality_precedence(toks: Seq<Rc<Token>>)
    requires
        toks.len() == 8,
        toks[0].ttype == TokenType::Print,
        toks[1].ttype == TokenType::Number && toks[1].literal is Number,
        toks[3].ttype == TokenType::Number && toks[3].literal is Number,
        toks[5].ttype == TokenType::Number && toks[5].literal is Number,
        toks[6].ttype == TokenType::Semicolon,
        toks[7].ttype == TokenType::EOF,
    ensures
        ({
            let n1 = Expr::Literal(toks[1].literal);
            let n3 = Expr::Literal(toks[3].literal);
            let n5 = Expr::Literal(toks[5].literal);
            let eq1 = toks[2].ttype == TokenType::EqualEqual || toks[2].ttype == TokenType::BangEqual;
            let eq2 = toks[4].ttype == TokenType::EqualEqual || toks[4].ttype == TokenType::BangEqual;
            let cmp1 = toks[2].ttype == TokenType::Greater || toks[2].ttype == TokenType::GreaterEqual || toks[2].ttype
                == TokenType::Less || toks[2].ttype == TokenType::LessEqual;
            let cmp2 = toks[4].ttype == TokenType::Greater || toks[4].ttype == TokenType::GreaterEqual || toks[4].ttype
                == TokenType::Less || toks[4].ttype == TokenType::LessEqual;
            let term2 = toks[4].ttype == TokenType::Plus || toks[4].ttype == TokenType::Minus;
            &&& eq1 && cmp2 ==> p_program(toks, 0) == seq![
                Stmt::Print(Box::new(binary_of(n1, toks[2], binary_of(n3, toks[4], n5)))),
            ]
            &&& cmp1 && term2 ==> p_program(toks, 0) == seq![
                Stmt::Print(Box::new(binary_of(n1, toks[2], binary_of(n3, toks[4], n5)))),
            ]
            &&& cmp1 && cmp2 ==> p_program(toks, 0) == seq![
                Stmt::Print(Box::new(binary_of(binary_of(n1, toks[2], n3), toks[4], n5))),
            ]
            &&& eq1 && eq2 ==> p_program(toks, 0) == seq![
                Stmt::Print(Box::new(binary_of(binary_of(n1, toks[2], n3), toks[4], n5))),
            ]
        }),
{
    let n1 = literal_expr(toks[1]);
    let n3 = literal_expr(toks[3]);
    let n5 = literal_expr(toks[5]);
    let t2 = toks[2].ttype;
    let t4 = toks[4].ttype;
    let eq1 = t2 == TokenType::EqualEqual || t2 == TokenType::BangEqual;
    let eq2 = t4 == TokenType::EqualEqual || t4 == TokenType::BangEqual;
    let cmp1 = t2 == TokenType::Greater || t2 == TokenType::GreaterEqual || t2 == TokenType::Less || t2
        == TokenType::LessEqual;
    let cmp2 = t4 == TokenType::Greater || t4 == TokenType::GreaterEqual || t4 == TokenType::Less || t4
        == TokenType::LessEqual;
    let term2 = t4 == TokenType::Plus || t4 == TokenType::Minus;
    assert(p_primary(toks, 1) == parsed_at(n1, 2));
    assert(p_unary(toks, 1) == parsed_at(n1, 2));
    assert(p_primary(toks, 3) == parsed_at(n3, 4));
    assert(p_unary(toks, 3) == parsed_at(n3, 4));
    assert(p_primary(toks, 5) == parsed_at(n5, 6));
    assert(p_unary(toks, 5) == parsed_at(n5, 6));
    lemma_levels_stop_at_semicolon(toks, n5, 6);
    assert(p_factor(toks, 5) == parsed_at(n5, 6));
    if eq1 || cmp1 {
        assert(p_factor_rest(toks, n1, 2) == parsed_at(n1, 2));
        assert(p_factor(toks, 1) == parsed_at(n1, 2));
        assert(p_term_rest(toks, n1, 2) == parsed_at(n1, 2));
        assert(p_term(toks, 1) == parsed_at(n1, 2));
    }
    if eq1 && cmp2 {
        let e35 = binary_of(n3, toks[4], n5);
        let e = binary_of(n1, toks[2], e35);
        lemma_levels_stop_at_semicolon(toks, e35, 6);
        lemma_levels_stop_at_semicolon(toks, e, 6);
        assert(p_comparison_rest(toks, n1, 2) == parsed_at(n1, 2));
        assert(p_comparison(toks, 1) == parsed_at(n1, 2));
        assert(p_factor_rest(toks, n3, 4) == parsed_at(n3, 4));
        assert(p_factor(toks, 3) == parsed_at(n3, 4));
        assert(p_term_rest(toks, n3, 4) == parsed_at(n3, 4));
        assert(p_term(toks, 3) == parsed_at(n3, 4));
        assert(p_term(toks, 5) == parsed_at(n5, 6));
        assert(p_comparison_rest(toks, n3, 4) == parsed_at(e35, 6));
        assert(p_comparison(toks, 3) == parsed_at(e35, 6));
        assert(p_equality_rest(toks, n1, 2) == parsed_at(e, 6));
        assert(p_equality(toks, 1) == parsed_at(e, 6));
        assert(p_expression(toks, 1) == parsed_at(e, 6));
        lemma_print_program(toks, e, 6);
    }
    if cmp1 && term2 {
        let e35 = binary_of(n3, toks[4], n5);
        let e = binary_of(n1, toks[2], e35);
        lemma_levels_stop_at_semicolon(toks, e35, 6);
        lemma_levels_stop_at_semicolon(toks, e, 6);
        assert(p_factor_rest(toks, n3, 4) == parsed_at(n3, 4));
        assert(p_factor(toks, 3) == parsed_at(n3, 4));
        assert(p_term_rest(toks, n3, 4) == parsed_at(e35, 6));
        assert(p_term(toks, 3) == parsed_at(e35, 6));
        assert(p_comparison_rest(toks, n1, 2) == parsed_at(e, 6));
        assert(p_comparison(toks, 1) == parsed_at(e, 6));
        assert(p_equality(toks, 1) == parsed_at(e, 6));
        assert(p_expression(toks, 1) == parsed_at(e, 6));
        lemma_print_program(toks, e, 6);
    }
    if cmp1 && cmp2 {
        let e13 = binary_of(n1, toks[2], n3);
        let e = binary_of(e13, toks[4], n5);
        lemma_levels_stop_at_semicolon(toks, e, 6);
        assert(p_factor_rest(toks, n3, 4) == parsed_at(n3, 4));
        assert(p_factor(toks, 3) == parsed_at(n3, 4));
        assert(p_term_rest(toks, n3, 4) == parsed_at(n3, 4));
        assert(p_term(toks, 3) == parsed_at(n3, 4));
        assert(p_term(toks, 5) == parsed_at(n5, 6));
        assert(p_comparison_rest(toks, e13, 4) == parsed_at(e, 6));
        assert(p_comparison_rest(toks, n1, 2) == parsed_at(e, 6));
        assert(p_comparison(toks, 1) == parsed_at(e, 6));
        assert(p_equality(toks, 1) == parsed_at(e, 6));
        assert(p_expression(toks, 1) == parsed_at(e, 6));
        lemma_print_program(toks, e, 6);
    }
    if eq1 && eq2 {
        let e13 = binary_of(n1, toks[2], n3);
        let e = binary_of(e13, toks[4], n5);
        lemma_levels_stop_at_semicolon(toks, e, 6);
        assert(p_comparison_rest(toks, n1, 2) == parsed_at(n1, 2));
        assert(p_comparison(toks, 1) == parsed_at(n1, 2));
        assert(p_factor_rest(toks, n3, 4) == parsed_at(n3, 4));
        assert(p_factor(toks, 3) == parsed_at(n3, 4));
        assert(p_term_rest(toks, n3, 4) == parsed_at(n3, 4));
        assert(p_term(toks, 3) == parsed_at(n3, 4));
        assert(p_comparison_rest(toks, n3, 4) == parsed_at(n3, 4));
        assert(p_comparison(toks, 3) == parsed_at(n3, 4));
        assert(p_term(toks, 5) == parsed_at(n5, 6));
        assert(p_comparison(toks, 5) == parsed_at(n5, 6));
        assert(p_equality_rest(toks, e13, 4) == parsed_at(e, 6));
        assert(p_equality_rest(toks, n1, 2) == parsed_at(e, 6));
        assert(p_equality(toks, 1) == parsed_at(e, 6));
        assert(p_expression(toks, 1) == parsed_at(e, 6));
        lemma_print_program(toks, e, 6);
    }
}

/// A unary operator binds more tightly than `*` and `/`: `-1 * 2` is
/// `(-1) * 2`.
pub proof fn law_unary_binds_tightest(toks: Seq<Rc<Token>>)
    requires
        toks.len() == 7,
        toks[0].ttype == TokenType::Print,
        toks[1].ttype == TokenType::Minus || toks[1].ttype == TokenType::Bang,
        toks[2].ttype == TokenType::Number && toks[2].literal is Number,
        toks[3].ttype == TokenType::Star || toks[3].ttype == TokenType::Slash,
        toks[4].ttype == TokenType::Number && toks[4].literal is Number,
        toks[5].ttype == TokenType::Semicolon,
        toks[6].ttype == TokenType::EOF,
    ensures
        p_program(toks, 0) == seq![
            Stmt::Print(
                Box::new(
                    binary_of(
                        Expr::Unary { operator: toks[1], right: Box::new(Expr::Literal(toks[2].literal)) },
                        toks[3],
                        Expr::Literal(toks[4].literal),
                    ),
                ),
            ),
        ],
{
    let n2 = literal_expr(toks[2]);
    let n4 = literal_expr(toks[4]);
    let u = Expr::Unary { operator: toks[1], right: Box::new(n2) };
    let e = binary_of(u, toks[3], n4);
    assert(p_primary(toks, 2) == parsed_at(n2, 3));
    assert(p_unary(toks, 2) == parsed_at(n2, 3));
    assert(p_unary(toks, 1) == parsed_at(u, 3));
    assert(p_primary(toks, 4) == parsed_at(n4, 5));
    assert(p_unary(toks, 4) == parsed_at(n4, 5));
    lemma_levels_stop_at_semicolon(toks, e, 5);
    assert(p_factor_rest(toks, u, 3) == parsed_at(e, 5));
    assert(p_factor(toks, 1) == parsed_at(e, 5));
    assert(p_term(toks, 1) == parsed_at(e, 5));
    assert(p_comparison(toks, 1) == parsed_at(e, 5));
    assert(p_equality(toks, 1) == parsed_at(e, 5));
    assert(p_expression(toks, 1) == parsed_at(e, 5));
    lemma_print_program(toks, e, 5);
}

} // verus!
