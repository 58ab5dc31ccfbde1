use vstd::prelude::*;
use vstd::utf8::*;
use vstd::string::*;

use crate::error::ScannerError;
use crate::text::{lemma_ascii_is_boundary, lemma_boundary_after_ascii, substring};
use crate::token::{Literal, SpecLiteral, SpecToken, Token, TokenType, tokens_view, utf8_of};

verus! {

broadcast use encode_utf8_valid_utf8;

// Bytes of the lexical grammar.
pub const BANG: u8 = 33;
pub const COMMA: u8 = 44;
pub const CR: u8 = 13;
pub const DIGIT_0: u8 = 48;
pub const DIGIT_9: u8 = 57;
pub const DOT: u8 = 46;
pub const EQUAL: u8 = 61;
pub const GREATER: u8 = 62;
pub const LEFT_BRACE: u8 = 123;
pub const LEFT_PAREN: u8 = 40;
pub const LESS: u8 = 60;
pub const LOWER_A: u8 = 97;
pub const LOWER_Z: u8 = 122;
pub const MINUS: u8 = 45;
pub const NEWLINE: u8 = 10;
pub const PLUS: u8 = 43;
pub const QUOTE: u8 = 34;
pub const RIGHT_BRACE: u8 = 125;
pub const RIGHT_PAREN: u8 = 41;
pub const SEMICOLON: u8 = 59;
pub const SLASH: u8 = 47;
pub const SPACE: u8 = 32;
pub const STAR: u8 = 42;
pub const TAB: u8 = 9;
pub const UNDERSCORE: u8 = 95;
pub const UPPER_A: u8 = 65;
pub const UPPER_Z: u8 = 90;

// ---------------------------------------------------------------------------
// The lexical grammar, stated over the UTF-8 bytes of the source.
// ---------------------------------------------------------------------------

pub open spec fn is_digit_byte(c: u8) -> bool {
    DIGIT_0 <= c <= DIGIT_9
}

pub open spec fn is_alpha_byte(c: u8) -> bool {
    (LOWER_A <= c <= LOWER_Z) || (UPPER_A <= c <= UPPER_Z) || c == UNDERSCORE
}

pub open spec fn is_alnum_byte(c: u8) -> bool {
    is_alpha_byte(c) || is_digit_byte(c)
}

/// The keyword spelled by `text`, if any.
pub open spec fn keyword_of(text: Seq<u8>) -> Option<TokenType> {
    if text == seq![97u8, 110u8, 100u8] {  // "and"
        Some(TokenType::And)
    } else if text == seq![99u8, 108u8, 97u8, 115u8, 115u8] {  // "class"
        Some(TokenType::Class)
    } else if text == seq![101u8, 108u8, 115u8, 101u8] {  // "else"
        Some(TokenType::Else)
    } else if text == seq![102u8, 97u8, 108u8, 115u8, 101u8] {  // "false"
        Some(TokenType::False)
    } else if text == seq![102u8, 111u8, 114u8] {  // "for"
        Some(TokenType::For)
    } else if text == seq![102u8, 117u8, 110u8] {  // "fun"
        Some(TokenType::Fun)
    } else if text == seq![105u8, 102u8] {  // "if"
        Some(TokenType::If)
    } else if text == seq![110u8, 105u8, 108u8] {  // "nil"
        Some(TokenType::Nil)
    } else if text == seq![111u8, 114u8] {  // "or"
        Some(TokenType::Or)
    } else if text == seq![112u8, 114u8, 105u8, 110u8, 116u8] {  // "print"
        Some(TokenType::Print)
    } else if text == seq![114u8, 101u8, 116u8, 117u8, 114u8, 110u8] {  // "return"
        Some(TokenType::Return)
    } else if text == seq![115u8, 117u8, 112u8, 101u8, 114u8] {  // "super"
        Some(TokenType::Super)
    } else if text == seq![116u8, 104u8, 105u8, 115u8] {  // "this"
        Some(TokenType::This)
    } else if text == seq![116u8, 114u8, 117u8, 101u8] {  // "true"
        Some(TokenType::True)
    } else if text == seq![118u8, 97u8, 114u8] {  // "var"
        Some(TokenType::Var)
    } else if text == seq![119u8, 104u8, 105u8, 108u8, 101u8] {  // "while"
        Some(TokenType::While)
    } else {
        None
    }
}

/// The first index at or after `i` that does not hold a digit.
pub open spec fn digits_end(src: Seq<u8>, i: int) -> int
    decreases src.len() - i,
{
    if 0 <= i < src.len() && is_digit_byte(src[i]) {
        digits_end(src, i + 1)
    } else {
        i
    }
}

/// The first index at or after `i` that does not hold a letter, digit or `_`.
pub open spec fn word_end(src: Seq<u8>, i: int) -> int
    decreases src.len() - i,
{
    if 0 <= i < src.len() && is_alnum_byte(src[i]) {
        word_end(src, i + 1)
    } else {
        i
    }
}

/// The first index at or after `i` that holds a newline, or the end.
pub open spec fn line_end(src: Seq<u8>, i: int) -> int
    decreases src.len() - i,
{
    if 0 <= i < src.len() && src[i] != NEWLINE {
        line_end(src, i + 1)
    } else {
        i
    }
}

/// The end of the numeral that starts with the digit at `start`: digits,
/// then a dot and digits if a digit follows the dot.
pub open spec fn number_end(src: Seq<u8>, start: int) -> int {
    let p = digits_end(src, start + 1);
    if p + 1 < src.len() && src[p] == DOT && is_digit_byte(src[p + 1]) {
        digits_end(src, p + 1)
    } else {
        p
    }
}

/// From `i`, the index of the next `"` (or the end) and the line reached
/// there, counting the newlines passed.
pub open spec fn string_end(src: Seq<u8>, i: int, line: nat) -> (int, nat)
    decreases src.len() - i,
{
    if 0 <= i < src.len() && src[i] != QUOTE {
        string_end(src, i + 1, if src[i] == NEWLINE { line + 1 } else { line })
    } else {
        (i, line)
    }
}

/// Inside a block comment at nesting `depth`, from `i`: the index after the
/// comment closes and the line reached there, or the line reached at the end
/// of the source if it never closes.
pub open spec fn block_comment_end(src: Seq<u8>, i: int, depth: nat, line: nat) -> Result<
    (int, nat),
    nat,
>
    decreases src.len() - i,
{
    if depth == 0 {
        Ok((i, line))
    } else if !(0 <= i < src.len()) {
        Err(line)
    } else if src[i] == SLASH && i + 1 < src.len() && src[i + 1] == STAR {
        block_comment_end(src, i + 2, depth + 1, line)
    } else if src[i] == STAR && i + 1 < src.len() && src[i + 1] == SLASH {
        block_comment_end(src, i + 2, (depth - 1) as nat, line)
    } else if src[i] == NEWLINE {
        block_comment_end(src, i + 1, depth, line + 1)
    } else {
        block_comment_end(src, i + 1, depth, line)
    }
}

/// What the scanner does with the text that starts at one position.
pub enum Step {
    /// A token of the given kind and literal covers the text up to `end`.
    Emit { end: int, line: nat, ttype: TokenType, literal: SpecLiteral },
    /// Whitespace or a comment covers the text up to `end`.
    Skip { end: int, line: nat },
    /// Scanning stops with `error`, having read up to `end`.
    Fail { end: int, line: nat, error: ScannerError },
}

/// A one- or two-byte operator: `two` if the next byte is `=`, else `one`.
pub open spec fn operator_step(src: Seq<u8>, start: int, line: nat, one: TokenType, two: TokenType) -> Step {
    if start + 1 < src.len() && src[start + 1] == EQUAL {
        Step::Emit { end: start + 2, line, ttype: two, literal: SpecLiteral::Nil }
    } else {
        Step::Emit { end: start + 1, line, ttype: one, literal: SpecLiteral::Nil }
    }
}

pub open spec fn single(start: int, line: nat, t: TokenType) -> Step {
    Step::Emit { end: start + 1, line, ttype: t, literal: SpecLiteral::Nil }
}

/// The scanner's step at `start` (which must be inside the source), on `line`.
///
/// Numbers and strings carry their literal; every other token, identifiers
/// included, carries `Nil`.
pub open spec fn scan_step(src: Seq<u8>, start: int, line: nat) -> Step {
    let c = src[start];
    let n = start + 1;
    if c == LEFT_PAREN {
        single(start, line, TokenType::LeftParen)
    } else if c == RIGHT_PAREN {
        single(start, line, TokenType::RightParen)
    } else if c == LEFT_BRACE {
        single(start, line, TokenType::LeftBrace)
    } else if c == RIGHT_BRACE {
        single(start, line, TokenType::RightBrace)
    } else if c == COMMA {
        single(start, line, TokenType::Comma)
    } else if c == DOT {
        single(start, line, TokenType::Dot)
    } else if c == MINUS {
        single(start, line, TokenType::Minus)
    } else if c == PLUS {
        single(start, line, TokenType::Plus)
    } else if c == SEMICOLON {
        single(start, line, TokenType::Semicolon)
    } else if c == STAR {
        single(start, line, TokenType::Star)
    } else if c == BANG {
        operator_step(src, start, line, TokenType::Bang, TokenType::BangEqual)
    } else if c == EQUAL {
        operator_step(src, start, line, TokenType::Equal, TokenType::EqualEqual)
    } else if c == LESS {
        operator_step(src, start, line, TokenType::Less, TokenType::LessEqual)
    } else if c == GREATER {
        operator_step(src, start, line, TokenType::Greater, TokenType::GreaterEqual)
    } else if c == SLASH {
        if n < src.len() && src[n] == SLASH {
            Step::Skip { end: line_end(src, n + 1), line }
        } else if n < src.len() && src[n] == STAR {
            match block_comment_end(src, n + 1, 1, line) {
                Ok((end, l)) => Step::Skip { end, line: l },
                Err(l) => Step::Fail {
                    end: src.len() as int,
                    line: l,
                    error: ScannerError::UnterminatedBlockComment { line: l as usize },
                },
            }
        } else {
            single(start, line, TokenType::Slash)
        }
    } else if c == SPACE || c == CR || c == TAB {
        Step::Skip { end: n, line }
    } else if c == NEWLINE {
        Step::Skip { end: n, line: line + 1 }
    } else if c == QUOTE {
        let (q, l) = string_end(src, n, line);
        if q < src.len() {
            Step::Emit {
                end: q + 1,
                line: l,
                ttype: TokenType::String,
                literal: SpecLiteral::Str(src.subrange(n, q)),
            }
        } else {
            Step::Fail {
                end: q,
                line: l,
                error: ScannerError::UnterminatedString { line: l as usize },
            }
        }
    } else if is_digit_byte(c) {
        let e = number_end(src, start);
        Step::Emit {
            end: e,
            line,
            ttype: TokenType::Number,
            literal: SpecLiteral::Number(src.subrange(start, e)),
        }
    } else if is_alpha_byte(c) {
        let e = word_end(src, n);
        match keyword_of(src.subrange(start, e)) {
            Some(k) => Step::Emit { end: e, line, ttype: k, literal: SpecLiteral::Nil },
            // Like the other words, an identifier carries no literal value.
            None => Step::Emit { end: e, line, ttype: TokenType::Identifier, literal: SpecLiteral::Nil },
        }
    } else {
        Step::Fail {
            end: n,
            line,
            error: ScannerError::UnexpectedCharacter { line: line as usize, character: c as char },
        }
    }
}

pub open spec fn step_end(s: Step) -> int {
    match s {
        Step::Emit { end, .. } => end,
        Step::Skip { end, .. } => end,
        Step::Fail { end, .. } => end,
    }
}

pub proof fn lemma_digits_end(src: Seq<u8>, i: int)
    requires
        0 <= i <= src.len(),
    ensures
        i <= digits_end(src, i) <= src.len(),
        forall|k: int| i <= k < digits_end(src, i) ==> is_digit_byte(#[trigger] src[k]),
        digits_end(src, i) < src.len() ==> !is_digit_byte(src[digits_end(src, i)]),
    decreases src.len() - i,
{
    if i < src.len() && is_digit_byte(src[i]) {
        lemma_digits_end(src, i + 1);
    }
}

pub proof fn lemma_word_end(src: Seq<u8>, i: int)
    requires
        0 <= i <= src.len(),
    ensures
        i <= word_end(src, i) <= src.len(),
        forall|k: int| i <= k < word_end(src, i) ==> is_alnum_byte(#[trigger] src[k]),
        word_end(src, i) < src.len() ==> !is_alnum_byte(src[word_end(src, i)]),
    decreases src.len() - i,
{
    if i < src.len() && is_alnum_byte(src[i]) {
        lemma_word_end(src, i + 1);
    }
}

pub proof fn lemma_line_end(src: Seq<u8>, i: int)
    requires
        0 <= i <= src.len(),
    ensures
        i <= line_end(src, i) <= src.len(),
    decreases src.len() - i,
{
    if i < src.len() && src[i] != NEWLINE {
        lemma_line_end(src, i + 1);
    }
}

pub proof fn lemma_string_end(src: Seq<u8>, i: int, line: nat)
    requires
        0 <= i <= src.len(),
    ensures
        i <= string_end(src, i, line).0 <= src.len(),
        line <= string_end(src, i, line).1 <= line + (string_end(src, i, line).0 - i),
        string_end(src, i, line).0 < src.len() ==> src[string_end(src, i, line).0] == QUOTE,
    decreases src.len() - i,
{
    if i < src.len() && src[i] != QUOTE {
        lemma_string_end(src, i + 1, if src[i] == NEWLINE { line + 1 } else { line });
    }
}

pub proof fn lemma_block_comment_end(src: Seq<u8>, i: int, depth: nat, line: nat)
    requires
        0 <= i <= src.len(),
    ensures
        match block_comment_end(src, i, depth, line) {
            Ok((e, l)) => i <= e <= src.len() && line <= l <= line + (e - i),
            Err(l) => line <= l <= line + (src.len() - i),
        },
    decreases src.len() - i,
{
    if depth == 0 {
    } else if !(0 <= i < src.len()) {
    } else if src[i] == SLASH && i + 1 < src.len() && src[i + 1] == STAR {
        lemma_block_comment_end(src, i + 2, depth + 1, line);
    } else if src[i] == STAR && i + 1 < src.len() && src[i + 1] == SLASH {
        lemma_block_comment_end(src, i + 2, (depth - 1) as nat, line);
    } else if src[i] == NEWLINE {
        lemma_block_comment_end(src, i + 1, depth, line + 1);
    } else {
        lemma_block_comment_end(src, i + 1, depth, line);
    }
}

/// Every step reads at least one byte and stays inside the source; the line
/// grows by at most the number of bytes read.
pub proof fn lemma_step_advances(src: Seq<u8>, start: int, line: nat)
    requires
        0 <= start < src.len(),
    ensures
        start < step_end(scan_step(src, start, line)) <= src.len(),
        match scan_step(src, start, line) {
            Step::Emit { end, line: l, .. } => line <= l <= line + (end - start),
            Step::Skip { end, line: l } => line <= l <= line + (end - start),
            Step::Fail { end, line: l, .. } => line <= l <= line + (end - start),
        },
{
    let n = start + 1;
    lemma_digits_end(src, n);
    lemma_word_end(src, n);
    if n < src.len() {
        lemma_line_end(src, n + 1);
        lemma_block_comment_end(src, n + 1, 1, line);
    }
    lemma_string_end(src, n, line);
    let p = digits_end(src, n);
    if p + 1 < src.len() {
        lemma_digits_end(src, p + 1);
    }
}

} // verus!

verus! {

/// Where a run of the scanner from `current` (on `line`, with the last token
/// started at `start`) ends: the tokens it adds, the scanner's position and
/// line when it stops, and the error that stopped it, if any.
pub struct ScanRun {
    pub tokens: Seq<SpecToken>,
    pub start: int,
    pub current: int,
    pub line: nat,
    pub error: Option<ScannerError>,
}

pub open spec fn scan_run(src: Seq<u8>, start: int, current: int, line: nat) -> ScanRun
    decreases src.len() - current,
{
    if !(0 <= current < src.len()) {
        ScanRun { tokens: seq![], start, current, line, error: None }
    } else {
        proof {
            lemma_step_advances(src, current, line);
        }
        match scan_step(src, current, line) {
            Step::Fail { end, line: l, error } => ScanRun {
                tokens: seq![],
                start: current,
                current: end,
                line: l,
                error: Some(error),
            },
            Step::Skip { end, line: l } => scan_run(src, current, end, l),
            Step::Emit { end, line: l, ttype, literal } => {
                let rest = scan_run(src, current, end, l);
                let tok = SpecToken { ttype, lexeme: src.subrange(current, end), literal, line: l };
                ScanRun { tokens: seq![tok] + rest.tokens, ..rest }
            },
        }
    }
}

/// A token model carries the literal of its kind.
pub open spec fn spec_literal_agrees(t: SpecToken) -> bool {
    &&& t.ttype == TokenType::Number ==> t.literal is Number
    &&& t.ttype == TokenType::String ==> t.literal is Str
    &&& t.ttype == TokenType::Identifier ==> t.literal is Nil
}

proof fn lemma_keyword_kind(text: Seq<u8>)
    ensures
        keyword_of(text) matches Some(k) ==> k != TokenType::EOF && k != TokenType::Number
            && k != TokenType::String && k != TokenType::Identifier,
{
}

/// The tokens a run finds are never `EOF` and carry the literals of their
/// kinds.
pub proof fn lemma_scan_run_tokens(src: Seq<u8>, start: int, current: int, line: nat)
    ensures
        scan_run(src, start, current, line).error matches Some(e) ==> !(e is ParseFloat),
        forall|i: int|
            0 <= i < scan_run(src, start, current, line).tokens.len() ==> {
                let t = #[trigger] scan_run(src, start, current, line).tokens[i];
                &&& t.ttype != TokenType::EOF
                &&& spec_literal_agrees(t)
            },
    decreases src.len() - current,
{
    if 0 <= current < src.len() {
        lemma_step_advances(src, current, line);
        let n = current + 1;
        let e = word_end(src, n);
        lemma_keyword_kind(src.subrange(current, e));
        match scan_step(src, current, line) {
            Step::Fail { .. } => {},
            Step::Skip { end, line: l } => {
                lemma_scan_run_tokens(src, current, end, l);
            },
            Step::Emit { end, line: l, .. } => {
                lemma_scan_run_tokens(src, current, end, l);
                let rest = scan_run(src, current, end, l);
                let all = scan_run(src, start, current, line).tokens;
                assert forall|i: int| 0 < i < all.len() implies all[i] == rest.tokens[i - 1] by {}
            },
        }
    }
}

/// The token that closes every token list.
pub open spec fn eof_token(line: nat) -> SpecToken {
    SpecToken { ttype: TokenType::EOF, lexeme: seq![], literal: SpecLiteral::Nil, line }
}

/// The tokens of a whole source text, or the error that stops scanning it.
pub open spec fn scan_source(src: Seq<u8>) -> Result<Seq<SpecToken>, ScannerError> {
    let r = scan_run(src, 0, 0, 1);
    match r.error {
        Some(e) => Err(e),
        None => Ok(r.tokens.push(eof_token(r.line))),
    }
}

} // verus!

verus! {

/// Whether the bytes of `b` are exactly those of `word` (`word` given as numbers).
fn bytes_are(b: &[u8], word: &[u8]) -> (r: bool)
    ensures
        r == (b@ == word@),
{
    if b.len() != word.len() {
        return false;
    }
    let mut i: usize = 0;
    while i < b.len()
        invariant
            b@.len() == word@.len(),
            0 <= i <= b@.len(),
            forall|k: int| 0 <= k < i ==> b@[k] == word@[k],
        decreases b@.len() - i,
    {
        if b[i] != word[i] {
            return false;
        }
        i = i + 1;
    }
    assert(b@ =~= word@);
    true
}

/// The keyword that `ident` spells, if any.
pub fn keyword_capture(ident: &str) -> (r: Option<TokenType>)
    ensures
        r == keyword_of(ident.spec_bytes()),
{
    let b = ident.as_bytes();
    let w: [u8; 3] = [97, 110, 100];  // "and"
    if bytes_are(b, w.as_slice()) {
        return Some(TokenType::And);
    }
    let w: [u8; 5] = [99, 108, 97, 115, 115];  // "class"
    if bytes_are(b, w.as_slice()) {
        return Some(TokenType::Class);
    }
    let w: [u8; 4] = [101, 108, 115, 101];  // "else"
    if bytes_are(b, w.as_slice()) {
        return Some(TokenType::Else);
    }
    let w: [u8; 5] = [102, 97, 108, 115, 101];  // "false"
    if bytes_are(b, w.as_slice()) {
        return Some(TokenType::False);
    }
    let w: [u8; 3] = [102, 111, 114];  // "for"
    if bytes_are(b, w.as_slice()) {
        return Some(TokenType::For);
    }
    let w: [u8; 3] = [102, 117, 110];  // "fun"
    if bytes_are(b, w.as_slice()) {
        return Some(TokenType::Fun);
    }
    let w: [u8; 2] = [105, 102];  // "if"
    if bytes_are(b, w.as_slice()) {
        return Some(TokenType::If);
    }
    let w: [u8; 3] = [110, 105, 108];  // "nil"
    if bytes_are(b, w.as_slice()) {
        return Some(TokenType::Nil);
    }
    let w: [u8; 2] = [111, 114];  // "or"
    if bytes_are(b, w.as_slice()) {
        return Some(TokenType::Or);
    }
    let w: [u8; 5] = [112, 114, 105, 110, 116];  // "print"
    if bytes_are(b, w.as_slice()) {
        return Some(TokenType::Print);
    }
    let w: [u8; 6] = [114, 101, 116, 117, 114, 110];  // "return"
    if bytes_are(b, w.as_slice()) {
        return Some(TokenType::Return);
    }
    let w: [u8; 5] = [115, 117, 112, 101, 114];  // "super"
    if bytes_are(b, w.as_slice()) {
        return Some(TokenType::Super);
    }
    let w: [u8; 4] = [116, 104, 105, 115];  // "this"
    if bytes_are(b, w.as_slice()) {
        return Some(TokenType::This);
    }
    let w: [u8; 4] = [116, 114, 117, 101];  // "true"
    if bytes_are(b, w.as_slice()) {
        return Some(TokenType::True);
    }
    let w: [u8; 3] = [118, 97, 114];  // "var"
    if bytes_are(b, w.as_slice()) {
        return Some(TokenType::Var);
    }
    let w: [u8; 5] = [119, 104, 105, 108, 101];  // "while"
    if bytes_are(b, w.as_slice()) {
        return Some(TokenType::While);
    }
    None
}

} // verus!

verus! {

/// The scanner's state: the source, the tokens found so far, the start of the
/// token being read, the reading position (a byte index) and the line.
#[derive(Clone, Debug)]
pub struct Scanner {
    pub source: String,
    pub tokens: Vec<Token>,
    pub start: usize,
    pub current: usize,
    pub line: usize,
}

/// Index `i` of `src` is its start or end, or holds or follows an ASCII byte.
pub open spec fn ascii_edge(src: Seq<u8>, i: int) -> bool {
    ||| i == 0
    ||| i == src.len()
    ||| (0 <= i < src.len() && src[i] < 0x80)
    ||| (0 < i <= src.len() && src[i - 1] < 0x80)
}

proof fn lemma_ascii_edge_is_boundary(src: Seq<u8>, i: int)
    requires
        valid_utf8(src),
        0 <= i <= src.len(),
        ascii_edge(src, i),
    ensures
        is_char_boundary(src, i),
{
    is_char_boundary_start_end_of_seq(src);
    if i == 0 || i == src.len() {
    } else if src[i] < 0x80 {
        lemma_ascii_is_boundary(src, i);
    } else {
        lemma_boundary_after_ascii(src, i - 1);
    }
}

/// The source bytes of a scanner.
pub open spec fn src_of(s: Scanner) -> Seq<u8> {
    utf8_of(s.source)
}

/// The machine limits the scanner's counters must stay within: the source is
/// shorter than `usize::MAX` bytes and the line cannot outgrow a `usize`
/// while the rest of the source is read.
pub open spec fn scanner_fits(s: Scanner) -> bool {
    &&& src_of(s).len() < usize::MAX
    &&& s.current <= src_of(s).len() ==> s.line + (src_of(s).len() - s.current) <= usize::MAX
}

impl Scanner {
    /// A scanner at the start of `source`, on line 1, with no tokens.
    pub fn new(source: String) -> (r: Self)
        ensures
            r.source == source,
            r.tokens@ == Seq::<Token>::empty(),
            r.start == 0,
            r.current == 0,
            r.line == 1,
    {
        Self { source: source, tokens: Vec::new(), start: 0, current: 0, line: 1 }
    }

    fn is_at_end(&self) -> (r: bool)
        requires
            src_of(*self).len() < usize::MAX,
        ensures
            r == (self.current >= src_of(*self).len()),
    {
        self.current >= self.source.as_str().len()
    }

    fn peek(&self) -> (r: u8)
        requires
            src_of(*self).len() < usize::MAX,
        ensures
            r == if self.current >= src_of(*self).len() { 0u8 } else { src_of(*self)[self.current as int] },
    {
        if self.is_at_end() {
            return 0;
        }
        self.source.as_str().as_bytes()[self.current]
    }

    fn peek_next(&self) -> (r: u8)
        requires
            src_of(*self).len() < usize::MAX,
            self.current <= src_of(*self).len(),
        ensures
            r == if self.current + 1 >= src_of(*self).len() { 0u8 } else { src_of(*self)[self.current + 1] },
    {
        if self.current + 1 >= self.source.as_str().len() {
            return 0;
        }
        let i = self.current + 1;
        self.source.as_str().as_bytes()[i]
    }

    fn advance(&mut self) -> (r: u8)
        requires
            old(self).current < src_of(*old(self)).len(),
        ensures
            r == src_of(*old(self))[old(self).current as int],
            *final(self) == (Scanner { current: (old(self).current + 1) as usize, ..*old(self) }),
    {
        let c = self.source.as_str().as_bytes()[self.current];
        self.current = self.current + 1;
        c
    }

    fn match_char(&mut self, expected: u8) -> (r: bool)
        requires
            src_of(*old(self)).len() < usize::MAX,
        ensures
            r == (old(self).current < src_of(*old(self)).len() && src_of(*old(self))[old(self).current as int] == expected),
            *final(self) == (Scanner { current: if r { (old(self).current + 1) as usize } else { old(self).current }, ..*old(self) }),
    {
        if self.is_at_end() {
            return false;
        }
        if self.source.as_str().as_bytes()[self.current] != expected {
            return false;
        }
        self.current = self.current + 1;
        true
    }

    fn is_digit(&self, c: u8) -> (r: bool)
        ensures
            r == is_digit_byte(c),
    {
        c >= DIGIT_0 && c <= DIGIT_9
    }

    fn is_alpha(&self, c: u8) -> (r: bool)
        ensures
            r == is_alpha_byte(c),
    {
        (c >= LOWER_A && c <= LOWER_Z) || (c >= UPPER_A && c <= UPPER_Z) || c == UNDERSCORE
    }

    fn is_alpha_numeric(&self, c: u8) -> (r: bool)
        ensures
            r == is_alnum_byte(c),
    {
        self.is_alpha(c) || self.is_digit(c)
    }

    /// The source text from the token's start to the reading position.
    fn current_text(&self) -> (r: String)
        requires
            self.start < self.current <= src_of(*self).len(),
            src_of(*self)[self.start as int] < 0x80,
            src_of(*self)[self.current - 1] < 0x80,
        ensures
            utf8_of(r) == src_of(*self).subrange(self.start as int, self.current as int),
    {
        self.text_between(self.start, self.current)
    }

    /// The source text between two byte positions that follow or precede
    /// ASCII bytes.
    fn text_between(&self, from: usize, to: usize) -> (r: String)
        requires
            from <= to <= src_of(*self).len(),
            ascii_edge(src_of(*self), from as int),
            ascii_edge(src_of(*self), to as int),
        ensures
            utf8_of(r) == src_of(*self).subrange(from as int, to as int),
    {
        let s = self.source.as_str();
        proof {
            let b = s.spec_bytes();
            assert(valid_utf8(b));
            lemma_ascii_edge_is_boundary(b, from as int);
            lemma_ascii_edge_is_boundary(b, to as int);
        }
        substring(s, from, to)
    }

    fn add_token(&mut self, t: TokenType) -> (r: Result<(), ScannerError>)
        requires
            old(self).start < old(self).current <= src_of(*old(self)).len(),
            src_of(*old(self))[old(self).start as int] < 0x80,
            src_of(*old(self))[old(self).current - 1] < 0x80,
        ensures
            r is Ok,
            final(self).source == old(self).source,
            final(self).start == old(self).start,
            final(self).current == old(self).current,
            final(self).line == old(self).line,
            tokens_view(final(self).tokens@) == tokens_view(old(self).tokens@).push(
                SpecToken {
                    ttype: t,
                    lexeme: src_of(*old(self)).subrange(old(self).start as int, old(self).current as int),
                    literal: SpecLiteral::Nil,
                    line: old(self).line as nat,
                },
            ),
    {
        self.add_token_prime(t, Literal::Nil)
    }

    fn add_token_prime(&mut self, t: TokenType, literal: Literal) -> (r: Result<(), ScannerError>)
        requires
            old(self).start < old(self).current <= src_of(*old(self)).len(),
            src_of(*old(self))[old(self).start as int] < 0x80,
            src_of(*old(self))[old(self).current - 1] < 0x80,
        ensures
            r is Ok,
            final(self).source == old(self).source,
            final(self).start == old(self).start,
            final(self).current == old(self).current,
            final(self).line == old(self).line,
            tokens_view(final(self).tokens@) == tokens_view(old(self).tokens@).push(
                SpecToken {
                    ttype: t,
                    lexeme: src_of(*old(self)).subrange(old(self).start as int, old(self).current as int),
                    literal: literal@,
                    line: old(self).line as nat,
                },
            ),
    {
        let text = self.current_text();
        let tok = Token { ttype: t, lexeme: text, literal: literal, line: self.line };
        self.tokens.push(tok);
        assert(tokens_view(self.tokens@) =~= tokens_view(old(self).tokens@).push(tok@));
        Ok(())
    }

    /// Skips a block comment whose opening `/*` has been read; comments nest.
    fn parse_block_comment(&mut self) -> (r: Result<(), ScannerError>)
        requires
            scanner_fits(*old(self)),
            old(self).current <= src_of(*old(self)).len(),
        ensures
            match block_comment_end(src_of(*old(self)), old(self).current as int, 1, old(self).line as nat) {
                Ok((e, l)) => r is Ok && *final(self) == (Scanner {
                    current: e as usize,
                    line: l as usize,
                    ..*old(self)
                }),
                Err(l) => r == Err::<(), ScannerError>((ScannerError::UnterminatedBlockComment { line: l as usize }))
                    && *final(self) == (Scanner {
                    current: src_of(*old(self)).len() as usize,
                    line: l as usize,
                    ..*old(self)
                }),
            },
    {
        let ghost src = src_of(*self);
        let ghost goal = block_comment_end(src, self.current as int, 1, self.line as nat);
        let mut depth: usize = 1;
        proof {
            lemma_block_comment_end(src, self.current as int, 1, self.line as nat);
        }
        while depth > 0
            invariant
                src == src_of(*self),
                scanner_fits(*self),
                self.current <= src.len(),
                depth <= self.current + 1,
                block_comment_end(src, self.current as int, depth as nat, self.line as nat) == goal,
                goal == block_comment_end(src, old(self).current as int, 1, old(self).line as nat),
                src == src_of(*old(self)),
                self.source == old(self).source,
                self.tokens == old(self).tokens,
                self.start == old(self).start,
            decreases src.len() - self.current,
        {
            if self.is_at_end() {
                return Err(ScannerError::UnterminatedBlockComment { line: self.line });
            }
            let c = self.advance();
            if c == SLASH && self.match_char(STAR) {
                depth = depth + 1;
            } else if c == STAR && self.match_char(SLASH) {
                depth = depth - 1;
            } else if c == NEWLINE {
                self.line = self.line + 1;
            }
        }
        Ok(())
    }

    /// Reads a string literal whose opening quote has been read.
    fn parse_string(&mut self) -> (r: Result<(), ScannerError>)
        requires
            scanner_fits(*old(self)),
            old(self).start + 1 == old(self).current,
            old(self).current <= src_of(*old(self)).len(),
            src_of(*old(self))[old(self).start as int] == QUOTE,
        ensures
            ({
                let src = src_of(*old(self));
                let (q, l) = string_end(src, old(self).current as int, old(self).line as nat);
                &&& final(self).source == old(self).source
                &&& final(self).start == old(self).start
                &&& final(self).line == l
                &&& if q < src.len() {
                    &&& r is Ok
                    &&& final(self).current == q + 1
                    &&& tokens_view(final(self).tokens@) == tokens_view(old(self).tokens@).push(
                        SpecToken {
                            ttype: TokenType::String,
                            lexeme: src.subrange(old(self).start as int, q + 1),
                            literal: SpecLiteral::Str(src.subrange(old(self).current as int, q)),
                            line: l,
                        },
                    )
                } else {
                    &&& r == Err::<(), ScannerError>(ScannerError::UnterminatedString { line: l as usize })
                    &&& final(self).current == q
                    &&& final(self).tokens == old(self).tokens
                }
            }),
    {
        let ghost src = src_of(*self);
        let ghost goal = string_end(src, self.current as int, self.line as nat);
        proof {
            lemma_string_end(src, self.current as int, self.line as nat);
        }
        while self.peek() != QUOTE && !self.is_at_end()
            invariant
                src == src_of(*self),
                scanner_fits(*self),
                old(self).current <= self.current <= src.len(),
                string_end(src, self.current as int, self.line as nat) == goal,
                self.source == old(self).source,
                self.tokens == old(self).tokens,
                self.start == old(self).start,
            decreases src.len() - self.current,
        {
            if self.peek() == NEWLINE {
                self.line = self.line + 1;
            }
            self.advance();
        }
        if self.is_at_end() {
            return Err(ScannerError::UnterminatedString { line: self.line });
        }
        self.advance();
        let start = self.start + 1;
        let end = self.current - 1;
        let text = self.text_between(start, end);
        self.add_token_prime(TokenType::String, Literal::Str(text))?;
        Ok(())
    }

    /// Reads a numeral whose first digit has been read.
    fn parse_number(&mut self) -> (r: Result<(), ScannerError>)
        requires
            src_of(*old(self)).len() < usize::MAX,
            old(self).start + 1 == old(self).current,
            old(self).current <= src_of(*old(self)).len(),
            is_digit_byte(src_of(*old(self))[old(self).start as int]),
        ensures
            ({
                let src = src_of(*old(self));
                let e = number_end(src, old(self).start as int);
                &&& r is Ok
                &&& *final(self) == (Scanner { current: e as usize, tokens: final(self).tokens, ..*old(self) })
                &&& tokens_view(final(self).tokens@) == tokens_view(old(self).tokens@).push(
                    SpecToken {
                        ttype: TokenType::Number,
                        lexeme: src.subrange(old(self).start as int, e),
                        literal: SpecLiteral::Number(src.subrange(old(self).start as int, e)),
                        line: old(self).line as nat,
                    },
                )
            }),
    {
        let ghost src = src_of(*self);
        let ghost p = digits_end(src, self.current as int);
        proof {
            lemma_digits_end(src, self.current as int);
        }
        while self.is_digit(self.peek())
            invariant
                src == src_of(*self),
                src.len() < usize::MAX,
                old(self).current <= self.current <= src.len(),
                digits_end(src, self.current as int) == p,
                *self == (Scanner { current: self.current, ..*old(self) }),
            decreases src.len() - self.current,
        {
            self.advance();
        }
        assert(self.current == p);
        if self.peek() == DOT && self.is_digit(self.peek_next()) {
            self.advance();
            let ghost q = digits_end(src, self.current as int);
            proof {
                lemma_digits_end(src, self.current as int);
            }
            while self.is_digit(self.peek())
                invariant
                    src == src_of(*self),
                    src.len() < usize::MAX,
                    p + 1 <= self.current <= src.len(),
                    digits_end(src, self.current as int) == q,
                    *self == (Scanner { current: self.current, ..*old(self) }),
                decreases src.len() - self.current,
            {
                self.advance();
            }
            assert(src[self.current - 1] < 0x80) by {
                if self.current > p + 2 {
                    assert(is_digit_byte(src[self.current - 1]));
                }
            }
        } else {
            assert(src[self.current - 1] < 0x80) by {
                if self.current > old(self).current {
                    assert(is_digit_byte(src[self.current - 1]));
                }
            }
        }
        let text = self.current_text();
        self.add_token_prime(TokenType::Number, Literal::Number(text))?;
        Ok(())
    }

    /// Reads an identifier or keyword whose first letter has been read.
    fn parse_identifier(&mut self) -> (r: Result<(), ScannerError>)
        requires
            src_of(*old(self)).len() < usize::MAX,
            old(self).start + 1 == old(self).current,
            old(self).current <= src_of(*old(self)).len(),
            is_alpha_byte(src_of(*old(self))[old(self).start as int]),
        ensures
            ({
                let src = src_of(*old(self));
                let e = word_end(src, old(self).current as int);
                let text = src.subrange(old(self).start as int, e);
                &&& r is Ok
                &&& *final(self) == (Scanner { current: e as usize, tokens: final(self).tokens, ..*old(self) })
                &&& tokens_view(final(self).tokens@) == tokens_view(old(self).tokens@).push(
                    SpecToken {
                        ttype: match keyword_of(text) {
                            Some(k) => k,
                            None => TokenType::Identifier,
                        },
                        lexeme: text,
                        literal: SpecLiteral::Nil,
                        line: old(self).line as nat,
                    },
                )
            }),
    {
        let ghost src = src_of(*self);
        let ghost p = word_end(src, self.current as int);
        proof {
            lemma_word_end(src, self.current as int);
        }
        while self.is_alpha_numeric(self.peek())
            invariant
                src == src_of(*self),
                src.len() < usize::MAX,
                old(self).current <= self.current <= src.len(),
                word_end(src, self.current as int) == p,
                *self == (Scanner { current: self.current, ..*old(self) }),
            decreases src.len() - self.current,
        {
            self.advance();
        }
        assert(src[self.current - 1] < 0x80) by {
            if self.current > old(self).current {
                assert(is_alnum_byte(src[self.current - 1]));
            }
        }
        let text = self.current_text();
        if let Some(token_type) = keyword_capture(text.as_str()) {
            self.add_token(token_type)
        } else {
            self.add_token(TokenType::Identifier)
        }
    }

    /// Reads one token, or skips whitespace or a comment, from the reading
    /// position (which is also the token's start).
    fn scan_token(&mut self) -> (r: Result<(), ScannerError>)
        requires
            scanner_fits(*old(self)),
            old(self).start == old(self).current,
            old(self).current < src_of(*old(self)).len(),
        ensures
            final(self).source == old(self).source,
            final(self).start == old(self).start,
            match scan_step(src_of(*old(self)), old(self).current as int, old(self).line as nat) {
                Step::Emit { end, line, ttype, literal } => {
                    &&& r is Ok
                    &&& final(self).current == end
                    &&& final(self).line == line
                    &&& tokens_view(final(self).tokens@) == tokens_view(old(self).tokens@).push(
                        SpecToken {
                            ttype,
                            lexeme: src_of(*old(self)).subrange(old(self).current as int, end),
                            literal,
                            line,
                        },
                    )
                },
                Step::Skip { end, line } => {
                    &&& r is Ok
                    &&& final(self).current == end
                    &&& final(self).line == line
                    &&& final(self).tokens == old(self).tokens
                },
                Step::Fail { end, line, error } => {
                    &&& r == Err::<(), ScannerError>(error)
                    &&& final(self).current == end
                    &&& final(self).line == line
                    &&& final(self).tokens == old(self).tokens
                },
            },
    {
        let ghost src = src_of(*self);
        let ghost start = self.start as int;
        proof {
            lemma_step_advances(src, start, self.line as nat);
        }
        let c = self.advance();
        if c == LEFT_PAREN {
            self.add_token(TokenType::LeftParen)
        } else if c == RIGHT_PAREN {
            self.add_token(TokenType::RightParen)
        } else if c == LEFT_BRACE {
            self.add_token(TokenType::LeftBrace)
        } else if c == RIGHT_BRACE {
            self.add_token(TokenType::RightBrace)
        } else if c == COMMA {
            self.add_token(TokenType::Comma)
        } else if c == DOT {
            self.add_token(TokenType::Dot)
        } else if c == MINUS {
            self.add_token(TokenType::Minus)
        } else if c == PLUS {
            self.add_token(TokenType::Plus)
        } else if c == SEMICOLON {
            self.add_token(TokenType::Semicolon)
        } else if c == STAR {
            self.add_token(TokenType::Star)
        } else if c == BANG {
            let t = if self.match_char(EQUAL) {
                TokenType::BangEqual
            } else {
                TokenType::Bang
            };
            self.add_token(t)
        } else if c == EQUAL {
            let t = if self.match_char(EQUAL) {
                TokenType::EqualEqual
            } else {
                TokenType::Equal
            };
            self.add_token(t)
        } else if c == LESS {
            let t = if self.match_char(EQUAL) {
                TokenType::LessEqual
            } else {
                TokenType::Less
            };
            self.add_token(t)
        } else if c == GREATER {
            let t = if self.match_char(EQUAL) {
                TokenType::GreaterEqual
            } else {
                TokenType::Greater
            };
            self.add_token(t)
        } else if c == SLASH {
            if self.match_char(SLASH) {
                let ghost e = line_end(src, self.current as int);
                proof {
                    lemma_line_end(src, self.current as int);
                }
                while self.peek() != NEWLINE && !self.is_at_end()
                    invariant
                        src == src_of(*self),
                        src.len() < usize::MAX,
                        start + 2 <= self.current <= src.len(),
                        line_end(src, self.current as int) == e,
                        e == line_end(src, start + 2),
                        *self == (Scanner { current: self.current, ..*old(self) }),
                    decreases src.len() - self.current,
                {
                    self.advance();
                }
                Ok(())
            } else if self.match_char(STAR) {
                self.parse_block_comment()
            } else {
                self.add_token(TokenType::Slash)
            }
        } else if c == SPACE || c == CR || c == TAB {
            Ok(())
        } else if c == NEWLINE {
            self.line = self.line + 1;
            Ok(())
        } else if c == QUOTE {
            self.parse_string()
        } else if self.is_digit(c) {
            self.parse_number()
        } else if self.is_alpha(c) {
            self.parse_identifier()
        } else {
            Err(ScannerError::UnexpectedCharacter { line: self.line, character: c as char })
        }
    }

    /// Scans the rest of the source from the reading position and hands out
    /// every token found (those held before included), closed by an `EOF`
    /// token; the scanner's token list is left empty. Stops at the first error.
    pub fn scan_tokens(&mut self) -> (r: Result<Vec<Token>, ScannerError>)
        requires
            scanner_fits(*old(self)),
        ensures
            final(self).source == old(self).source,
            ({
                let run = scan_run(src_of(*old(self)), old(self).start as int, old(self).current as int, old(self).line as nat);
                &&& final(self).start == run.start
                &&& final(self).current == run.current
                &&& final(self).line == run.line
                &&& match run.error {
                    None => {
                        &&& r is Ok
                        &&& tokens_view(r->Ok_0@) == tokens_view(old(self).tokens@) + run.tokens.push(eof_token(run.line))
                        &&& final(self).tokens@.len() == 0
                    },
                    Some(e) => {
                        &&& r == Err::<Vec<Token>, ScannerError>(e)
                        &&& tokens_view(final(self).tokens@) == tokens_view(old(self).tokens@) + run.tokens
                    },
                }
            }),
    {
        let ghost src = src_of(*self);
        let ghost run = scan_run(src, self.start as int, self.current as int, self.line as nat);
        while !self.is_at_end()
            invariant
                src == src_of(*self),
                self.source == old(self).source,
                scanner_fits(*self),
                run == scan_run(src, old(self).start as int, old(self).current as int, old(self).line as nat),
                ({
                    let rest = scan_run(src, self.start as int, self.current as int, self.line as nat);
                    &&& rest.start == run.start
                    &&& rest.current == run.current
                    &&& rest.line == run.line
                    &&& rest.error == run.error
                    &&& tokens_view(self.tokens@) + rest.tokens == tokens_view(old(self).tokens@) + run.tokens
                }),
            decreases src.len() - self.current,
        {
            self.start = self.current;
            let ghost before = tokens_view(self.tokens@);
            let ghost cur = self.current as int;
            let ghost line = self.line as nat;
            proof {
                lemma_step_advances(src, cur, line);
            }
            self.scan_token()?;
            proof {
                match scan_step(src, cur, line) {
                    Step::Emit { end, line: l, ttype, literal } => {
                        let tok = SpecToken { ttype, lexeme: src.subrange(cur, end), literal, line: l };
                        let rest = scan_run(src, cur, end, l);
                        assert(scan_run(src, cur, cur, line).tokens == seq![tok] + rest.tokens);
                        assert(before.push(tok) + rest.tokens =~= before + (seq![tok] + rest.tokens));
                    },
                    _ => {},
                }
            }
        }
        let eof = Token { ttype: TokenType::EOF, lexeme: String::new(), literal: Literal::Nil, line: self.line };
        assert(utf8_of(eof.lexeme) =~= Seq::<u8>::empty());
        let ghost found = self.tokens@;
        proof {
            let rest = scan_run(src, self.start as int, self.current as int, self.line as nat);
            assert(rest.tokens == Seq::<SpecToken>::empty());
            assert(tokens_view(found) =~= tokens_view(found) + rest.tokens);
        }
        self.tokens.push(eof);
        let mut tokens: Vec<Token> = Vec::new();
        std::mem::swap(&mut tokens, &mut self.tokens);
        assert(tokens_view(tokens@) =~= tokens_view(found).push(eof@));
        Ok(tokens)
    }
}

} // verus!

verus! {

/// A scanned source ends with exactly one `EOF` token, the last one, and
/// every token carries the literal of its kind; scanning never fails on a
/// numeral.
pub proof fn law_scanned_tokens_shape(src: Seq<u8>)
    ensures
        scan_source(src) matches Err(e) ==> !(e is ParseFloat),
        scan_source(src) matches Ok(ts) ==> {
            &&& ts.len() >= 1
            &&& ts.last().ttype == TokenType::EOF
            &&& forall|i: int| 0 <= i < ts.len() - 1 ==> (#[trigger] ts[i]).ttype != TokenType::EOF
            &&& forall|i: int| 0 <= i < ts.len() ==> spec_literal_agrees(#[trigger] ts[i])
        },
{
    lemma_scan_run_tokens(src, 0, 0, 1);
    let r = scan_run(src, 0, 0, 1);
    if r.error is None {
        let ts = r.tokens.push(eof_token(r.line));
        assert forall|i: int| 0 <= i < ts.len() - 1 implies (#[trigger] ts[i]).ttype != TokenType::EOF by {
            assert(ts[i] == r.tokens[i]);
        }
        assert forall|i: int| 0 <= i < ts.len() implies spec_literal_agrees(#[trigger] ts[i]) by {
            if i < ts.len() - 1 {
                assert(ts[i] == r.tokens[i]);
            }
        }
    }
}

/// Every token of a run covers the source bytes it was read from: each
/// token's text is a piece of the source, and tokens follow one another in
/// the source's order without overlapping.
pub open spec fn tokens_cover(src: Seq<u8>, ts: Seq<SpecToken>, from: int) -> bool
    decreases ts.len(),
{
    if ts.len() == 0 {
        true
    } else {
        exists|a: int|
            from <= a && a + ts[0].lexeme.len() <= src.len() && #[trigger] src.subrange(
                a,
                a + ts[0].lexeme.len(),
            ) == ts[0].lexeme && tokens_cover(src, ts.drop_first(), a + ts[0].lexeme.len())
    }
}

/// The tokens a run finds are pieces of the source, in order, each starting
/// at or after the run's position.
pub proof fn law_tokens_are_source_pieces(src: Seq<u8>, start: int, current: int, line: nat)
    requires
        0 <= current,
    ensures
        tokens_cover(src, scan_run(src, start, current, line).tokens, current),
    decreases src.len() - current,
{
    if 0 <= current < src.len() {
        lemma_step_advances(src, current, line);
        match scan_step(src, current, line) {
            Step::Fail { .. } => {},
            Step::Skip { end, line: l } => {
                law_tokens_are_source_pieces(src, current, end, l);
                lemma_cover_later(src, scan_run(src, current, end, l).tokens, current, end);
            },
            Step::Emit { end, line: l, .. } => {
                law_tokens_are_source_pieces(src, current, end, l);
                let ts = scan_run(src, start, current, line).tokens;
                let rest = scan_run(src, current, end, l).tokens;
                assert(ts.drop_first() =~= rest);
                assert(ts[0].lexeme.len() == end - current);
                assert(src.subrange(current, current + ts[0].lexeme.len()) == ts[0].lexeme);
            },
        }
    }
}

proof fn lemma_cover_later(src: Seq<u8>, ts: Seq<SpecToken>, from: int, later: int)
    requires
        from <= later,
        tokens_cover(src, ts, later),
    ensures
        tokens_cover(src, ts, from),
{
    if ts.len() > 0 {
        let a = choose|a: int|
            later <= a && a + ts[0].lexeme.len() <= src.len() && #[trigger] src.subrange(a, a + ts[0].lexeme.len())
                == ts[0].lexeme && tokens_cover(src, ts.drop_first(), a + ts[0].lexeme.len());
        assert(from <= a);
    }
}

} // verus!
