# rlox

The core of an interpreter for a subset of the Lox language, verified with
Verus.

- `src/scanner.rs` turns source text into tokens. The lexical grammar is
  stated over the source's UTF-8 bytes (`scan_step`, `scan_run`,
  `scan_source`) and `Scanner::scan_tokens` is proved to follow it.
- `src/parser.rs` turns tokens into statements by recursive descent. The
  grammar, with its error recovery, is stated as spec functions (`p_program`,
  `p_program_errors` and the functions below them) and `Parser::parse` and
  `Parser::parse_with_errors` are proved to follow it.
- `src/error.rs` holds the errors and their messages (`message`, proved to
  give the text of `scanner_message`, `parser_message` and so on).
- `src/env.rs` holds variables in nested scopes, modelled as a sequence of
  maps; reading, defining and assigning are proved against that model, with
  laws relating them.
- `src/interpreter.rs` holds run-time values, the rules that decide what an
  operator does with its operands, the evaluation of expressions (`evaluate`,
  proved to follow `eval_expr`) and the execution of statements against an
  environment (`execute`, proved to follow `run_stmt`; `interpret` runs a
  program's statements and hands back their outputs, proved to follow
  `run_program`). They are generic over
  the number type: what a numeral stands for and the operations on numbers
  are handed in as functions.
- `src/expr.rs` and `src/token.rs` also hold the text renderings of the
  library: an expression as an indented tree (`pretty_expr`) and a token on
  one line (`Token::show`), each proved to give the text its spec states.
- `src/text.rs` holds string helpers and the facts about printers that the
  renderings rely on.
- `src/lib.rs` runs a program: scanning, parsing, then handing the
  statements to an evaluator.

`app/main.rs` is the command-line program. It supplies double-precision
floats as the library's number type and does all input and output.
