# Dhakal Lang

A small interpreted language — `val` bindings, functions, `if`, `for`,
integers, booleans, strings, arrays, comments in backticks and a built-in
`print` — with a lexer, a precedence-climbing parser and a tree-walking
evaluator, each specified and verified with Verus.

## Layout

- `src/text.rs` — byte-level text helpers: substrings at character
  boundaries, string equality, decimal parsing into `u64`.
- `src/token.rs` — token kinds and tokens.
- `src/lexer.rs` — the lexer and its model `next_token_model` over the
  UTF-8 bytes of the input.
- `src/ast.rs` — the syntax tree and its mathematical model (`Expr`, `Stmt`).
- `src/parser.rs` — the parser; every parsing function is tied to a model
  function that says what it yields, how many tokens it moves past and which
  error messages it records.
- `src/object.rs` — runtime values and their model.
- `src/eval.rs` — the evaluator and its fuel-indexed model; the public
  functions are specified for every program whose evaluation finishes.
- `src/laws.rs` — properties that span several functions.
- `app/main.rs` — the command-line program: a read-eval-print loop that
  prints the value of each statement.
- `tests/` — tests on concrete programs.

## Notes on the design

- Tokens carry their kind and text only; the lexer counts lines and columns
  in its own state, but a token does not record where it was read.
- `Parser::new` takes the `Lexer` it reads from by value: the parser owns it.
- The variables of an environment and the functions of the evaluator are
  kept in `Table`, a `Vec` of entries with distinct names, and not in a
  `HashMap<String, Object>`: vstd's specification of `HashMap` only gives a
  lookup a known result for key types that obey its key model, which covers
  the primitive types but not `String`.
- An integer literal beyond the range of `u64` does not stop a parse: it is
  read as 0 and the parser records it (`Parser::has_overflowed`);
  `parse_source` answers `None` for such a source.
- `print` evaluates its arguments in order and records the line they show
  (integers in decimal, booleans, strings as they are, arrays as `[a, b]`,
  a function as `func name`, `null`); `Eval::take_output` hands the lines
  out, and `app/` writes them.

- `eval_expression`, `eval_statement` and `run_program` are specified for
  evaluations that finish. `eval_expression_within`, `eval_statement_within`
  and `run_program_within` take a bound on the nesting depth of the
  evaluation and need no such requirement: they answer `None` exactly where
  the model runs out of that bound, overflows or divides by zero.
- `Precedence` has no explicit discriminants; `Precedence::level` gives the
  numbers 1 to 8 by which the parser compares precedences.
