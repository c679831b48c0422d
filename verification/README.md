# tlatools

Tools for TLA+ specifications, written in Verus: a lexer, a parser and a
printer for modules and expressions; an evaluator for the executable
fragment of the language; and an oracle that decides whether a state graph
reported by an implementation refines a specification.

## Layout

- `src/syntax/` — tokens, the lexer (with its character-level specification
  in `lexical.rs`), the syntax tree, the parser and the printer. `parser.rs`
  also holds the grammar the parser is proved against (`g_expr`, `g_module`
  and the functions they call).
- `src/eval/` — values and their order, the operators on values, the
  specification (modules, what each declares and sees), the evaluator and the
  diagnosis of refused steps.
- `src/oracle/` — reading JSON states under a schema, and the verdict on a
  job.
- `app/` — the command-line program: reading files and printing reports.
- `tests/` — tests of the library from outside.
