# rvcc

A compiler for a small C subset that emits 64-bit RISC-V assembly, written in
Verus. Every stage is an executable function whose result is pinned down by a
contract over a mathematical model of its input and output.

## Layout

- `src/lexer.rs`: bytes to tokens (`lex`), specified by `lex_spec`.
- `src/parser.rs`: tokens to the syntax tree (`parse`), a recursive-descent
  parser specified by `parse_spec`; the grammar is at the top of the file.
- `src/ast.rs`, `src/ir.rs`: the syntax tree and the resolved IR, each with a
  view into spec-level values.
- `src/sema.rs`: name resolution (`analyze`), specified by `analyze_spec`.
- `src/codegen.rs`: assembly from the IR (`generate`), specified by
  `program_text`.
- `src/compiler.rs`: the whole pipeline (`compile`).
- `src/printer.rs`: printing syntax trees back as tokens, and the round-trip
  law of the parser.
- `src/stack_effect.rs`: the value-stack effect of generated code, read off
  its lines.
- `src/text.rs`: decimal rendering.
- `app/main.rs`: the command-line program: `rvcc '<source>'` prints the
  assembly, or `Error: <message>` and exits with failure.

## Proved properties beyond the stage contracts

- Every program that `analyze` accepts meets the precondition of `generate`:
  function ids are indices, calls name existing functions, locals stay inside
  the frame (`sema::analyzed_program_is_well_formed`).
- An accepted program defines `main()` with no parameters, has no function
  with more than eight parameters, and no two functions with one name
  (`sema::accepted_program_signatures`).
- Blocks and `for` statements close their scope (`sema::lemma_resolve_stmt`).
- Frames are 16-byte aligned and every local slot lies inside the frame,
  apart from the others (`codegen::frame_layout`).
- Label numbers within a function are distinct (`codegen::stmt_labels_are_distinct`),
  and each `if`, `while` and `for` takes exactly one (`codegen::stmt_label_count`).
- Whitespace only separates tokens (`lexer::lex_joined_by_space`,
  `lexer::lex_with_surrounding_space`), and spelling the tokens of a text back
  and lexing them gives the same tokens (`lexer::lex_round_trip`).
- Printing a parsed program and parsing it again gives the same program
  (`printer::parse_print_parse`, `printer::parse_round_trip`).
- The code of an expression pushes exactly one value and the code of a
  statement leaves the value stack as it found it
  (`stack_effect::expr_pushes_one_value`, `stack_effect::stmt_keeps_value_stack`).
- After an error, name resolution leaves the enclosing scopes as they were.
