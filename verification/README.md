# urchin

Urchin is a small language of facets (state plus message handlers),
schemes (facets composed over IO spines, with dispatch rules) and io
declarations. This crate is its front end and its simulation runtime,
verified with Verus.

## Layout

- `src/ast.rs` — the syntax tree and its mathematical model (`Spec*`).
- `src/lexer.rs`, `src/parser.rs` — source text to tokens to a `Module`,
  each against a spec function (`spec_lex`, `spec_parse`).
- `src/printer.rs` — `Module` to canonical source (`module_text`).
- `src/roundtrip.rs`, `src/roundtrip_text.rs` — the round-trip laws:
  parsing the printed tokens, and the printed text, of a well-formed
  module gives back the module; `src/roundtrip_parsed.rs` carries this
  over to every well-formed module that source text parses to.
- `src/types.rs` — the static checks (dispatch coverage, IO spine paths).
- `src/runtime/` — values, environments, the interpreter, instantiation of
  scheme topologies and the tick scheduler, with laws on state updates and
  the events they emit.
- `src/watch.rs` — the pretty renderer for the JSON event stream (each
  line is read with `serde_json`).
- `app/` — the command line (`parse`, `run`, `watch`): reading files and
  standard input, JSON encoding of events, printing.
- `tests/` — behaviour on concrete inputs.
