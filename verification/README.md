# orchidlang

The front end of the Orchid language, verified with Verus: character classes,
number and string literals, the tokenizer, the token-level parser of source
files, names, the helpers for custom lines (`impl`, `protocol`, `type`), and
the decision logic of the sequential scheduler and the event loop.

Layout:

- `src/` — the verified library. Each public function states in its contract
  what it returns, over spec functions that describe the language directly
  (for instance `lex_from` for the tokenizer and `spec_parse_line` for a line
  of a source file). Laws that relate several functions are public proof
  functions whose names start with `law_`.
- `tests/` — tests on concrete inputs.
- `app/` — the command line program: it reads `main.orc` from a project
  folder, parses it and prints the lines. Floating point conversions of
  number literals live here.

Verify with Verus on `src/lib.rs`; the outside crates used are
`unicode-segmentation` (grapheme clusters, called from `src/str_lib.rs`),
`clap` and `ordered-float` (both in `app/`).
