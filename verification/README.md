# proclang

A small procedural language with `proc`edures, `var`iables, `label`s and
`op`erations that may jump (`op ifz c -> then, else`).

- `src/lexer.rs` — source text to tokens
- `src/parser.rs` — tokens to a syntax tree
- `src/symbols.rs` — name-to-index maps used by the compiler
- `src/compile.rs` — syntax tree to indexed operations
- `src/run.rs` — an interpreter for compiled code, bounded by fuel
- `app/main.rs` — a demo that swaps two values
- `tests/` — tests of each stage

Every stage is specified as a mathematical function of its input and
verified with Verus.
