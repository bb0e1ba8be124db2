# incremental_pratt

Incremental Pratt parsing with reuse bounded by precedence, verified with Verus.

After an edit, a parser need not read the whole source again: it can take over
subtrees of the old tree. This library decides which ones by their precedence
and by the operator that follows them, and proves that the tree it returns is
the one a fresh parse gives.

## Layout

- `src/expr` — a fixed expression language: lexer, parser, reuse cache,
  incremental parsing, balanced operator chains, error recovery with repairs,
  evaluation by context.
- `src/certificate` — a small calculator grammar whose reuse condition is
  proved sound on its own.
- `src/runtime` — the same parsers over an operator table given at run time,
  with incremental lexing over a rope and a statement grammar round the
  expressions.
- `src/generator` — grammar specifications, checked and written out as the
  source of a parser crate.
- `src/index.rs`, `src/runtime/rope.rs`, `src/generator/text.rs` — the calls into
  `rustc-hash`, `ropey` and the formatter of the standard library, with what is
  taken on trust of each.
- `tests` — examples.
- `app` — the command line: reads grammar files, writes crates, measures times.

The laws of the library are the proof functions named `law_…`.
