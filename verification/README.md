# elenchus

The verified core of elenchus, a small three-valued consistency checker: the
`.vrf` language (keywords, grammar, syntax diagnostics) and the compiler that
lowers a program and its imports into a canonical IR of `Impossible` clauses,
facts and rules. The functions in `src/` carry contracts proved by Verus, except
for a few small trusted wrappers around `sha2` and `std` (in `src/hash.rs` and
`src/text.rs`), each documented with what it assumes of the call it makes.

## Layout

- `src/text.rs`, `src/table.rs`, `src/strtable.rs` — characters and strings,
  sorted tables and a string-keyed map, with their orders.
- `src/keywords.rs`, `src/kw.rs` — the reserved words and their syntax cards.
- `src/ast.rs`, `src/scan.rs`, `src/syntax.rs`, `src/grammar.rs` — the
  program shape, the scanner, the surface syntax as relations on the text, and
  the recovering parser, which reads back every program those relations
  describe (whatever its layout, where the text's blanks are ASCII).
- `src/diag.rs`, `src/render.rs` — syntax diagnostics and their grouped report.
- `src/ir.rs`, `src/lower.rs`, `src/sig.rs`, `src/closure.rs`,
  `src/compiler.rs` — the IR, the lowering of each construct to clauses,
  premise signatures, relation closures, and the compiler itself.
- `src/error.rs` — compile errors, the "did you mean" suggestions and the
  edit distance behind them (symmetric, and zero exactly on equal words).
- `src/hash.rs` — content hashes (SHA-256 through the `sha2` crate).
- `src/paths.rs`, `src/binding.rs`, `src/resolve.rs` — import paths, the
  import graph (content-deduplicated, walked without recursion) and whole-graph
  compilation against any `Resolver`.
- `src/pipeline.rs`, `src/setargs.rs` — single-source compilation, data files
  of `PROVIDE` values, and `name:value` tokens from a command line.
- `src/laws.rs` — properties of the lowering, the closures, path
  normalisation and the edit distance that hold for every input.
- `app/` — the command-line front end: argument handling, files, stdin, and
  error messages.
- `tests/` — behaviour on concrete programs.
