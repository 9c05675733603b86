# flash

A compiled UI framework's toolchain and runtime as a Verus library: `.ui`
source is lexed, parsed and lowered to a flat UI IR with a static reactive
dependency table; a small runtime keeps slot values, runs handlers, and
flushes changed properties to a renderer or, as a batched command buffer, to a
native host.

The functions under `src/` carry `requires` / `ensures` contracts that Verus
proves; the few that call into std beyond what Verus specifies are small
wrappers whose contracts are stated, not proved.

## Layout

- `src/lexer.rs`: the lexer, specified as a machine over bytes (`lex_run`);
  `tokenize` gives the machine's tokens, and the spans of the tokens are in
  order and end with one empty `Eof` span at the end of the source.
- `src/grammar.rs`: the grammar of `.ui` files as spec functions over tokens,
  with trees for expressions and the state declarations of items.
- `src/parser.rs`: the parser; `parse` succeeds exactly when the tokens are
  items of the grammar, and gives those items.
- `src/sema/`: lowering from the AST to the IR (`Compiler::compile`), with the
  diagnostics it reports; a screen's injected `@provider` state comes first
  in its slots, and the providers' actions are compiled for it.
- `src/driver.rs`: the pipeline, `compile`, stated against `parse` and
  `Compiler::compile`.
- `src/ir/`: the IR, its dependency table, the hot-reload plan, and the text
  form of a screen's IR that `driver::compile` returns (`ir/text.rs`).
- `src/runtime/`: slot store, reactive engine, renderers, hot reload, native
  sessions and handler dispatch.
- `src/platform/`: command buffer encoding and decoding, native renderer and
  in-process host.
- `src/cli/`: argument parsing, manifest reading and the text the command line
  prints.
- `app/`: the command-line program and the C ABI for native hosts: file and
  network I/O, process handling, and what formats and parses floats.
- `tests/`: the tests, run against the compiled library.
