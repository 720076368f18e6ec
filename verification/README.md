# fossil

The syntax layer of the Fossil mapping language and the GraphAr sink
planning, as a Verus library. Verus proves the contracts of the functions in
`src/`, except for the few marked `#[verifier::external_body]`: those wrap
calls into `rowan` and into `std` string functions, and their contracts are
believed as written, not proved.

## Layout

- `src/kind.rs`, `src/lexer.rs`, `src/text.rs` — token kinds and the raw
  lexer; every byte of the input lands in exactly one token.
- `src/indent.rs`, `src/indent_laws.rs` — the layout pass (`INDENT`,
  `DEDENT`, string holes) and its laws: the tokens give back the text, and
  every `INDENT` is closed.
- `src/parser.rs`, `src/expr.rs`, `src/items.rs` — the recursive-descent and
  Pratt parser, as a stream of events over the tokens, with its recovery;
  each expression is one node whose operators keep the precedence table,
  only items stand under the program, each built of its parts (a mapping's
  header slots and body, a binding's braces, `:=` and expression), only
  properties under a mapping body, and every report but that of a malformed
  form comes with its own `ERROR` node in the tree.
- `src/syntax.rs`, `src/tree.rs`, `src/ast.rs` — parsing a text, the proof
  that the tree holds every byte of it, the rowan green tree built from the
  events (whose tokens hold the text again), and typed views over a parse.
- `src/diag.rs`, `src/retired.rs` — what the parser reports.
- `src/manifest.rs`, `src/decomp.rs`, `src/writer.rs`, `src/catalog.rs`,
  `src/order.rs`, `src/strings.rs` — the values GraphAr manifests carry,
  level plans and their cost, the manifest set of a write batch (graph,
  vertex and edge manifests, with their paths), the
  vertex/edge decomposition of a shape table, the COPY plans, and the DCAT
  catalog. Writing a manifest out as YAML is left to `app/`.
- `app/` — the host side: the rowan language tag, the YAML form of the
  manifests, the Parquet tile writer, error texts, and conversions from the
  ShEx and Arrow types.
- `tests/` — the tests, run against the compiled library.
