# karst

The infrastructure layer of the karst front end, verified with Verus:

- `span` — `Span`, a byte range of a source file tagged with an expansion
  generation, and span merging.
- `source_table` — the table of source files: file ids, line tables, and
  rendering of byte offsets as `file:line:col` and as source excerpts
  (columns count characters, not bytes).
- `diagnostic` — structured diagnostics and their rustc-style rendering.
- `scope` — scope sets for hygiene, kept as strictly ascending vectors.
- `symbol` — the keyword set, identifier normalization (composition of a
  base letter and a combining mark), and the symbol interning table.
- `phase` — syntax phases.
- `text`, `search` — exact building blocks: decimal rendering, padding,
  character access, and binary search.

`app/main.rs` renders a sample diagnostic and exits with status 1 for an
error. Tests are under `tests/`.
