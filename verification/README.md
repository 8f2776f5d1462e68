# yaml0

YAML parsing, emitting and format-preserving edits, with every function proved against its contract
by Verus.

- `src/parser/` reads text into a [`BorrowedValue`](src/value.rs) tree. `layout.rs`, `tokens.rs` and
  `grammar.rs` say what is read; the other files read it.
- `src/emitter.rs` writes a value as text.
- `src/edit/` replaces single values in the text and leaves everything around them as it is. The parser
  records a span for every node (`sink.rs`), a path resolves to a span (`locate.rs`), and an edit splices
  it (`set.rs`; `types.rs` and `around.rs` say what it must not change), removes it (`doc.rs`) or writes back the difference between two values (`apply.rs`).
- `src/laws/` states what holds across functions. Emitted values read back, but for merge keys, numbers
  that do not fit, floats that YAML spells otherwise and tags that stand for a type (`emit.rs`). A default edit
  changes no byte but those it names (`edits.rs`). If the scalar, or the flow collection it is in, is the last
  thing on its line, the edit reads back: what was written is read at the path, of the type that was there, no
  other value is another one, and every other node is where it was (`streams.rs`, proved in `splice/` by
  reading both texts side by side). The span tree has the shape of the value, so a path leads to the bytes its
  value was read from (`values.rs`). Merge keys never win over a mapping's own entries (`merges.rs`).
- `app/` puts serde on top: typed reads, writes and edits.
