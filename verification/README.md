# tapecore

The arch-agnostic core of a tape-machine toolchain, as a Verus-verified
library.

- `syntax/` — lossless syntax trees: the green layer, the builder a parser
  drives, red cursors with absolute ranges, typed views, the source-layout
  pass and the sink that feeds a builder from it, byte-offset to
  line/column conversion, and how UTF-8 carries lines and characters to
  bytes.
- `linker/` — symbol resolution and reachability over object files, the
  binding-composition algebra and its laws, the engine's binding and
  frame-descriptor checks, the engine's code rewrite (framed bound calls
  widened, offsets shifted), the mono stamp table, code layout (a blob's
  decoded items split into pieces, the call-relaxation fixpoint, the
  layout pass and each function's code emission), the table walk, the
  binding-label renderer and the map sidecar's records, and link error
  messages. The instruction decoder is not part of this crate: layout and
  the rewrite take a blob's decoded items as plain values.
- `lsp/` — the language server's document store, position conversion
  between the toolchain's positions and the protocol's UTF-16 positions,
  semantic-token packing, the JSON-RPC envelope, the session lifecycle,
  how several language services share one server (capability merge,
  token relocation, document binding), and the protocol's data shapes.
- `source_path.rs` — lexical path folding and relative paths.
- `names.rs` — sorted name lists shared by the linker and the document
  store.

`app/` holds the wire side: serde encodings of the protocol shapes and the
map sidecar, and the JSON-RPC encoders.
