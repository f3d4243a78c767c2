# dts-lsp

A language server for Devicetree sources. It finds the definitions of labels
and macros, lists the references to a label, and renames labels in all files
that are connected by `#include` and `/include/`.

- `src/` is the library: the index of the files, the answers to an editor's
  requests, and which files are read along with an opened one. It is written in
  Verus. Its functions state what they do. Only which path comes back for an
  address, and which address for a path, is left open: both differ from one
  system to another. What is proved of the whole stands in `src/laws.rs`, `src/reach.rs`,
  `src/soundness.rs`, `src/tracking.rs` and `src/undo.rs`.
- `app/` is the server itself: it reads files and speaks the protocol.
- `tests/` runs the library with the real parser.

Syntax trees come from `tree-sitter` with the grammar of
`tree-sitter-devicetree`, addresses from the `url` crate as `tower-lsp` exports
it. What the library relies on of them is stated in `src/syntax.rs` and
`src/url.rs`.
