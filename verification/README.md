# pggraph

A graph projection engine for relational tables, with its behaviour stated in
contracts that Verus proves.

- `src/` is the library: node, edge and filter stores, the codecs and runs that
  an artifact is assembled from, path searches (eager, and in pages whose
  candidates a caller judges), traversal, components, and the engine that ties
  them to pending changes.
- `tests/` runs the library, with the outside crates linked.
- `app/` is ordinary Rust around the library: files, source queries,
  projections, settings, and figures in mebibytes.

What is not proved stands in `bitmap.rs`, `active_bits.rs`, `mapped_bytes.rs`,
`scan_codec.rs`, `text.rs`, `limits.rs` and `resource.rs`, as
wrappers and specifications of calls into `roaring`, `bitvec`, `memmap2`,
`bincode`, `xxhash-rust` and the standard library.
