# diskbytes_core

The core of a disk-usage viewer, written in Verus: every function under `src/`
is verified against its contract.

- `src/scan/` — the arena tree of a scan: growing it, rolling up totals and times,
  listing children largest first, names and paths, and surgery (taking nodes out
  without a new scan). `surgery_laws.rs` and `weights.rs` state what holds of the
  tree as a whole.
- `src/snapshots/` — what a scan is reduced to, the comparison of two snapshots,
  and the steps of the snapshot store.
- `src/turbo/` — the decoder of NTFS run lists.
- `src/layout/` — which shapes a canvas layout draws, in which order and colour
  family, and when it has to leave something out.
- `src/shell.rs` — which requests of the shell commands are answered, with which
  path, and with which words they are refused.
- `src/text.rs` — the few functions of the standard library that are trusted.

`app/` is ordinary Rust around the library: files, the clipboard and the shell,
the types that are serialised, and the floating-point geometry of the layouts.
`tests/` runs the library.
