# xtask

The conformance gates of a layered BACnet workspace, as a library whose rules
are proved with Verus, and a small program that runs them.

Five gates, in the order they run:

- **size**: no hand-written file over 200 lines, documentation included;
- **licence**: every file kind that carries a notice opens with the
  copyright line and the SPDX identifier within its first four lines;
- **arch**: every crate of the layer table exists and depends only on the
  seam and on the siblings the table allows it, and no crate is ungoverned;
- **purity**: the pure layers depend on the seam alone and name no I/O,
  clock, logging or tracing path outside a comment;
- **deps**: no OpenTelemetry dependency outside the adapter, no `cc` build
  dependency, and nothing in the resolved graph that links a native library.

Each gate reports how many items it examined, and fails when it examined
nothing.

## Layout

- `src/` — the library, verified. `text` and `path` say what `str::lines`,
  `trim_start`, `contains`, `Path::file_name` and `Path::extension` mean and
  compute them; `scan` holds the findings, the verdict and path order; each
  gate has a module of its own; `metadata` parses what cargo prints, with
  `serde_json` behind one trusted wrapper, and reads the packages out of it.
  Every gate's `run` is specified by a tally over its input, and each module
  proves when its gate passes.
- `app/main.rs` — finds the workspace, walks the tree, reads the files, runs
  `cargo metadata`, and hands what it read and what cargo printed to the
  library.
- `tests/` — the gates against workspaces that are wrong, and exact outcomes.
