# deadlock_detector

A static deadlock detector for Rust programs. It reads the sources of a
program and its `Cargo.toml`, walks the program from `main` (following
spawned threads and calls into the program's library), records every lock
acquisition with its thread and block, and builds a lock graph in which a
cycle is a possible deadlock.

The library is verified with Verus:

- `text`: byte-string helpers (split, replace, lines, block ids).
- `lock_graph`: the graph nodes and edges, and the petgraph operations the
  detector uses, each with the contract it relies on.
- `detector`: adding an acquisition to the lock graph and the depth-first
  search for lock and read/write cycles.
- `symbol_table`: the variables of a block with their ids and types.
- `syntax`: tree-sitter parses held as plain values, and the tree structure
  rebuilt from them.
- `items`: the functions and `impl` blocks of a source file.
- `project`: the program's files, the manifest, and the walk from `main`.
- `report`: the JSON bug report.

`app/main.rs` is the command line program: `deadlock_detector <dir>
<Cargo.toml>`. It walks the directory, reads the files, and feeds the
acquisitions to the lock graph on a second thread, printing each deadlock.
