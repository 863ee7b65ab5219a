# windirscope

The verified core of a disk-usage analyser, written in Verus.

A scan builds an arena of directory nodes; each directory keeps its
largest files by name and aggregates the rest, and a bottom-up pass
gives every node the total size of its subtree. Views of a finished
tree (a force-directed graph, the inputs of a treemap, the root's
children, the largest directories), the rules that decide whether a
path may be deleted, the update of the tree after a deletion, and the
rounds of exact-duplicate detection are computed from it.

Layout:

- `src/` — the library. Its functions carry contracts that Verus proves,
  except the small trusted items (marked `external_body` or
  `assume_specification`) through which it calls std and `xxhash-rust`;
  their contracts are assumed, as their doc comments say:
  - `tree.rs` — the arena, full paths (collected as a path buffer does on
    the platform, whose main separator is read from std), aggregation,
    and the laws on totals
  - `topk.rs` — keeping the largest files of a directory
  - `scanner.rs` — the coordinator of a parallel scan
  - `listing.rs` — ordering by size, root children, largest directories
  - `graph.rs`, `treemap.rs` — the graph view and the treemap inputs
  - `graph_shape.rs` — the laws on the graph's shape
  - `safety.rs`, `prune.rs` — deletion rules and tree updates
  - `paths.rs` — what std's path parsing gives on Unix and on Windows,
    for the path shapes the rules rely on
  - `duplicates.rs` — the duplicate-detection rounds (XXH3 hashing)
  - `commands.rs`, `cli.rs` — front-end and command-line decisions
  - `text.rs` — character-level string helpers
- `tests/` — tests run against the compiled library.
- `app/` — the program around it: threads and channels of a scan, file
  system access, the command line, the desktop commands, and the
  floating-point treemap layout.
