# diffie

Snapshots of a file tree, the differences between them, and a watch over a tree
as it changes. Every function of the library states in its contract what it
returns or changes, and Verus proves it.

A snapshot holds metadata and a checksum for every file, and for every directory
a checksum over what stands directly in it. A merge and a watch take the checksum
of a directory anew over the files in it alone.

## Layout

- `src/path.rs`, `path_map.rs`, `order.rs`, `text.rs`: paths as lists of
  components, maps in path order, text.
- `src/node.rs`, `digest.rs`, `xattrs.rs`: what is known about one path.
- `src/tree.rs`, `snapshot.rs`, `progress.rs`: building and merging snapshots.
- `src/codec.rs`: snapshot files.
- `src/diff.rs`, `compare.rs`: differences.
- `src/bubble.rs`, `monitor.rs` and `src/monitor/`: keeping a snapshot current.
- `src/debounce.rs`, `ignore.rs`: which changes are told, and when.
- `src/browse.rs`, `explorer.rs`, `display.rs`, `panels.rs`: the interactive view.
- `src/acl.rs`: access control lists.
- `src/report.rs`: what the tools say.
- `src/laws.rs`: what holds across operations; laws of one module stand at its
  end.
- `app/`: the tools `dscan`, `dshow`, `dwatch` and `faclaudit`, which read the
  file system and the terminal and leave every decision to the library.

## What is trusted

Calls into other crates stand in small wrappers with contracts that are believed:
XXH3, SHA-256, MD5 and BLAKE3 (`digest.rs`), bincode and zstd (`codec.rs`), glob
patterns (`ignore.rs`), dates (`display.rs`), and the reading of UTF-8
(`text.rs`).
