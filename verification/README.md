# duw

Disk usage, streamed to your browser. The library in `src/` holds what the
program decides and computes, verified with Verus; `app/` is the program around
it: the walker's threads, file access, the HTTP server and the command line.

- `tree` is the scanned tree. Sizes are aggregated up to the root with every
  insertion, so the tree is coherent while a scan is still running. Listings,
  treemaps, searches, file types, largest files and duplicate candidates are
  read from it.
- `scan` turns directory listings into tree entries and keeps the state of a
  scan and of a rescan.
- `dupes` finds duplicates in three stages: by size, by a window at each end, by
  contents. Contents are hashed with `blake3`.
- `snapshots` compares a saved scan with the current one.
- `excludes` holds the exclude patterns, matched by `globset`.
- `server` decides what a request gets: its limits, its filter, its answer, or
  its refusal.
- `cli`, `fsext`, `demo` hold the rules for arguments, for platform metadata and
  for the synthetic tree.
- `text`, `order`, `sums` are small tools for strings, sorting and totals.

Public proof functions whose names begin with `law_` state what holds across
several functions. Functions marked `external_body`, and the `assume_specification`
in `text`, are the calls into other crates and the standard library; their doc
comments say what is believed of them.
