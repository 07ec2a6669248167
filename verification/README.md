# rustsql

The storage layer of a small SQL database, verified with Verus.

- `src/common` holds what the engines share: values, schemas, errors, ordered maps and sets,
  bytes, text and JSON.
- `src/v1` is an engine that keeps whole tables in memory and in one file each, with one
  transaction at a time.
- `src/v2` is a paged engine: pages, a write-ahead log, a pager, B+ trees, row versions,
  snapshots, locks and the purge of old versions.
- `src/sqlite3` reads and writes SQLite files: varints, records, pages, schema texts, and the
  expressions of indexes.
- `app` is ordinary Rust around the library: files, the clock, floating point, and JSON
  documents of the library's types.
- `tests` run the library with the crates it calls.

The library computes no floating point. Where an expression needs a real number, evaluation
stops with a question; the caller answers it and evaluates again.

Proved laws are public proof functions whose names begin with `law_`.
