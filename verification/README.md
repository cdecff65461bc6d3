# drydb

An embedded, read-only database: a builder writes a file of sorted tables with secondary
indexes once, and any number of readers open it, look keys up and scan ranges inside a memory
budget. The library is written in Verus: every function in `src/` is verified against its
contract, except for the few wrappers around outside calls listed under "What is trusted".

## Layout

- `src/format/`: the file format as functions on bytes: header, catalog, pages, references.
- `src/model.rs`: what a tree on pages is.
- `src/encoding/`: key orders and digests, and the laws they have to keep.
- `src/builder/`: appending rows, sorting them inside a buffer, packing pages, writing files.
- `src/store.rs`, `src/directory.rs`, `src/cache/`, `src/roots.rs`, `src/budget.rs`: reading pages on
  a budget.
- `src/btree/`, `src/query/`, `src/index.rs`, `src/blob.rs`: lookups, scans, counts, values.
- `src/db/`: opening a file; `src/db/laws.rs` states that what a build wrote is what is read,
  `src/db/values.rs` where a value is and what reading it there gives,
  `src/db/kinds.rs` which errors a caller's mistake and a damaged file give.
- `src/verify/`: the whole-file check; `src/verify/laws.rs` states that a built file passes it,
  `src/verify/whole.rs` that a file that passes it holds the trees that reading relies on.
- `app/`: files, memory maps and the standard library's I/O traits around the library.
- `tests/`: the library at work on concrete values.

## What is trusted

The calls into `zstd-safe`, a few calls into the standard library, and the declared type
`std::io::Error`. Each is marked `external_body` or `assume_specification`, with a comment that
says what is claimed of it.
