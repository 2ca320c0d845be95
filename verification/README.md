# uniseq

A workspace of Markdown pages and journals, kept as plain files: pages live in
`pages/` (with `___` encoding the page hierarchy in file names), dated notes live
in top-level stream folders as `YYYY_MM_DD.md`, and everything else (blocks,
references, the index, search) is derived from the text of those files.

The library in `src/` is written in Verus, and each function is proved against its
contract:

- `domain/`: page identities and paths, the block parser (`parse_blocks`), the
  page cache with its incoming references, the read API and search ranking, the
  planning of renames, moves, merges and deletes, transaction manifests, and the
  session's reconciliation of file-system changes.
- `parser.rs`, `extract.rs`, `front_matter.rs`: the document parser (front matter,
  entries, `[[Page]]` and `#Page` references, tasks, compatibility issues).
- `index.rs`, `index_build.rs`, `query.rs`: the index of parsed documents and its
  queries (page views, open tasks, the timeline and text search).
- `writer.rs`: the text edits behind every write (journal appends, span edits,
  task toggles, renames, asset moves, front matter updates).
- `engine.rs`: the events reported after writes and scans.

Laws that relate several functions are public proof functions whose names start
with `law_`.

`app/` is the ordinary Rust around the library: reading and writing files, the
file watcher, and the session and engine loops that hand plain values to the
library. `tests/` exercises the library on concrete inputs.
