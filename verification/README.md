# scry3

A stock-Kythe wrapper for AOSP-scale code walks. The serving table is built by
Kythe's `write_tables`, and every cross-reference, edge and node query is
answered by Kythe's own serving code. scry3 adds the orchestration of indexing,
an index from human names to tickets, and a fast path over a warm server.

The crate's logic is a library that is verified with Verus; the program around
it does the I/O.

- `src/` — the library.
  - `text`, `wire`, `json`: text, the proto wire format, and JSON values.
  - `kzip`, `peek`, `filter`, `archive`: compilation units, their encoding, and
    which entries of a `.kzip` archive are read and written.
  - `ticket`, `marked_source`, `nameindex`: tickets, names, and the name index.
  - `indexer`, `stream`, `serving`: which units are indexed and how, how a run
    is resumed and folded in batches, and how tables are built.
  - `query`, `callgraph`, `repl`, `http`: what is asked of Kythe, and what is
    made of its replies.
- `app/` — the command line: archives, processes, threads and sockets.
- `tests/` — tests of the library.

The library asks for what it needs and is given it: a `UnitReader` names the
next entry of an archive, a `CallGraph` the next ticket whose neighbours are
wanted, and a `Response` the next piece of an HTTP response.

Public functions whose names start with `lemma_` state what holds of the library
as a whole, such as that an archive reads back as the units it was written of,
that a name that was found is looked up to its ticket, and that a call graph is
a forest.
