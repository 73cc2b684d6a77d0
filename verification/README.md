# rdbms

A small storage engine whose logic is verified with Verus: slotted pages with
checksums, a write-ahead log with redo recovery, a system catalog, heap tables,
a B+Tree index, write transactions, a small SQL layer and static extensions.

Layout:

- `src/` — the verified library. `types` (ids, values, errors), `bytes`,
  `codec`, `listcodec` (little-endian encodings and their parsers), `page`,
  `vfs`, `wal`, `recovery`, `catalog`, `index`, `tx`, `durability` (what a
  commit leaves for recovery), `sqlparse` (lexer and parser), `binary64` (integer-to-double conversion and double equality on
  bit patterns), `sql` (execution), `ext_abi`, `extension`, `android`,
  `legacy` (the first in-memory model).
- `tests/` — tests run against the compiled library, with in-memory files.
- `app/` — the command-line program: the file-system VFS, SQL text with
  decimal literals, the JNI and C-layout boundary types, and the JSON file form
  of the legacy model.
