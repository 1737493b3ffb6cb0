# btree

A B+Tree from byte keys to byte values on 8KB slotted pages of a single file, verified with Verus.

- `src/` is the library. It does no input or output: an operation that lacks a page returns a
  request for it, and a sync, flush or snapshot returns the list of file operations to carry out.
- `app/` is the database on real files around the library.
- `tests/` runs the library on files in memory.

## Modules

| Module | What it holds |
|---|---|
| `byte`, `bits`, `key` | integers in buffers, packed flags, the order of keys |
| `layout`, `layout_proof`, `page`, `page_laws` | slotted pages: their bytes, their entries, and the operations on them |
| `items`, `leaf`, `internal` | pages as leaves and as internal pages, and how they split |
| `tree`, `tree_proof` | what a set of pages means as a tree |
| `tree_change`, `tree_climb` | how a change of a leaf carries up to the root |
| `tree_leaves`, `tree_read` | the chain of leaves; lookups and scans when only some pages are at hand |
| `meta`, `files`, `pager`, `plan` | the meta page, files as bytes, pages in memory above a chain of files, and the operations that bring a file up to date |
| `growth`, `climb` | how many pages an insertion takes, and what the tree holds while a split is carried up |
| `db` | the database: lookups, scans, insertions, deletions, overlays, checkpoints |
| `laws` | what holds across operations: reopening, flushing, snapshots, overlays |

## How the contracts read

`Db::sound(disk)` says that the database is a well-formed tree when its files hold the bytes
`disk`, and `Db::holds(disk)` is the map from keys to values that it then stands for. Every
operation says what it does to that map, for whatever files it is used with, and which page it
asks for when one is missing.

Pages are taken as they are read. Lookups, scans and the way down are defined on pages of any
bytes, and say exactly when a slot or a tuple runs out of its page; on well-formed pages they come
to the sorted entries. A leaf that can be read but is not well formed is rebuilt when it is
written to.
