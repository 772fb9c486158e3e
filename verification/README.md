# rustdb

A small relational database: slotted pages with a buffer pool, a B+ tree index, a
page-level and a table-level write-ahead log, tables with typed columns, and a JSON query
interface served over TCP.

- `src/` is the library, verified with Verus: the page and header formats, the slotted
  page, the LRU page cache, the B+ tree and its file, the two logs and their files, the
  tables and their files, the query parser, the JSON answers, and the steps the index and
  the database take. Each public function states what it does in its contract; the
  `law_*` proof functions state what holds across functions (what a read gives back after
  a write, what a file gives back after it is written, that replaying a log twice changes
  nothing more).
- `tests/` runs the library on concrete values.
- `app/` is the server: files, sockets, the job queue, and the loops that drive the
  library's steps between reads and writes.
