# relly

The storage layer of a small relational database engine, with its logic
proved correct by Verus.

## Layout

- `src/` — the verified library.
  - `memcmpable` — an encoding of byte strings whose byte-wise order is the
    order of the strings, with its round trip and order preservation proved.
  - `tuple` — tuples of byte strings encoded one element after another; the
    encoding decodes back and keeps the element-wise order. `Pretty` renders a
    tuple for reading.
  - `bsearch` — binary search over an index range through a comparison
    closure.
  - `slotted` — slotted pages: a header, a pointer array and slot data in one
    buffer. Insertion, resizing and removal keep the page well formed, keep
    every byte of it accounted for, and change the slots exactly as stated.
  - `disk` — page ids and page arithmetic of the heap file.
  - `buffer` — the buffer pool: frames, the clock-sweep eviction, and the page
    table. Disk transfers are left to the caller, which is told which frame to
    fill and which page to write back; what a page holds across evictions,
    installs, writes and flushes is proved unchanged.
  - `btree` — the meta page and node headers of the B+tree, and its search
    modes.
  - `table` — what inserting a record writes into a table and its unique
    indexes.
  - `query` — the scan and filter executors, each step of which turns an
    entry from the B+tree into a row or ends the scan.
- `tests/` — tests of the library on concrete values.
- `app/` — the file-backed parts: the heap file, the buffer pool manager that
  performs the reads and writes the library asks for, and the `Debug` form of
  a tuple.
