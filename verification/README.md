# Sediment

A key-value store in the manner of a log-structured merge tree: writes go to a
write-ahead log and to a sorted table in memory, and are flushed from there to a
sorted table in a file. The name is for how such a store lays data down in ever
denser layers.

The library under `src/` holds the logic of the store, proved with Verus. It
touches no file: each operation says what has to be read or written, and takes
up what came of it. `app/` does the reading and writing.

| module             | what it holds                                            |
|--------------------|----------------------------------------------------------|
| `order`            | the order of keys                                        |
| `bytes`, `text`    | numbers as bytes and as text                             |
| `paths`            | paths as byte strings                                    |
| `reader`           | a source of bytes that may fail                          |
| `record`, `run`    | the encoding of one record, and of several in a row      |
| `memtable`         | what a table in memory promises, and a skip list         |
| `index`, `sstable` | sorted tables in files and their sparse index            |
| `wal`              | the write-ahead log                                      |
| `db`               | the store                                                |
| `laws`             | what holds of log, tables and store as a whole           |

The functions that are believed without proof are the three calls into `rand` in
`memtable/skiplist.rs`, of whose results nothing is claimed.
