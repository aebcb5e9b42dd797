# pulsearc-db

An embedded, ordered key-value store: a memtable over a skip list, a write-ahead log,
sorted tables with Bloom filters and optional Snappy compression, a block cache, merging
iterators, compaction, repair and teardown.

`src/` is the library, verified with Verus. Its functions state in `requires` and
`ensures` what they need and what they do; public proof functions named `law_*` state what
holds of the library as a whole. `tests/` runs it. `app/` holds files on disk, threads and
locks around the library.

Each module is one layer:

| module | what it holds |
|---|---|
| `coding`, `crc32c`, `hash`, `text`, `slice`, `status` | bytes, checksums, numbers, errors |
| `comparator`, `format` | the order of keys, internal keys |
| `block`, `filter`, `filter_block`, `table`, `snappy` | the format of tables |
| `log`, `write_batch` | the log and the batches in it |
| `skiplist`, `memtable` | updates in memory |
| `db_iter`, `merging_iter`, `two_level_iter` | iterators, and what a reader sees |
| `cache`, `table_cache`, `env`, `filename` | open tables, blocks, files |
| `db_impl` | writes, reads, recovery, flushes, compactions |
| `repair`, `destroy` | damaged databases, deleting a database |
