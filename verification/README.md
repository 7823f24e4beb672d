# lsm_kv_store

A minimal persistent key-value store built on a log-structured merge tree,
written in Verus: the store's logic is proved against its contracts.

## Layout

- `src/` — the verified library
  - `keys.rs` — the lexicographic order of byte-string keys
  - `entries.rs` — sorted runs of entries (values or tombstones), the maps
    they stand for, binary search, merging and filtering
  - `memtable.rs` — the in-memory table with its byte count
  - `frame.rs` — length-prefixed frames: the write-ahead log and the data
    block of a table file, with crash-tail recovery
  - `codec.rs` — the `bincode` encodings of records and indexes
  - `sstable.rs` — the table file format: writer, reader, lookups, scans
  - `wal.rs` — log entries and replaying them into a memtable
  - `names.rs` — table file names and reading their ids back
  - `engine.rs` — the store's in-memory state and its rules: lookups over
    the memtable and the tables (newest first), listing, flushing,
    compaction and the manifest
  - `properties.rs` — what holds across operations: reads give back writes,
    flushing and compaction keep the store's contents, listings list the
    live entries
  - `error.rs` — the store's errors
- `app/` — the program: files on disk (log, tables, manifest), the command
  line, and the serde forms of what is written to disk
- `tests/` — tests of the library, including the store's scenarios run with
  the files held in memory

## Design notes

- The memtable keeps its entries in a `Vec` sorted by key, searched by a
  verified binary search, rather than in a `BTreeMap`. vstd specifies
  `BTreeMap` only for key types whose `Ord` it knows to be a total order;
  the keys here are `Vec<u8>`, for which it states no such order, so the
  map's contents could not be reasoned about. The sorted `Vec` makes the
  order an invariant the proofs carry (`sorted` in `entries.rs`).
- The memtable's byte count is the bytes of the keys and values it holds:
  a key is counted once, however often it is overwritten or deleted.
- Compaction keeps the tombstones it merges while a table older than the
  merged ones remains (such a table may hold a key they delete), and drops
  them otherwise.
- Opening the store takes the manifest with the contents of its table
  files; the engine opens them newest first (reverse manifest order),
  passing over missing files. Where every file is present the readers are
  then in step with the manifest (`KvStore::in_step`), and every operation
  keeps them so. For a store in step whose tables this library wrote,
  `lemma_reopen_same_tables` (in `properties.rs`) shows that opening again
  from the same manifest and files gives back the same readers, so reads
  take newer tables over older ones as before the restart.
- Compaction keeps every read where the tables of the compacted level are
  the newest (`lemma_compaction_keeps_reads`, for tables this library
  wrote, with distinct paths in the manifest). That holds while levels
  never rise from older to newer entries and no table is shallower than
  the compacted level (`lemma_newest_level`); flushing and compacting the
  shallowest level keep that order (`lemma_levels_ordered_kept`).
  Compacting a level while a shallower, newer table exists puts the merged
  table first and can change reads, as in the original design.
