# kagi

A transactional key-value store: a multi-version table in memory, a write-ahead log, and levels of
immutable sorted tables that are compacted in the background. The store is written in Verus: what
each function does is stated in its contract and proved.

## Layout

`src/` is the verified library.

| Module | What is in it |
| --- | --- |
| `coding`, `key`, `error`, `options` | numbers as bytes, orders of encoded keys, errors, options |
| `storage`, `memtable` | versions of a key, the table in memory, its snapshots and what it forgets |
| `transaction` | timestamps, who sees whose writes, the transaction table, commit and abort |
| `block`, `table` | data blocks, filters, indexes, tables, the caches of blocks and open tables |
| `merging_iter` | sorted tables as one |
| `version` | the files of each level, edits, which files to compact, what a compaction keeps |
| `wal` | log records, segments, the reader, the manifest |
| `db` | the store: reads and writes, flushes, compactions, opening |
| `workload` | the records and decisions of a benchmark |

Keys and values travel through the library as byte strings. How keys compare is up to an
implementation of `key::KeyOrder`, and where table files lie to one of `table::TableStore`. The
library does no input or output: it hands out the bytes that go to the log and to the manifest, and
the jobs that are to be done in the background.

`app/` puts the store on disk: files, locks, threads, typed keys and values, the `kgdump` tool and
the benchmark. `tests/` holds the tests of the library.

## What is proved

Besides what single functions return and change, the library proves laws that span them, among
them:

- what is written to a log, a table, a block, a filter, a manifest or a record is read back
  (`segment::lemma_log_reads_back`, `log_record::lemma_record_round_trip`,
  `checkpoint::lemma_manifest_round_trip`, the contracts of `block_table`);
- what the log hands out, put at the ends of the files of its segments, holds all that was appended
  and handed over, so that commits, aborts and checkpoints are read back from there whatever was
  logged after them (`wal::files`, `db::durability`);
- a transaction reads its own writes and what was committed before it started, and nothing that
  others have not committed or commit later (of those whose versions stay marked with their start:
  nothing that they commit after it looked who was in progress); of two that write the same key the
  first one to commit wins; aborting takes back what was written (`db::isolation`);
- flushes and compactions keep a version sound and change no value
  (`contents::lemma_compaction_sound`, `lemma_compaction_keeps_values`, `lemma_flush_sound`,
  `flush::lemma_flush_keeps_values`, `lemma_flush_keeps_reads`);
- a table is cut into blocks where they are full, and the entries of a compaction into files where
  their tables are (`block_table::blocks_of`, `outputs::split_at`); an edit keeps and adds every
  file that it should, in order (`builder::lemma_saved_level`, `lemma_edit_keeps_order`);
- no file is compacted twice at a time (`selection::lemma_no_file_twice`), and a compaction can be
  finished after flushes that were done in between (`db::overlap`);
- a store that is opened again goes on with the files that it had (`startup::lemma_reopened`).

What the library takes on trust of other crates stands in the functions marked `external_body`,
each with a comment that says what is claimed.
