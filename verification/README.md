# seqlog

An embedded append-only sequence log store, written in Verus.

Records are identified by ascending sequence numbers (`u64`) and read in sequence
order. A store can be seen as a map from sequence numbers to arbitrary bytes that
grows at its end, and from which entries can be dropped at either end.

## Layout

- `src/` is the verified library. It decides what is done with the files of a store,
  encodes and decodes their bytes, and checks them. It does no I/O: each operation says
  what it wants read or written and takes the outcome back.
- `app/` puts files, locks and threads around it: `SeqLog`, `SeqLogReader` and
  `SeqLogSyncer` on a directory.
- `tests/` run the library on directories that are kept in memory.

## Storage

A store is a directory with a `LOCK` file, data files, and an index file for each data
file. Data and index files are named after the sequence number of their first entry,
with 20 digits: `00000000000000000100.data`, `00000000000000000100.index`.

A data file consists of entries. Each entry consists of length (2 bytes), checksum (2
bytes of the CRC32), and payload. The maximum payload length is 65535.

An index file stores sparse indexes: one offset (8 bytes) for every 1024 entries of its
data file. All numbers are little-endian.

## What is proved

`src/model.rs` ties a log to the bytes of its files and to the entries that both stand
for, and states what each operation does to those entries:

- appending adds the given entries under the next sequence numbers and changes no other;
  a write that failed is undone;
- rotating changes no entry, purging drops only entries before the given sequence
  number, truncating drops exactly those from it on;
- opening a store gives back the log that was left, also when its index file lags behind;
- a search finds every entry, and a reader gives out what was written, in order;
- only entries count as synchronized whose data files were synchronized to disk with them,
  whatever is appended, rotated, purged and truncated meanwhile.

`src/store.rs` adds which files are retained, `src/syncer.rs` what a synchronization asks
for. Taken on trust are the results of `crc32fast::hash`, `Arc::strong_count`
and `String::push`.
