# simonkv

A Bitcask-style key-value store: every `set` and `delete` appends a
checksummed record to a log, and an in-memory key directory points at the
latest live record of every key.

## Layout

- `src/` is the verified library.
  - `record.rs`: the record format, its encoder and decoder, and the facts
    that tie them together (decoding an encoded record gives it back; a record
    cut short reads as truncated; decoding never looks past its record).
  - `scanner.rs`: walks a log record by record.
  - `replay.rs`: what a log means, as the key directory its replay builds.
  - `keydir.rs`: the key directory, a hash map beside a list of its keys.
  - `store.rs`: the store's state, opening it from a log, committing writes,
    locating and reading back values, and compaction records.
  - `laws.rs`: read-after-write, reads give the latest write of a history,
    torn-tail recovery, reopening, and compaction (keeps the contents, never
    grows the log, is idempotent), proved over the specifications above.
  - `checksum.rs`, `text.rs`, `bigendian.rs`, `options.rs`, `error.rs`.
- `app/` is the program: it owns the log file, performs the reads, writes,
  syncs, truncation and renames the library asks for, and runs the demo.
- `tests/` drives the library over an in-memory log.
