# storagekv

A crash-safe, embedded key-value storage engine built as a log-structured merge tree, verified
with Verus.

- `src/` is the engine: record, table and manifest formats, the memory table, merging, and the
  database as a machine that asks for one file action at a time.
- `src/recovery.rs` states what the files of a database may look like at any moment and proves
  that every crash recovers to the acknowledged writes.
- `app/` does the file work that the engine asks for.
- `tests/` runs the engine on files held in memory.

A write whose record has a payload longer than 64 MiB is refused: its length field could not be
told from garbage when the log is read.

After a crash the database has every write that was acknowledged. It may also have the one write
that the crash interrupted, or the last one that was reported as failed, where its record had
reached the log whole.
