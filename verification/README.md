# open_wal

A single-writer, append-only write-ahead log, written and proved in Verus.

A log is a directory of segment files of fixed size. Each segment starts with a
header and holds framed records with dense sequence numbers (LSNs) and CRC-32C
checksums; zeros fill the rest. The library decides everything about such a log
and does no I/O itself:

- opening a directory, with recovery from crashes and detection of damage,
- appending records and committing them, over as many segments as they need,
- reclaiming the segments that a snapshot has made superfluous,
- replaying the records from any LSN on.

Each operation asks its caller for one file operation at a time and is told what
came of it. `app/` does these operations on a file system.

## Layout

| | |
|---|---|
| `src/record.rs`, `src/segment.rs` | the formats of records, headers and file names |
| `src/recovery.rs` | recovery of one segment |
| `src/open.rs`, `src/wal.rs`, `src/reader.rs` | opening, writing, reclaiming and replaying a log |
| `src/image.rs` | what recovery makes of a segment after each kind of damage |
| `src/disk.rs`, `src/reopen.rs`, `src/history.rs`, `src/grouping.rs` | what holds of a directory as a whole, through commits, checkpoints, crashes and replays |
| `src/fuzzing.rs`, `src/scenario.rs`, `src/script.rs` | hooks and generators for fuzzing |
| `src/harness.rs` | the decisions of the crash and power-cut harnesses |
| `app/` | the log on a file system, the fuzz targets and the harnesses |
