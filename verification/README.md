# wintermute_queue

Durable first-in first-out queues kept as segmented append-only logs, and the
storage built on them: live and backfill queues with priorities, sharded work for
parallel workers, cancellation marks and named cursors. The library is written
in Verus: what each operation does is stated in its contract and proved.

An operation never touches a file itself. It is a small machine that says which
action comes next (read these bytes, write that record, unlink this segment) and
takes in what came of it. Whoever drives it performs the actions. `app/` does so
on real files; `Disk` does so in memory, where the library proves what whole
operations do.

## Layout

| Where | What |
| --- | --- |
| `src/bytes.rs`, `src/checksum.rs` | byte order, checksums |
| `src/pos.rs`, `src/record.rs`, `src/head.rs`, `src/names.rs` | positions and keys, record frames, the head file, file names |
| `src/io.rs`, `src/disk.rs` | actions and their answers, a directory in memory |
| `src/scan.rs`, `src/reader.rs`, `src/queue.rs` | counting and reading records chunk by chunk, and the records between two positions |
| `src/log.rs`, `src/append.rs`, `src/read.rs`, `src/open.rs` | the state of a log and its operations |
| `src/memory.rs`, `src/recovery.rs` | whole operations over a directory in memory |
| `src/laws.rs`, `src/crash.rs`, `src/faults.rs` | what the operations of a log promise together, also across crashes and failed actions |
| `src/error.rs`, `src/name_map.rs`, `src/cbor.rs`, `src/files.rs`, `src/cursors.rs` | errors, small maps, their encoding, files replaced as a whole, cursors |
| `src/repo.rs`, `src/repo_ops.rs`, `src/backlog.rs`, `src/repo_laws.rs` | the repository backfill queue with its three levels and its marks |
| `src/backfill.rs`, `src/shards.rs`, `src/workers.rs` | the sharded queue of backfilled records, and what workers drain of its logs |
| `src/storage.rs`, `src/storage_open.rs` | where everything is kept, and how it is opened |
| `app/` | the actions on real files, the encoded types, metrics and waiting |
| `tests/` | the library at work |

What is trusted rather than proved: `crc32fast::hash` (it computes the CRC-32
checksum of its bytes), `ciborium` (maps of names and numbers can be written, and
read back as themselves), `rand::random` (nothing is claimed of it), and that
`std::io::Error` is an error.
