# lsm_kv

A small LSM-tree key-value store, verified with Verus.

- `src/` is the library. It works on byte buffers: the memtable (`memtable`),
  the write-ahead log record format and replay (`wal`, `record`), the sorted
  table format with its writer and reader (`sstable`), the key order (`keys`),
  and the engine that layers them (`engine`). Verus proves the contracts of
  the library's functions and the laws the store keeps (log replay rebuilds
  the memtable and reports where the valid records end, a written table reads
  back what was written, a flush and a restart leave every read unchanged).
  A few small functions are trusted rather than proved, each marked
  `#[verifier::external_body]` and each holding one outside call: the
  CRC-32 of `crc32fast::hash`, the `{:?}` text of a name, the display text
  of an I/O error, an I/O error of kind `UnexpectedEof`, and the decoding of
  ASCII bytes into a `String`. The error messages themselves are built and
  stated in verified code.
- `app/` is the program around it: it keeps the log file and the table files
  of a data directory, and offers the command line
  `lsm <dir> put|get|delete|flush|stats|bench`.
- `tests/` drives the library, the engine over an in-memory set of files.

After a crash, the log is cut back to its valid records before new ones are
appended, so a write whose log record was synced survives the next restart.

CRC-32 checksums come from the `crc32fast` crate.
