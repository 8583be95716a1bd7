# kvs

A log-structured key-value store in the Bitcask style, with a line-based
TCP protocol, a client, a server, two storage engines and worker pools.

The library under `src/` is written in Verus and proved:

- `protocol`: the message text (`"stkey\t\tvalue"`, `"gtkey"`, ...), its
  JSON framing, and the proof that a message reads back as written.
- `kvs`: records, the eight-byte-size framing of log files, the in-memory
  index, the decisions of writing (file rotation, throttling), of replaying
  a log at startup and of compaction, and log file names; with the proofs
  that replay finds the frames a writer wrote, rebuilds the index the writes
  built, that a read plan names exactly the bytes a write wrote, and, over
  a history of writes, that a key's read finds its last set and that
  reopening rebuilds the index.
- `store`: the store as a whole, as its log files (the writes each holds),
  its index and its contents, with two invariants: every live key points at
  a set record of its contents, and replaying the log files in order
  rebuilds the index. Both hold for an empty store and are kept by every
  write to the newest file (or a new one after it) and by every compaction
  pass with its renames; compaction leaves the contents unchanged and,
  with log files filled as the writer fills them and records within the
  file size limit, writes no more compacted files than it reads, so it
  never replaces the newest file. From them: a read gives the last value set, a removed key reads as
  absent, and reopening finds the same.
- `server`, `client`: the engine operation each request asks for, the reply
  to each outcome of it, the request for each command line, and what the
  client shows for each reply.
- `sled`: the engine over the sled database, with UTF-8
  decoding of stored values.
- `engine`, `thread_pool`, `logger`, `config`, `error`: the engine and pool
  interfaces, the choice of engine for a data directory, the log-level
  filter, constants and the error type.

`app/` holds what runs around it: the on-disk store with its files, locks
and compaction thread, the pools, the TCP loops and the command-line
programs.
