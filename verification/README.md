# Strenor

An embedded, in-process key-value engine: typed structures (bytes, lists, hashes, sets
and sorted sets), expirations, an append-only log with crash recovery and compaction,
self-checked snapshots, and all-or-nothing transactions. The engine is written in Verus:
what each operation does is stated in its contract, and proved.

## Layout

- `src/` is the verified engine.
  - `store` and its parts hold the operations; `model` says what each of them does to the
    model of a store.
  - `mutate` holds the mutations of the state, `record` and `replay` their records and
    what these come to, `log` the frames of the append-only log, `compact` its
    compaction, `snapshot` the snapshots.
  - `zset` and `score` rank the members of sorted sets; `sorted_map`, `order`, `ranges`,
    `bytes`, `text`, `crc` and `expiry` are the parts beneath.
  - `classic` is the plain engine: bytes and expirations only, with snapshots of the first
    version.
  - `laws` states and proves what holds of the whole: of snapshots, of the log and its
    compaction, of transactions, and of any run of operations.
- `app/` is ordinary Rust around the engine: the lock, the log file, and the bindings for
  Node.
- `tests/` runs the engine.

## The log file

The engine does no I/O. A store with a log holds what it owes to the log file as a
`LogWrite`: what stays of the file, the bytes that follow, and whether the file must then
be forced to the disk. What several operations owe adds up, so the caller may take it after
any of them, and carries it out before it takes the next. `app/engine.rs` does so under its
lock, with every mutation.

A key that has expired is taken out as if it were deleted, and the log records it, so that
replaying the log gives exactly what the store held. Reads and sweeps can take such keys
out too. In `app/engine.rs` they do not write: what they owe goes to the file with the next
mutation or on closing, and until then the file holds those keys, as expired. Loading a
snapshot owes nothing to the log.

## Scores

A score is a 64-bit floating-point number, held as its IEEE 754 bits and ordered by the
total order of that standard. The engine compares scores and never adds them: an increment
is handed the sum.

## Time

Every operation that depends on the time exists twice: under its own name, with the time
of the system clock, and with `_at` behind its name, with the time as an argument.
