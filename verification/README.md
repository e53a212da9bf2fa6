# kv6

An in-memory key-value server that speaks the Redis protocol (RESP), with a
small log-structured storage engine beside it. The library under `src/` is
written in Verus: each public function states what it does in `requires` /
`ensures` over a mathematical model, and Verus proves it.

## Layout

- `src/resp.rs`, `src/codec.rs`: RESP values, their model, and the wire
  format: encoding, incremental decoding, and the round-trip law.
- `src/store/`: the keyspace (strings, bit strings, lists, hashes, sets,
  sorted sets), expiry, per-key versions, scanning, and snapshots; `laws.rs`
  states the laws that span operations (a read gives back a write, deletion,
  expiry, rename, flush, restore of a snapshot).
- `src/cmd/`: command dispatch, one module per command family, and MULTI /
  EXEC / WATCH transactions (`transaction.rs`). `dispatch_outcome` is the
  model of one request; `handle_command_at` is proved against it.
- `src/client.rs`, `src/pubsub.rs`: per-connection state and publish /
  subscribe bookkeeping.
- `src/lsm/`: Bloom filter, memtable, SSTable builder and reader.
- `src/text.rs`, `src/lexical.rs`, `src/buf.rs`: text, ordering and byte
  helpers used throughout.
- `app/`: the server program: sockets, the clock-driven expiry task, files,
  logging, and the sorted-set commands whose scores are floating point.
- `tests/`: tests run against the compiled library.

Sorted-set scores are held in the library as `u64` order keys; `app/` maps an
`f64` score to its key and back.
