# panda

The verified core of a small distributed SQL database that replicates its
commands with Raft and speaks the PostgreSQL wire protocol.

- `src/` — the library, verified with Verus:
  - `wire.rs`: big-endian integers, byte buffers, and the trusted calls into
    `bytes`, `byteorder`, `memchr`, `postgres-protocol` and `std::str::from_utf8`;
  - `pg/protocol.rs`: the wire codec (message framing and parsing) and its laws;
  - `pg.rs`: what a connection answers to each client message;
  - `cli.rs`: the command-line grammar and its laws;
  - `raft.rs`, `raft/storage.rs`: the Raft log model and the decisions of the
    log storage (keys, membership, start state, snapshots) and their laws;
  - `plan.rs`, `cmd.rs`, `data.rs`: statements, plans and commands.
- `tests/` — tests of the library on concrete values.
- `app/` — the program around it: argument parsing with clap, the RocksDB log
  store and snapshot files, the Raft node and its network, and the TCP server.
