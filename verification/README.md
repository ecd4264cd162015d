# replicated_wal

A crash-safe, segment-based write-ahead log, replicated across a cluster by Raft,
with its logic verified by Verus.

- `src/` is the verified library.
  - `wal_core`: entries with checksums, segment files, the checkpoint, the WAL.
    `wal_core::durability` states what holds across an append, a truncation, a
    restart or a crash, `wal_core::history` what holds after any run of them, with
    failures among them, and `wal_core::power` what a loss of power leaves.
  - `wal_replication`: cluster configuration, durable term and vote, the
    replicated log, snapshots and the Raft node. `raft::recovery` and
    `raft::history` state what a restart gives back, `raft::consensus` and
    `raft::voting` what the nodes promise each other.
  - `wal_server`: the server's arguments and HTTP routes.
  - `storage`: the boundary to the file system. The library hands out lists of
    file actions and takes their outcome back; it never touches a file itself.
- `tests/` runs the library on an in-memory disk and an in-memory cluster.
- `app/` is the server around the library: the actor that runs a node, gRPC,
  HTTP, metrics, and the real file system.
