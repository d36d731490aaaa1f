# rustkv

A replicated key-value store on Raft, written in Verus: the consensus core, the
state machine, the durable log, the wire formats' framing and the HTTP API's
decisions are executable Rust with contracts that are proved, and so is what a
cluster of such nodes promises.

## What is proved

A node is a state machine without I/O. `RaftNode` takes an event (a client's
write or read, a request, a reply, a timer) and the time, and leaves behind disk
writes and effects for its driver. Its state is modelled by `NodeModel`
(`src/raft/model.rs`); every handler's contract says that the new state is that
of the model's transition, writes and effects included.

On top of the model, `src/raft/promises.rs` states what holds of every run of a
cluster, whatever the network does to messages, whichever nodes crash (in the
middle of an event too) and restart, and however the configuration changes by
single-server steps:

- at most one leader per term;
- committed entries are the same everywhere and are never lost;
- a confirmed write stands from then on, whoever leads;
- state machines that have committed equally far are in the same state;
- a granted linearizable read reflects everything that was committed anywhere
  before it was asked for;
- a node votes for at most one candidate per term, restarts included;
- whatever reaches a node is something it can take;
- wherever a crash interrupts a node's disk writes, the disk opens again.

Durability of the files, call by call and over any sequence of calls, is in
`src/raft/durability.rs`, exactly-once application of tokened writes in
`src/dedup.rs`, per-node laws in `src/raft/laws.rs` and `src/raft/safety.rs`.
That a node sends to the members of its configuration and to nobody else is in
`src/raft/reach.rs`.

## Layout

- `src/` is the verified library. `raft/` holds the node (`node.rs`), its model
  (`model.rs`), storage, log replay, membership, bounded batches and snapshot
  chunks (`batch.rs`, `chunks.rs`), and the transports; `store.rs`,
  `kv.rs`, `api.rs` and `config.rs` the service around it. `raft/history.rs`,
  `agreement.rs`, `progress.rs`, `ties.rs`, `moves.rs`, `rounds.rs`, `reads.rs`
  and `cluster.rs` are the agreement proof, from a cluster's history down to the
  node's transitions.
- `tests/` runs the library: unit tests, and clusters on a simulated network in
  virtual time.
- `app/` is the server: sockets, files, timers, JSON.

## Running a node

Configuration is by environment variables; see `src/config.rs`. With no
`RUSTKV_PEERS` the node is a cluster of its own.

| Method   | Path              | Behaviour                                         |
| -------- | ----------------- | ------------------------------------------------- |
| `GET`    | `/{key}`          | `200` with the stored JSON, `404` if absent; linearizable unless `?stale=true` |
| `PUT`    | `/{key}`          | `201` once committed, `400` if the body is not JSON |
| `DELETE` | `/{key}`          | `204` once committed                              |
| `GET`    | `/cluster/status` | this node's raft status                           |
| `GET`    | `/cluster/members` | the configuration in effect                      |
| `PUT`    | `/cluster/members/{id}` | `201` once the member is added              |
| `DELETE` | `/cluster/members/{id}` | `204` once the member is removed            |
