# raft

A Raft consensus library whose code is held to contracts that Verus proves, and a replicated
key-value store on top of it.

## Layout

- `src/` is the library.
  - `types/`, `state.rs`, `persistent.rs`, `node.rs`: the protocol. A `Node` consumes events and
    returns commands, and touches no socket, no file, and no clock. `model.rs` states what it does as
    functions on mathematical values, and `inputs.rs` what follows from its inputs alone.
  - `storage/`: what durable storage promises, an implementation in memory, and how state is laid out
    over files and put together again after a crash.
  - `runtime.rs`, `server.rs`, `waiters.rs`, `routes.rs`: a node with timers, storage, and a state
    machine, and the callers that wait for it.
  - `kv.rs`, `client_api.rs`, `peer_spec.rs`, `transport.rs`, `text.rs`, `time.rs`: the key-value
    store and what the program around the library needs decided.
  - `safety/`: why a cluster of these servers is safe.
- `tests/` runs the library.
- `app/` is the program: command line, files, sockets, and HTTP.

## What is proved

Every function meets its contract and does not panic. Of a cluster as a whole, `safety/cluster.rs`
states and proves Election Safety, Leader Append-Only, Log Matching, Leader Completeness, State
Machine Safety, and that replicas do not diverge. Messages may be lost, delayed, repeated, and
reordered, servers may crash at any time, and the membership may change by one server at a time. The
module says under which conditions.

## What is trusted

The contracts of the calls into `serde_json`, `rand`, and the system clock, each of which stands in a
small function with a comment that says what is claimed of it. An implementation of `Storage` or of
`StateMachine` outside `src/` is trusted to do what those traits ask.
