//! An implementation of the Raft consensus algorithm.
//!
//! The crate is layered so that the protocol itself stays free of I/O.
//!
//! `Node` is a pure state machine: it consumes events (a timeout, an incoming message, a client
//! submission), returns the `Command`s that must be carried out, and never touches a socket or a
//! clock. That makes every protocol decision reproducible from a sequence of inputs alone. What it
//! does is stated in `model` as functions on mathematical values, and `inputs` says what follows from
//! the inputs of a node alone.
//!
//! `Runtime` supplies what `Node` deliberately lacks: timers, durable `Storage`, and a
//! `StateMachine` to apply committed commands to. `Server` adds the callers that wait for an answer
//! and the addresses of the peers. Sockets, files, and threads are left to the program around this
//! library.
//!
//! `laws` says from the outside what these operations are for. `safety` says what holds of a cluster
//! of such servers as a whole, and why.
//!
//! Section references in the documentation point at the Raft paper and Diego Ongaro's dissertation.
pub mod client_api;
pub mod command;
pub mod inputs;
pub mod kv;
pub mod laws;
pub mod model;
pub mod node;
pub mod peer_spec;
pub mod persistent;
pub mod routes;
pub mod runtime;
pub mod safety;
pub mod server;
pub mod state;
pub mod state_machine;
pub mod storage;
pub mod text;
pub mod time;
pub mod transport;
pub mod types;
pub mod waiters;

pub use command::Command;
pub use node::Node;
pub use node::NotLeaderError;
pub use node::Role;
pub use node::SubmitError;
pub use runtime::Event;
pub use runtime::Runtime;
pub use runtime::RuntimeError;
pub use runtime::SnapshotPolicy;
pub use runtime::TimerConfig;
pub use server::Config;
pub use server::MembershipRequest;
pub use server::MembershipResult;
pub use server::Server;
pub use server::ServerError;
pub use state_machine::StateMachine;
pub use storage::LoadedState;
pub use storage::Storage;
pub use storage::memory::MemoryStorage;
