//! Why the cluster as a whole is safe.
//!
//! `protocol` describes a cluster as Raft knows it: every server with its whole log, nothing
//! compacted, and on the side a record of who voted for whom and what each leader's log was. There
//! the safety of Raft is proved from an invariant, and `steps` shows that every step keeps it.
//!
//! `refine` says when a node of this library, with its compacted log, is a server of that protocol.
//! `handlers` shows that each thing a node does is a number of steps of the protocol, `durable` that
//! its storage keeps up, and `crash` what it comes back with when it crashes halfway. `applying`
//! relates the state machine to the log.
//!
//! `cluster` puts these together: it describes clusters of runtimes of this library, and holds the
//! laws.
pub mod applying;
pub mod cluster;
pub mod crash;
pub mod durable;
pub mod handlers;
pub mod protocol;
pub mod refine;
pub mod steps;
