//! What the operations of a node and of what is built around it are for.
//!
//! `model` says step by step what a node does. Here it is said once more from the outside: what an
//! operation answers and changes, in terms of the terms, votes, members, and log entries that it is
//! given, and how the results of operations fit together.
pub mod applying;
pub mod commitment;
pub mod elections;
pub mod membership;
pub mod replication;
pub mod running;
pub mod snapshots;
pub mod stored;
