//! The vocabulary of the protocol: identifiers, the log, the membership, snapshots, and messages.
pub mod address;
pub mod config;
pub mod log;
pub mod message;
pub mod node_map;
pub mod primitives;
pub mod quorum;
pub mod snapshot;

pub use address::SocketAddr;
pub use config::ClusterConfig;
pub use config::ConfigError;
pub use config::Membership;
pub use log::Log;
pub use log::LogEntry;
pub use log::LogPayload;
pub use log::MergeOutcome;
pub use log::SuffixDisposition;
pub use log::TermLookup;
pub use message::AppendEntries;
pub use message::AppendEntriesResponse;
pub use message::InstallSnapshot;
pub use message::InstallSnapshotResponse;
pub use message::Message;
pub use message::RequestVote;
pub use message::RequestVoteResponse;
pub use message::Vote;
pub use primitives::LogIndex;
pub use primitives::NodeId;
pub use primitives::Term;
pub use snapshot::Snapshot;
pub use snapshot::SnapshotData;
pub use snapshot::SnapshotMeta;
