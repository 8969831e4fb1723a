//! Snapshots of the state machine.
use vstd::prelude::*;
use vstd::string::StringExecFns;

use super::config::ClusterConfig;
use super::config::Members;
use super::primitives::LogIndex;
use super::primitives::Term;
use crate::text;

verus! {

/// The point in the log a snapshot covers, plus the cluster configuration active at that point.
///
/// The configuration travels with the snapshot because the compacted prefix may contain the
/// `ConfigChange` entry that established it. Without it, a node restarting from this snapshot
/// would not know its own membership before it starts replaying the surviving log entries.
#[derive(Debug, PartialEq, Eq)]
pub struct SnapshotMeta {
    /// Index of the last entry folded into the snapshot. Entries at or below it are discarded
    /// from the log.
    pub last_index: LogIndex,
    /// Term of the entry at `last_index`, used for the log matching check.
    pub last_term: Term,
    /// Membership in force as of `last_index`.
    pub config: ClusterConfig,
}

impl Clone for SnapshotMeta {
    fn clone(&self) -> (copy: Self)
        ensures
            copy.last_index == self.last_index,
            copy.last_term == self.last_term,
            copy.config@ == self.config@,
    {
        SnapshotMeta {
            last_index: self.last_index,
            last_term: self.last_term,
            config: self.config.clone(),
        }
    }
}

/// Metadata plus the serialized state machine it describes.
#[derive(PartialEq, Eq)]
pub struct Snapshot {
    pub meta: SnapshotMeta,
    pub data: SnapshotData,
}

/// What a snapshot stands for.
#[verifier::ext_equal]
pub struct SnapshotView {
    pub last_index: nat,
    pub last_term: nat,
    pub config: Members,
    pub data: Seq<u8>,
}

impl View for Snapshot {
    type V = SnapshotView;

    open spec fn view(&self) -> SnapshotView {
        SnapshotView {
            last_index: self.meta.last_index.value as nat,
            last_term: self.meta.last_term.value as nat,
            config: self.meta.config@,
            data: self.data@,
        }
    }
}

impl Clone for Snapshot {
    fn clone(&self) -> (copy: Self)
        ensures
            copy@ == self@,
    {
        Snapshot { meta: self.meta.clone(), data: self.data.clone() }
    }
}

/// Serialized state machine bytes.
///
/// A newtype rather than a bare `Vec<u8>` so it cannot be swapped with any other buffer at a call
/// site. The consensus core treats the contents as opaque; only the `StateMachine` implementation
/// knows how to interpret them.
#[derive(PartialEq, Eq)]
pub struct SnapshotData {
    bytes: Vec<u8>,
}

impl View for SnapshotData {
    type V = Seq<u8>;

    closed spec fn view(&self) -> Seq<u8> {
        self.bytes@
    }
}

impl Clone for SnapshotData {
    fn clone(&self) -> (copy: Self)
        ensures
            copy@ == self@,
    {
        let bytes = self.bytes.clone();
        assert(bytes@ =~= self.bytes@);
        SnapshotData { bytes }
    }
}

impl SnapshotData {
    /// Wraps already-serialized state machine bytes.
    pub fn new(bytes: Vec<u8>) -> (data: Self)
        ensures
            data@ == bytes@,
    {
        SnapshotData { bytes }
    }

    /// Borrows the serialized bytes.
    pub fn as_bytes(&self) -> (bytes: &[u8])
        ensures
            bytes@ == self@,
    {
        self.bytes.as_slice()
    }

    /// Consumes the wrapper and yields the serialized bytes.
    pub fn into_bytes(self) -> (bytes: Vec<u8>)
        ensures
            bytes@ == self@,
    {
        self.bytes
    }

    /// How the data is shown in traces: the length instead of the contents, so that logging a
    /// `Snapshot` does not dump the entire state machine into the trace output.
    pub fn debug(&self) -> (s: String)
        ensures
            s@ == "SnapshotData(<"@ + text::decimal(self@.len()) + " bytes>)"@,
    {
        text::render_prefixed("SnapshotData(<", self.bytes.len() as u64).concat(" bytes>)")
    }
}

} // verus!
