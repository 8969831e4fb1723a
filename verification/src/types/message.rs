//! The messages that travel between nodes.
use vstd::prelude::*;

use super::log;
use super::log::EntryView;
use super::log::LogEntry;
use super::primitives::LogIndex;
use super::primitives::NodeId;
use super::primitives::Term;
use super::snapshot::Snapshot;
use super::snapshot::SnapshotView;

verus! {

/// RequestVote RPC arguments (section 5.2).
#[derive(Clone, Copy, Debug, PartialEq, Eq, Structural)]
pub struct RequestVote {
    /// Term the candidate is standing for.
    pub term: Term,
    pub candidate_id: NodeId,
    /// Last index in the candidate's log, used for the up-to-date check.
    pub last_log_index: LogIndex,
    /// Term of the entry at `last_log_index`.
    pub last_log_term: Term,
}

/// RequestVote RPC response.
#[derive(Clone, Copy, Debug, PartialEq, Eq, Structural)]
pub struct RequestVoteResponse {
    /// The voter's current term, so a stale candidate can step down.
    pub term: Term,
    pub vote: Vote,
}

/// Outcome of a RequestVote decision.
#[derive(Clone, Copy, Debug, PartialEq, Eq, Structural)]
pub enum Vote {
    Granted,
    Denied,
}

/// AppendEntries RPC arguments (section 5.3). Also serves as the heartbeat, in which case
/// `entries` is empty.
#[derive(Debug)]
pub struct AppendEntries<Cmd> {
    pub term: Term,
    pub leader_id: NodeId,
    /// Index immediately preceding `entries`. The follower rejects the request unless its own log
    /// matches at this position.
    pub prev_log_index: LogIndex,
    /// Term the leader expects to find at `prev_log_index`.
    pub prev_log_term: Term,
    pub entries: Vec<LogEntry<Cmd>>,
    /// The leader's commit index, which lets the follower advance its own.
    pub leader_commit: LogIndex,
}

/// AppendEntries RPC response.
#[derive(Clone, Copy, Debug, PartialEq, Eq, Structural)]
pub enum AppendEntriesResponse {
    /// The follower's log now matches the leader up to `match_index`.
    Accepted { term: Term, match_index: LogIndex },
    /// The leader's term is stale, or the log consistency check at `prev_log_index` failed. No
    /// match index is implied.
    Rejected { term: Term },
}

impl AppendEntriesResponse {
    /// The responder's current term, which is present in every variant.
    pub fn term(&self) -> (term: Term)
        ensures
            term == match *self {
                AppendEntriesResponse::Accepted { term: t, .. } => t,
                AppendEntriesResponse::Rejected { term: t } => t,
            },
    {
        match self {
            AppendEntriesResponse::Accepted { term, .. } => *term,
            AppendEntriesResponse::Rejected { term } => *term,
        }
    }
}

/// InstallSnapshot RPC arguments (section 7).
///
/// The whole snapshot travels in one message. The `offset` and `done` fields from the paper,
/// which chunk a large snapshot across several RPCs, are not implemented.
pub struct InstallSnapshot {
    pub term: Term,
    pub leader_id: NodeId,
    pub snapshot: Snapshot,
}

/// InstallSnapshot RPC response.
#[derive(Clone, Copy, Debug, PartialEq, Eq, Structural)]
pub enum InstallSnapshotResponse {
    /// The snapshot was installed, or the follower had already committed past it. Either way the
    /// leader may advance `next_index` and `match_index` to `last_index`.
    Installed { term: Term, last_index: LogIndex },
    /// The leader's term is stale.
    Rejected { term: Term },
}

impl InstallSnapshotResponse {
    /// The responder's current term, which is present in every variant.
    pub fn term(&self) -> (term: Term)
        ensures
            term == match *self {
                InstallSnapshotResponse::Installed { term: t, .. } => t,
                InstallSnapshotResponse::Rejected { term: t } => t,
            },
    {
        match self {
            InstallSnapshotResponse::Installed { term, .. } => *term,
            InstallSnapshotResponse::Rejected { term } => *term,
        }
    }
}

/// Every message that can travel between nodes, request and response alike.
pub enum Message<Cmd> {
    RequestVote(RequestVote),
    RequestVoteResponse(RequestVoteResponse),
    AppendEntries(AppendEntries<Cmd>),
    AppendEntriesResponse(AppendEntriesResponse),
    InstallSnapshot(InstallSnapshot),
    InstallSnapshotResponse(InstallSnapshotResponse),
}

/// What AppendEntries arguments stand for.
#[verifier::ext_equal]
pub struct AppendEntriesView<C> {
    pub term: Term,
    pub leader_id: NodeId,
    pub prev_log_index: LogIndex,
    pub prev_log_term: Term,
    pub entries: Seq<EntryView<C>>,
    pub leader_commit: LogIndex,
}

impl<Cmd: View> View for AppendEntries<Cmd> {
    type V = AppendEntriesView<Cmd::V>;

    open spec fn view(&self) -> AppendEntriesView<Cmd::V> {
        AppendEntriesView {
            term: self.term,
            leader_id: self.leader_id,
            prev_log_index: self.prev_log_index,
            prev_log_term: self.prev_log_term,
            entries: log::entry_views(self.entries@),
            leader_commit: self.leader_commit,
        }
    }
}

/// What InstallSnapshot arguments stand for.
#[verifier::ext_equal]
pub struct InstallSnapshotView {
    pub term: Term,
    pub leader_id: NodeId,
    pub snapshot: SnapshotView,
}

impl View for InstallSnapshot {
    type V = InstallSnapshotView;

    open spec fn view(&self) -> InstallSnapshotView {
        InstallSnapshotView {
            term: self.term,
            leader_id: self.leader_id,
            snapshot: self.snapshot@,
        }
    }
}

/// What a message stands for.
#[verifier::ext_equal]
pub enum MessageView<C> {
    RequestVote(RequestVote),
    RequestVoteResponse(RequestVoteResponse),
    AppendEntries(AppendEntriesView<C>),
    AppendEntriesResponse(AppendEntriesResponse),
    InstallSnapshot(InstallSnapshotView),
    InstallSnapshotResponse(InstallSnapshotResponse),
}

impl<Cmd: View> View for Message<Cmd> {
    type V = MessageView<Cmd::V>;

    open spec fn view(&self) -> MessageView<Cmd::V> {
        match *self {
            Message::RequestVote(m) => MessageView::RequestVote(m),
            Message::RequestVoteResponse(m) => MessageView::RequestVoteResponse(m),
            Message::AppendEntries(m) => MessageView::AppendEntries(m@),
            Message::AppendEntriesResponse(m) => MessageView::AppendEntriesResponse(m),
            Message::InstallSnapshot(m) => MessageView::InstallSnapshot(m@),
            Message::InstallSnapshotResponse(m) => MessageView::InstallSnapshotResponse(m),
        }
    }
}

} // verus!
