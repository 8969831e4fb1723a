//! What a node does, as functions on mathematical values.
//!
//! A node is a pure state machine, so each of its entry points is a function from the state before
//! and the event to the state after and the commands for the driver. These functions are stated
//! here over views, where there are no machine integers to overflow and no memory to share, and
//! the executable node is held to them.
use vstd::prelude::*;

use crate::command::CommandView;
use crate::persistent::PersistentView;
use crate::state::LeaderView;
use crate::storage::StoredView;
use crate::types::config::Members;
use crate::types::log;
use crate::types::log::EntryView;
use crate::types::log::LogView;
use crate::types::log::PayloadView;
use crate::types::log::SuffixDisposition;
use crate::types::message::AppendEntriesResponse;
use crate::types::message::AppendEntriesView;
use crate::types::message::InstallSnapshotResponse;
use crate::types::message::InstallSnapshotView;
use crate::types::message::MessageView;
use crate::types::message::RequestVote;
use crate::types::message::RequestVoteResponse;
use crate::types::message::Vote;
use crate::types::node_map;
use crate::types::primitives;
use crate::types::primitives::LogIndex;
use crate::types::primitives::NodeId;
use crate::types::primitives::Term;
use crate::types::quorum;
use crate::types::snapshot::SnapshotView;

verus! {

/// What the state of a role stands for.
#[verifier::ext_equal]
pub enum RoleView {
    /// The leader this node has heard from in its term, if any.
    Follower(Option<NodeId>),
    /// The servers that granted this node their vote in its term.
    Candidate(Set<NodeId>),
    /// How far each peer has come.
    Leader(LeaderView),
}

/// What a node stands for.
#[verifier::ext_equal]
pub struct NodeView<C> {
    pub id: NodeId,
    pub config: Members,
    pub initial_config: Members,
    pub persistent: PersistentView<C>,
    pub commit: LogIndex,
    pub applied: LogIndex,
    pub role: RoleView,
    /// Memberships that took effect and that the driver has not been told of yet.
    pub config_changes: Seq<Members>,
    /// Memberships that committed and that the driver has not been told of yet.
    pub committed_configs: Seq<(Term, LogIndex, Members)>,
    /// A snapshot the state machine has yet to be replaced by.
    pub to_restore: Option<SnapshotView>,
}

/// A state and the commands that go with reaching it.
pub type Step<C> = (NodeView<C>, Seq<CommandView<C>>);

/// A command to send a message.
pub open spec fn send<C>(to: NodeId, message: MessageView<C>) -> CommandView<C> {
    CommandView::Send { to, message }
}

/// An entry that is ready for the state machine.
#[verifier::ext_equal]
pub struct AppliedView<C> {
    pub index: LogIndex,
    pub term: Term,
    pub command: C,
}

impl<C> NodeView<C> {
    /// A node at term 0, following nobody.
    pub open spec fn fresh(id: NodeId, config: Members) -> Self {
        NodeView {
            id,
            config,
            initial_config: config,
            persistent: PersistentView::fresh(),
            commit: LogIndex { value: 0 },
            applied: LogIndex { value: 0 },
            role: RoleView::Follower(None),
            config_changes: Seq::empty(),
            committed_configs: Seq::empty(),
            to_restore: None,
        }
    }

    /// A node that starts from what it finds in storage.
    pub open spec fn restored(id: NodeId, initial_config: Members, stored: StoredView<C>) -> Self {
        let persistent = PersistentView::restored(stored);
        let boundary = LogIndex { value: persistent.log.boundary as u64 };
        NodeView {
            persistent,
            commit: boundary,
            applied: boundary,
            ..NodeView::fresh(id, initial_config)
        }.adopt_latest_config()
    }

    pub open spec fn term(self) -> Term {
        self.persistent.term
    }

    pub open spec fn log(self) -> LogView<C> {
        self.persistent.log
    }

    /// Index of the newest entry.
    pub open spec fn last_index(self) -> LogIndex {
        LogIndex { value: self.log().last_index() as u64 }
    }

    /// Term of the newest entry.
    pub open spec fn last_term(self) -> Term {
        Term { value: self.log().last_term() as u64 }
    }

    /// The term at `index`, or 0 where the log does not know it.
    pub open spec fn term_at(self, index: LogIndex) -> Term {
        if self.log().knows(index.value as int) {
            Term { value: self.log().term_of(index.value as int) as u64 }
        } else {
            Term { value: 0 }
        }
    }

    /// Every other member.
    pub open spec fn peers(self) -> Set<NodeId> {
        self.config.dom().remove(self.id)
    }

    /// The leader to redirect a client to.
    pub open spec fn leader_hint(self) -> Option<NodeId> {
        match self.role {
            RoleView::Follower(leader) => leader,
            _ => None,
        }
    }

    /// The state after stepping down in `term`. The vote is forgotten only on the way to a newer
    /// term.
    pub open spec fn become_follower(self, term: Term, leader: Option<NodeId>) -> Self {
        NodeView {
            persistent: if term.value > self.term().value {
                self.persistent.set_term(term).set_voted_for(None)
            } else {
                self.persistent
            },
            role: RoleView::Follower(leader),
            ..self
        }
    }

    /// The state after hearing from `leader`, who leads `term`.
    pub open spec fn follow(self, term: Term, leader: NodeId) -> Self {
        if term.value > self.term().value {
            self.become_follower(term, Some(leader))
        } else {
            match self.role {
                RoleView::Leader(_) => self,
                _ => NodeView { role: RoleView::Follower(Some(leader)), ..self },
            }
        }
    }

    // ---- Commitment ----
    /// How far `member` is known to have the log: all of it for this node itself, and what was
    /// acknowledged for any other.
    pub open spec fn progress(self, leader: LeaderView, member: NodeId) -> LogIndex {
        if member == self.id {
            self.last_index()
        } else {
            leader.matched_by(member)
        }
    }

    /// The members that are known to have the log through `index`.
    pub open spec fn holders(self, leader: LeaderView, index: nat) -> Set<NodeId> {
        self.config.dom().filter(|member: NodeId| self.progress(leader, member).value >= index)
    }

    /// Whether a majority of the members has the log through `index`.
    pub open spec fn majority_holds(self, leader: LeaderView, index: nat) -> bool {
        quorum::is_quorum(self.holders(leader, index), self.config.dom())
    }

    /// The highest index through which a majority of the members has the log.
    pub open spec fn majority_index(self, leader: LeaderView) -> LogIndex {
        choose|index: LogIndex|
            {
                &&& #[trigger] self.majority_holds(leader, index.value as nat)
                &&& forall|other: nat| #[trigger]
                    self.majority_holds(leader, other) ==> other <= index.value
            }
    }

    /// Whether the uncommitted suffix holds a membership change.
    pub open spec fn has_pending_config_change(self) -> bool {
        log::has_config_change(self.log().suffix_from(primitives::after(self.commit).value as int))
    }

    /// Whether a leader may commit through `index` (section 5.4.2): it is above what is committed,
    /// and its entry belongs to the current term.
    pub open spec fn may_commit(self, index: LogIndex) -> bool {
        &&& index.value > self.commit.value
        &&& self.log().knows(index.value as int)
        &&& self.log().term_of(index.value as int) == self.term().value
    }

    /// The state after committing through `index`. A leader whose own removal has thereby
    /// committed steps down.
    pub open spec fn commit_through(self, index: LogIndex) -> Self {
        let committed = NodeView { commit: index, ..self };
        if !self.config.dom().contains(self.id) && !committed.has_pending_config_change() {
            committed.become_follower(self.term(), None)
        } else {
            committed
        }
    }

    /// The state once a leader has committed all it may.
    pub open spec fn advance_commit(self) -> Self {
        match self.role {
            RoleView::Leader(leader) => if self.may_commit(self.majority_index(leader)) {
                self.commit_through(self.majority_index(leader))
            } else {
                self
            },
            _ => self,
        }
    }

    // ---- Membership ----
    /// The state with `config` in force.
    pub open spec fn set_config(self, config: Members) -> Self {
        NodeView {
            role: match self.role {
                RoleView::Leader(leader) => RoleView::Leader(
                    leader.retarget(
                        self.peers(),
                        config.dom().remove(self.id),
                        self.last_index(),
                    ),
                ),
                role => role,
            },
            config,
            config_changes: self.config_changes.push(config),
            ..self
        }.advance_commit()
    }

    /// The membership that governs a node with these log entries: the newest one in them, or the
    /// snapshot's, or the one the node booted with.
    pub open spec fn config_from(self, entries: Seq<EntryView<C>>) -> Members {
        match log::latest_config(entries) {
            Some(config) => config,
            None => match self.persistent.latest_snapshot {
                Some(snapshot) => snapshot.config,
                None => self.initial_config,
            },
        }
    }

    /// The state with the newest membership of the log in force.
    pub open spec fn adopt_latest_config(self) -> Self {
        let config = self.config_from(self.log().entries);
        if config == self.config {
            self
        } else {
            self.set_config(config)
        }
    }

    /// The membership in force at `index`, ignoring anything appended after it.
    pub open spec fn config_as_of(self, index: LogIndex) -> Members {
        if log::has_config_change(self.log().suffix_from(primitives::after(index).value as int)) {
            self.config_from(self.log().through(index.value as int))
        } else {
            self.config
        }
    }

    // ---- Elections ----
    pub open spec fn election_timeout(self) -> Step<C> {
        match self.role {
            RoleView::Leader(_) => (self, Seq::empty()),
            _ => self.start_election(),
        }
    }

    /// The state of a candidate for the next term that nobody else has voted for yet.
    pub open spec fn stand(self) -> Self {
        NodeView {
            persistent: self.persistent.set_term(
                primitives::next_term(self.term()),
            ).set_voted_for(Some(self.id)),
            role: RoleView::Candidate(set![self.id]),
            ..self
        }
    }

    /// The request for a vote that a candidate sends.
    pub open spec fn vote_request(self) -> RequestVote {
        RequestVote {
            term: self.term(),
            candidate_id: self.id,
            last_log_index: self.last_index(),
            last_log_term: self.last_term(),
        }
    }

    pub open spec fn start_election(self) -> Step<C> {
        let candidate = self.stand();
        if candidate.peers().len() == 0 {
            candidate.become_leader()
        } else {
            let peers = node_map::in_order(candidate.peers());
            (
                candidate,
                Seq::new(
                    peers.len(),
                    |i: int| send(peers[i], MessageView::RequestVote(candidate.vote_request())),
                ).push(CommandView::ResetElectionTimer),
            )
        }
    }

    /// Whether a log with this end is at least as up to date as this node's (section 5.4.1): the
    /// later last-entry term wins, and the longer log breaks a tie on equal terms.
    pub open spec fn is_log_up_to_date(self, term: Term, index: LogIndex) -> bool {
        ||| term.value > self.last_term().value
        ||| term.value == self.last_term().value && index.value >= self.last_index().value
    }

    /// Whether to grant a vote: the candidate's term is not stale, this node has not voted for
    /// somebody else in it, and the candidate's log is at least as up to date.
    pub open spec fn should_grant_vote(self, req: RequestVote) -> bool {
        &&& req.term.value >= self.term().value
        &&& self.persistent.voted_for is None || self.persistent.voted_for == Some(
            req.candidate_id,
        )
        &&& self.is_log_up_to_date(req.last_log_term, req.last_log_index)
    }

    pub open spec fn handle_request_vote(self, from: NodeId, req: RequestVote) -> Step<C> {
        let newer = req.term.value > self.term().value;
        let voter = if newer {
            self.become_follower(req.term, None)
        } else {
            self
        };
        let granted = voter.should_grant_vote(req);
        let after = if granted {
            NodeView {
                persistent: voter.persistent.set_voted_for(Some(req.candidate_id)),
                ..voter
            }
        } else {
            voter
        };
        let response = send(
            from,
            MessageView::RequestVoteResponse(
                RequestVoteResponse {
                    term: after.term(),
                    vote: if granted {
                        Vote::Granted
                    } else {
                        Vote::Denied
                    },
                },
            ),
        );
        (
            after,
            if newer || granted {
                seq![CommandView::ResetElectionTimer, response]
            } else {
                seq![response]
            },
        )
    }

    pub open spec fn handle_request_vote_response(
        self,
        from: NodeId,
        resp: RequestVoteResponse,
    ) -> Step<C> {
        if resp.term.value < self.term().value {
            (self, Seq::empty())
        } else if resp.term.value > self.term().value {
            (self.become_follower(resp.term, None), seq![CommandView::ResetElectionTimer])
        } else {
            match self.role {
                RoleView::Candidate(votes) => {
                    let counted = if resp.vote == Vote::Granted && self.config.dom().contains(
                        from,
                    ) {
                        votes.insert(from)
                    } else {
                        votes
                    };
                    let candidate = NodeView { role: RoleView::Candidate(counted), ..self };
                    if counted.len() >= quorum::majority_of(self.peers().len() + 1) {
                        candidate.become_leader()
                    } else {
                        (candidate, Seq::empty())
                    }
                },
                _ => (self, Seq::empty()),
            }
        }
    }

    // ---- Replication ----
    /// The state of a leader that has just been elected.
    pub open spec fn lead(self) -> Self {
        let persistent = self.persistent.append_entry(
            EntryView { term: self.term().value as nat, payload: PayloadView::NoOp },
        );
        NodeView {
            persistent,
            role: RoleView::Leader(
                LeaderView::fresh(
                    self.peers(),
                    LogIndex { value: persistent.log.last_index() as u64 },
                ),
            ),
            ..self
        }.advance_commit()
    }

    pub open spec fn become_leader(self) -> Step<C> {
        (self.lead(), self.lead().heartbeats())
    }

    pub open spec fn heartbeat_timeout(self) -> Step<C> {
        (self, self.heartbeats())
    }

    /// The replication message for a peer that is next to receive `next`: what the log holds from
    /// there on, or the snapshot where that has been compacted away.
    pub open spec fn replication_message(self, next: LogIndex) -> MessageView<C> {
        if next.value <= self.log().boundary && self.persistent.latest_snapshot is Some {
            MessageView::InstallSnapshot(
                InstallSnapshotView {
                    term: self.term(),
                    leader_id: self.id,
                    snapshot: self.persistent.latest_snapshot->0,
                },
            )
        } else {
            let prev = if next.value == 0 {
                LogIndex { value: 0 }
            } else {
                LogIndex { value: (next.value - 1) as u64 }
            };
            MessageView::AppendEntries(
                AppendEntriesView {
                    term: self.term(),
                    leader_id: self.id,
                    prev_log_index: prev,
                    prev_log_term: self.term_at(prev),
                    entries: self.log().suffix_from(next.value as int),
                    leader_commit: self.commit,
                },
            )
        }
    }

    /// One replication message for each of `peers`.
    pub open spec fn replication(self, leader: LeaderView, peers: Seq<NodeId>) -> Seq<
        CommandView<C>,
    > {
        Seq::new(
            peers.len(),
            |i: int| send(peers[i], self.replication_message(leader.next[peers[i]])),
        )
    }

    /// What a leader sends to every tracked peer.
    pub open spec fn heartbeats(self) -> Seq<CommandView<C>> {
        match self.role {
            RoleView::Leader(leader) => self.replication(
                leader,
                node_map::in_order(leader.next.dom()),
            ).push(CommandView::ResetHeartbeatTimer),
            _ => Seq::empty(),
        }
    }

    /// The state after grafting a leader's entries onto the log.
    pub open spec fn append_entries(self, prev: LogIndex, entries: Seq<EntryView<C>>) -> Self {
        let merged = NodeView {
            persistent: self.persistent.merge_entries(prev.value as nat, entries),
            ..self
        };
        if self.log().conflict(prev.value as nat, entries) is Some || log::has_config_change(
            entries,
        ) {
            merged.adopt_latest_config()
        } else {
            merged
        }
    }

    /// The state after learning how far the leader has committed.
    pub open spec fn learn_commit(self, leader_commit: LogIndex) -> Self {
        if leader_commit.value > self.commit.value {
            NodeView {
                commit: if leader_commit.value <= self.last_index().value {
                    leader_commit
                } else {
                    self.last_index()
                },
                ..self
            }
        } else {
            self
        }
    }

    pub open spec fn handle_append_entries(
        self,
        from: NodeId,
        req: AppendEntriesView<C>,
    ) -> Step<C> {
        if req.term.value < self.term().value {
            (
                self,
                seq![
                    send(
                        from,
                        MessageView::AppendEntriesResponse(
                            AppendEntriesResponse::Rejected { term: self.term() },
                        ),
                    ),
                ],
            )
        } else {
            let follower = self.follow(req.term, req.leader_id);
            if !follower.log().matches(
                req.prev_log_index.value as int,
                req.prev_log_term.value as nat,
            ) {
                (
                    follower,
                    seq![
                        CommandView::ResetElectionTimer,
                        send(
                            from,
                            MessageView::AppendEntriesResponse(
                                AppendEntriesResponse::Rejected { term: follower.term() },
                            ),
                        ),
                    ],
                )
            } else {
                let after = follower.append_entries(
                    req.prev_log_index,
                    req.entries,
                ).learn_commit(req.leader_commit);
                (
                    after,
                    seq![
                        CommandView::ResetElectionTimer,
                        send(
                            from,
                            MessageView::AppendEntriesResponse(
                                AppendEntriesResponse::Accepted {
                                    term: after.term(),
                                    match_index: after.last_index(),
                                },
                            ),
                        ),
                    ],
                )
            }
        }
    }

    /// The state and commands after a leader has recorded an acknowledgement and committed what it
    /// may.
    pub open spec fn acknowledge(self, leader: LeaderView) -> Step<C> {
        let after = NodeView { role: RoleView::Leader(leader), ..self }.advance_commit();
        (
            after,
            if after.role is Leader {
                Seq::empty()
            } else {
                seq![CommandView::ResetElectionTimer]
            },
        )
    }

    pub open spec fn handle_append_entries_response(
        self,
        from: NodeId,
        resp: AppendEntriesResponse,
    ) -> Step<C> {
        let term = match resp {
            AppendEntriesResponse::Accepted { term, .. } => term,
            AppendEntriesResponse::Rejected { term } => term,
        };
        if term.value > self.term().value {
            (self.become_follower(term, None), seq![CommandView::ResetElectionTimer])
        } else if term.value < self.term().value {
            (self, Seq::empty())
        } else {
            match (self.role, resp) {
                (
                    RoleView::Leader(leader),
                    AppendEntriesResponse::Accepted { match_index, .. },
                ) => self.acknowledge(leader.record_success(from, match_index)),
                (RoleView::Leader(leader), AppendEntriesResponse::Rejected { .. }) => (
                    NodeView { role: RoleView::Leader(leader.record_failure(from)), ..self },
                    Seq::empty(),
                ),
                _ => (self, Seq::empty()),
            }
        }
    }

    // ---- Clients ----
    /// The state after a leader has appended an entry of its own.
    pub open spec fn propose(self, payload: PayloadView<C>) -> Self {
        NodeView {
            persistent: self.persistent.append_entry(
                EntryView { term: self.term().value as nat, payload },
            ),
            ..self
        }
    }

    pub open spec fn submit_command(self, command: C) -> Self {
        self.propose(PayloadView::Command(command)).advance_commit()
    }

    pub open spec fn propose_config_change(self, config: Members) -> Self {
        self.propose(PayloadView::ConfigChange(config)).set_config(config)
    }

    /// The state after taking the next committed command, and that command, if there is one.
    /// Entries without a command are passed over, and membership changes among them noted.
    pub open spec fn take_entry_to_apply(self) -> (Self, Option<AppliedView<C>>)
        decreases self.commit.value - self.applied.value,
    {
        if self.applied.value >= self.commit.value {
            (self, None)
        } else {
            let index = LogIndex { value: (self.applied.value + 1) as u64 };
            let next = NodeView { applied: index, ..self };
            if !self.log().retains(index.value as int) {
                (next, None)
            } else {
                let entry = self.log().at(index.value as int);
                let term = Term { value: entry.term as u64 };
                match entry.payload {
                    PayloadView::NoOp => next.take_entry_to_apply(),
                    PayloadView::ConfigChange(config) => NodeView {
                        committed_configs: self.committed_configs.push((term, index, config)),
                        ..next
                    }.take_entry_to_apply(),
                    PayloadView::Command(command) => (
                        next,
                        Some(AppliedView { index, term, command }),
                    ),
                }
            }
        }
    }

    // ---- Snapshots ----
    /// The snapshot of everything applied.
    pub open spec fn snapshot_of(self, data: Seq<u8>) -> SnapshotView {
        SnapshotView {
            last_index: self.applied.value as nat,
            last_term: self.term_at(self.applied).value as nat,
            config: self.config_as_of(self.applied),
            data,
        }
    }

    pub open spec fn compact_to_snapshot(self, data: Seq<u8>) -> Self {
        NodeView {
            persistent: self.persistent.install_snapshot(
                self.snapshot_of(data),
                SuffixDisposition::Retain,
            ),
            ..self
        }
    }

    /// What becomes of the entries above a leader's snapshot: they survive where this log agrees
    /// with it at its boundary (section 7).
    pub open spec fn disposition_for(self, snapshot: SnapshotView) -> SuffixDisposition {
        if self.log().knows(snapshot.last_index as int) && self.log().term_of(
            snapshot.last_index as int,
        ) == snapshot.last_term {
            SuffixDisposition::Retain
        } else {
            SuffixDisposition::Discard
        }
    }

    /// The state after a leader's snapshot has replaced what it covers.
    pub open spec fn install_snapshot(self, snapshot: SnapshotView) -> Self {
        let index = LogIndex { value: snapshot.last_index as u64 };
        let installed = NodeView {
            persistent: self.persistent.install_snapshot(snapshot, self.disposition_for(snapshot)),
            commit: index,
            applied: index,
            ..self
        }.adopt_latest_config();
        NodeView { to_restore: Some(snapshot), ..installed }
    }

    pub open spec fn handle_install_snapshot(
        self,
        from: NodeId,
        req: InstallSnapshotView,
    ) -> Step<C> {
        if req.term.value < self.term().value {
            (
                self,
                seq![
                    send(
                        from,
                        MessageView::InstallSnapshotResponse(
                            InstallSnapshotResponse::Rejected { term: self.term() },
                        ),
                    ),
                ],
            )
        } else {
            let follower = self.follow(req.term, req.leader_id);
            let after = if req.snapshot.last_index <= follower.commit.value {
                follower
            } else {
                follower.install_snapshot(req.snapshot)
            };
            (
                after,
                seq![
                    CommandView::ResetElectionTimer,
                    send(
                        from,
                        MessageView::InstallSnapshotResponse(
                            InstallSnapshotResponse::Installed {
                                term: after.term(),
                                last_index: LogIndex { value: req.snapshot.last_index as u64 },
                            },
                        ),
                    ),
                ],
            )
        }
    }

    pub open spec fn handle_install_snapshot_response(
        self,
        from: NodeId,
        resp: InstallSnapshotResponse,
    ) -> Step<C> {
        let term = match resp {
            InstallSnapshotResponse::Installed { term, .. } => term,
            InstallSnapshotResponse::Rejected { term } => term,
        };
        if term.value > self.term().value {
            (self.become_follower(term, None), seq![CommandView::ResetElectionTimer])
        } else if term.value < self.term().value {
            (self, Seq::empty())
        } else {
            match (self.role, resp) {
                (
                    RoleView::Leader(leader),
                    InstallSnapshotResponse::Installed { last_index, .. },
                ) => self.acknowledge(leader.record_success(from, last_index)),
                _ => (self, Seq::empty()),
            }
        }
    }

    /// Whether every index fits that taking up what this message carries leads to, with room for the
    /// next one. What is turned down, or known already, needs no room.
    pub open spec fn has_room_for(self, message: MessageView<C>) -> bool {
        match message {
            MessageView::AppendEntries(m) => m.term.value >= self.term().value
                && self.log().matches(
                m.prev_log_index.value as int,
                m.prev_log_term.value as nat,
            ) ==> m.prev_log_index.value + m.entries.len() < u64::MAX,
            MessageView::InstallSnapshot(m) => {
                &&& m.snapshot.last_index <= u64::MAX
                &&& m.term.value >= self.term().value && m.snapshot.last_index > self.commit.value
                    ==> m.snapshot.last_index < u64::MAX
            },
            _ => true,
        }
    }

    /// The state and commands after a message has arrived.
    pub open spec fn handle_message(self, from: NodeId, message: MessageView<C>) -> Step<C> {
        match message {
            MessageView::RequestVote(m) => self.handle_request_vote(from, m),
            MessageView::RequestVoteResponse(m) => self.handle_request_vote_response(from, m),
            MessageView::AppendEntries(m) => self.handle_append_entries(from, m),
            MessageView::AppendEntriesResponse(m) => self.handle_append_entries_response(from, m),
            MessageView::InstallSnapshot(m) => self.handle_install_snapshot(from, m),
            MessageView::InstallSnapshotResponse(m) => self.handle_install_snapshot_response(
                from,
                m,
            ),
        }
    }
}

} // verus!
