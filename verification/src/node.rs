//! A single Raft server.
use vstd::prelude::*;

use crate::command;
use crate::command::Command;
use crate::command::CommandView;
use crate::model;
use crate::model::AppliedView;
use crate::model::NodeView;
use crate::model::RoleView;
use crate::persistent;
use crate::persistent::PersistentState;
use crate::state::Candidate;
use crate::state::Follower;
use crate::state::Leader;
use crate::state::LeaderView;
use crate::storage;
use crate::storage::LoadedState;
use crate::storage::Storage;
use crate::types::address::SocketAddr;
use crate::types::config::ClusterConfig;
use crate::types::config::Members;
use crate::types::config::Membership;
use crate::types::log;
use crate::types::log::LogEntry;
use crate::types::log::LogPayload;
use crate::types::log::MergeOutcome;
use crate::types::log::SuffixDisposition;
use crate::types::log::TermLookup;
use crate::types::message::AppendEntries;
use crate::types::message::AppendEntriesResponse;
use crate::types::message::InstallSnapshot;
use crate::types::message::InstallSnapshotResponse;
use crate::types::message::Message;
use crate::types::message::MessageView;
use crate::types::message::RequestVote;
use crate::types::message::RequestVoteResponse;
use crate::types::message::Vote;
use crate::types::node_map;
use crate::types::primitives::LogIndex;
use crate::types::primitives::NodeId;
use crate::types::primitives::Term;
use crate::types::quorum;
use crate::types::snapshot::Snapshot;
use crate::types::snapshot::SnapshotData;
use crate::types::snapshot::SnapshotMeta;

verus! {

broadcast use {command::lemma_command_views_push, command::lemma_command_views_empty};

/// Why `Node::submit_command` refused a client command: this node is not the leader.
#[derive(Clone, Copy, Debug, PartialEq, Eq, Structural)]
pub struct NotLeaderError {
    /// The leader this node last heard from, so the client can retry there instead of polling the
    /// cluster at random.
    pub leader_hint: Option<NodeId>,
}

impl NotLeaderError {
    /// The message shown to a person.
    pub fn display(self) -> (s: &'static str)
        ensures
            s@ == "not the leader"@,
    {
        "not the leader"
    }
}

/// Why `Node::propose_config_change` refused a membership change.
#[derive(Clone, Copy, Debug, PartialEq, Eq, Structural)]
pub enum SubmitError {
    NotLeader { leader_hint: Option<NodeId> },
    /// An earlier `ConfigChange` is still uncommitted. The single-server-change rule of
    /// dissertation section 4.1 permits only one in flight, because overlapping changes can
    /// produce two disjoint majorities.
    ConfigChangePending,
}

impl SubmitError {
    /// The message shown to a person.
    pub fn display(self) -> (s: &'static str)
        ensures
            s@ == match self {
                SubmitError::NotLeader { .. } => "not the leader"@,
                SubmitError::ConfigChangePending => "a config change is already pending"@,
            },
    {
        match self {
            SubmitError::NotLeader { .. } => "not the leader",
            SubmitError::ConfigChangePending => "a config change is already pending",
        }
    }
}

/// Why `Node::compact_to_snapshot` refused to compact.
#[derive(Clone, Copy, Debug, PartialEq, Eq, Structural)]
pub enum CompactError {
    /// `last_applied` is at or below the current snapshot boundary, so nothing has been applied
    /// since the last compaction.
    NothingToCompact,
}

impl CompactError {
    /// The message shown to a person.
    pub fn display(self) -> (s: &'static str)
        ensures
            s@ == "nothing to compact: last_applied is at or below the snapshot boundary"@,
    {
        "nothing to compact: last_applied is at or below the snapshot boundary"
    }
}

/// The volatile state of Figure 2. Not persisted: both fields restart at the snapshot boundary, or
/// at zero when there is no snapshot, and are rebuilt by replaying the log.
#[derive(Clone, Copy, Debug, PartialEq, Eq, Structural)]
pub struct VolatileState {
    /// Highest index known to be committed, meaning replicated on a majority.
    pub commit_index: LogIndex,
    /// Highest index handed to the state machine.
    pub last_applied: LogIndex,
}

/// The role a node currently occupies, holding the state specific to it.
#[derive(Debug)]
pub enum Role {
    Follower(Follower),
    Candidate(Candidate),
    Leader(Leader),
}

impl View for Role {
    type V = RoleView;

    open spec fn view(&self) -> RoleView {
        match *self {
            Role::Follower(follower) => RoleView::Follower(follower@),
            Role::Candidate(candidate) => RoleView::Candidate(candidate@),
            Role::Leader(leader) => RoleView::Leader(leader@),
        }
    }
}

impl Role {
    /// Whether this is the role of a leader.
    pub fn is_leader(&self) -> (yes: bool)
        ensures
            yes == (self@ is Leader),
    {
        match self {
            Role::Leader(_) => true,
            _ => false,
        }
    }
}

/// A committed entry ready to apply to the state machine.
#[derive(Debug, PartialEq, Eq)]
pub struct Applied<'a, Cmd> {
    pub index: LogIndex,
    /// Term of the entry that actually committed at `index`, which is not necessarily the term the
    /// submitting client observed. Callers key pending client responses on the pair of term and
    /// index, so an unrelated entry written at the same index by a later leader cannot be mistaken
    /// for the original submission.
    pub term: Term,
    pub command: &'a Cmd,
}

impl<'a, Cmd: View> View for Applied<'a, Cmd> {
    type V = AppliedView<Cmd::V>;

    open spec fn view(&self) -> AppliedView<Cmd::V> {
        AppliedView { index: self.index, term: self.term, command: self.command@ }
    }
}

/// What a list of configurations stands for.
pub open spec fn config_views(configs: Seq<ClusterConfig>) -> Seq<Members> {
    Seq::new(configs.len(), |i: int| configs[i]@)
}

/// What a list of committed configurations stands for.
pub open spec fn committed_views(configs: Seq<(Term, LogIndex, ClusterConfig)>) -> Seq<
    (Term, LogIndex, Members),
> {
    Seq::new(configs.len(), |i: int| (configs[i].0, configs[i].1, configs[i].2@))
}

/// A single Raft server, implemented as a pure state machine.
///
/// Every entry point takes an event (a timeout, an incoming message, a client submission), mutates
/// this node's state, and returns the `Command`s the driver must carry out. Nothing here performs
/// I/O or reads a clock, which is what makes the whole protocol deterministically testable.
pub struct Node<Cmd> {
    id: NodeId,
    /// Cluster configuration currently in force, taken from the latest `ConfigChange` in the log,
    /// or from `initial_config` when there is none.
    config: ClusterConfig,
    /// Configuration this node booted with. Serves as the fallback when a rescan finds no
    /// `ConfigChange` in the log and no snapshot to fall back to, which happens after a truncation
    /// removes the only one there was.
    initial_config: ClusterConfig,
    persistent: PersistentState<Cmd>,
    volatile: VolatileState,
    role: Role,
    /// Configurations that took effect on append, before commit. The runtime drains these and
    /// passes them to the transport, so RPCs can reach a newly added peer immediately.
    pending_config_changes: Vec<ClusterConfig>,
    /// Configurations that have just committed. The server drains these to resolve the client
    /// requests that proposed them.
    pending_committed_config_changes: Vec<(Term, LogIndex, ClusterConfig)>,
    /// A snapshot accepted by `handle_install_snapshot` and awaiting the runtime's call to
    /// `StateMachine::restore`. Drained by `take_snapshot_to_restore`.
    pending_snapshot_restore: Option<Snapshot>,
}

impl<Cmd: View> View for Node<Cmd> {
    type V = NodeView<Cmd::V>;

    closed spec fn view(&self) -> NodeView<Cmd::V> {
        NodeView {
            id: self.id,
            config: self.config@,
            initial_config: self.initial_config@,
            persistent: self.persistent@,
            commit: self.volatile.commit_index,
            applied: self.volatile.last_applied,
            role: self.role@,
            config_changes: config_views(self.pending_config_changes@),
            committed_configs: committed_views(self.pending_committed_config_changes@),
            to_restore: storage::snapshot_view(self.pending_snapshot_restore),
        }
    }
}

/// Everything a node consists of, in the open: a node can be taken apart for inspection, and a node
/// in a particular state put together.
pub struct NodeState<Cmd> {
    pub id: NodeId,
    pub config: ClusterConfig,
    pub initial_config: ClusterConfig,
    pub persistent: PersistentState<Cmd>,
    pub volatile: VolatileState,
    pub role: Role,
    pub pending_config_changes: Vec<ClusterConfig>,
    pub pending_committed_config_changes: Vec<(Term, LogIndex, ClusterConfig)>,
    pub pending_snapshot_restore: Option<Snapshot>,
}

impl<Cmd: View> View for NodeState<Cmd> {
    type V = NodeView<Cmd::V>;

    open spec fn view(&self) -> NodeView<Cmd::V> {
        NodeView {
            id: self.id,
            config: self.config@,
            initial_config: self.initial_config@,
            persistent: self.persistent@,
            commit: self.volatile.commit_index,
            applied: self.volatile.last_applied,
            role: self.role@,
            config_changes: config_views(self.pending_config_changes@),
            committed_configs: committed_views(self.pending_committed_config_changes@),
            to_restore: storage::snapshot_view(self.pending_snapshot_restore),
        }
    }
}

impl<Cmd: Clone + View> Node<Cmd> {
    /// Every index fits, copies of commands stand for the same command, and the log starts where
    /// the latest snapshot ends.
    pub open spec fn wf(self) -> bool {
        &&& self@.log().last_index() <= u64::MAX
        &&& log::clone_keeps_view::<Cmd>()
        &&& self@.persistent.consistent()
    }

    /// A fresh node at term 0, starting as a follower with no known leader, as section 5.1
    /// requires.
    pub fn new(id: NodeId, config: ClusterConfig) -> (node: Self)
        requires
            log::clone_keeps_view::<Cmd>(),
        ensures
            node.wf(),
            node@ == NodeView::<Cmd::V>::fresh(id, config@),
    {
        let node = Node {
            id,
            initial_config: config.clone(),
            config,
            persistent: PersistentState::new(),
            volatile: VolatileState {
                commit_index: LogIndex { value: 0 },
                last_applied: LogIndex { value: 0 },
            },
            role: Role::Follower(Follower::new()),
            pending_config_changes: Vec::new(),
            pending_committed_config_changes: Vec::new(),
            pending_snapshot_restore: None,
        };
        assert(node@ =~= NodeView::<Cmd::V>::fresh(id, config@));
        node
    }

    /// A node in the given state.
    pub fn from_state(state: NodeState<Cmd>) -> (node: Self)
        requires
            log::clone_keeps_view::<Cmd>(),
            state@.log().last_index() <= u64::MAX,
            state@.persistent.consistent(),
        ensures
            node.wf(),
            node@ == state@,
    {
        Node {
            id: state.id,
            config: state.config,
            initial_config: state.initial_config,
            persistent: state.persistent,
            volatile: state.volatile,
            role: state.role,
            pending_config_changes: state.pending_config_changes,
            pending_committed_config_changes: state.pending_committed_config_changes,
            pending_snapshot_restore: state.pending_snapshot_restore,
        }
    }

    /// The state this node is in.
    pub fn into_state(self) -> (state: NodeState<Cmd>)
        ensures
            state@ == self@,
    {
        NodeState {
            id: self.id,
            config: self.config,
            initial_config: self.initial_config,
            persistent: self.persistent,
            volatile: self.volatile,
            role: self.role,
            pending_config_changes: self.pending_config_changes,
            pending_committed_config_changes: self.pending_committed_config_changes,
            pending_snapshot_restore: self.pending_snapshot_restore,
        }
    }

    /// Restores a node after a crash: term, vote, and log come from durable storage, and the role
    /// restarts as follower. The active configuration is derived from the restored log rather than
    /// from `initial_config`.
    ///
    /// # Errors
    /// Whatever the storage backend reports while loading, and nothing else.
    pub fn from_storage<S: Storage<Cmd>>(
        id: NodeId,
        initial_config: ClusterConfig,
        storage: &S,
    ) -> (result: Result<Self, S::Error>)
        requires
            log::clone_keeps_view::<Cmd>(),
            storage::log_after(
                storage.stored().snapshot,
                storage.stored().log.entries,
            ).last_index() <= u64::MAX,
        ensures
            match result {
                Ok(node) => {
                    &&& node.wf()
                    &&& node@ == NodeView::restored(id, initial_config@, storage.stored())
                    &&& exists|loaded: LoadedState<Cmd>| #[trigger]
                        storage::may_load::<Cmd, S>(storage, Ok(loaded))
                },
                Err(e) => storage::may_load::<Cmd, S>(storage, Err(e)),
            },
    {
        let persistent = match PersistentState::load(storage) {
            Ok(persistent) => persistent,
            Err(e) => {
                return Err(e);
            },
        };
        // A restored snapshot already covers everything up to its boundary. From zero,
        // take_entry_to_apply would replay entries the restored state machine already reflects,
        // applying them a second time.
        let boundary = persistent.log().snapshot_last_index();
        let mut node = Node {
            id,
            config: initial_config.clone(),
            initial_config,
            persistent,
            volatile: VolatileState { commit_index: boundary, last_applied: boundary },
            role: Role::Follower(Follower::new()),
            pending_config_changes: Vec::new(),
            pending_committed_config_changes: Vec::new(),
            pending_snapshot_restore: None,
        };
        proof {
            let base = NodeView {
                persistent: persistent@,
                commit: boundary,
                applied: boundary,
                ..NodeView::<Cmd::V>::fresh(id, initial_config@)
            };
            assert(node@ =~= base);
        }
        // The restored log may carry a membership this node was unaware of when it booted, so the
        // peer set has to be rebuilt from it.
        node.apply_latest_config_from_log();
        Ok(node)
    }

    /// Flushes pending state to durable storage. The driver must call this before it sends any of
    /// the returned commands, per the durability requirement of section 5.1.
    ///
    /// # Errors
    /// Whatever the storage backend reports. What was not written is kept for a later `save`.
    pub fn save<S: Storage<Cmd>>(&mut self, storage: &mut S) -> (result: Result<(), S::Error>)
        requires
            old(self).wf(),
        ensures
            final(self).wf(),
            final(self)@ == (NodeView { persistent: final(self)@.persistent, ..old(self)@ }),
            match result {
                Ok(()) => {
                    &&& final(storage).stored() == old(self)@.persistent.replay(
                        old(storage).stored(),
                    )
                    &&& storage::wrote::<Cmd, S>(
                        *old(storage),
                        old(self)@.persistent.calls(),
                        *final(storage),
                    )
                    &&& final(self)@.persistent == old(self)@.persistent.cleared(4)
                },
                Err(e) => persistent::save_failed::<Cmd, S>(
                    old(self)@.persistent,
                    *old(storage),
                    e,
                    final(self)@.persistent,
                    *final(storage),
                ),
            },
            old(self)@.persistent.is_clean() ==> result is Ok && *final(storage) == *old(storage),
    {
        self.persistent.save(storage)
    }

    /// This node's identifier.
    pub fn id(&self) -> (id: NodeId)
        ensures
            id == self@.id,
    {
        self.id
    }

    /// Current role: follower, candidate, or leader.
    pub fn role(&self) -> (role: &Role)
        ensures
            role@ == self@.role,
    {
        &self.role
    }

    /// Cluster configuration currently in force.
    pub fn config(&self) -> (config: &ClusterConfig)
        ensures
            config@ == self@.config,
    {
        &self.config
    }

    /// Whether this node is a voting member of the configuration in force.
    pub fn local_membership(&self) -> (membership: Membership)
        ensures
            membership == if self@.config.dom().contains(self@.id) {
                Membership::Member
            } else {
                Membership::NonMember
            },
    {
        self.config.membership_of(self.id)
    }

    /// Read-only view of term, vote, and log. Mutation is internal to `Node`.
    pub fn persistent(&self) -> (persistent: &PersistentState<Cmd>)
        ensures
            persistent@ == self@.persistent,
    {
        &self.persistent
    }

    /// Read-only view of the commit and apply positions. Mutation is internal to `Node`.
    pub fn volatile(&self) -> (volatile: &VolatileState)
        ensures
            volatile.commit_index == self@.commit,
            volatile.last_applied == self@.applied,
    {
        &self.volatile
    }

    /// Every member except this node. Derived from `config` on each call rather than cached, so it
    /// cannot drift out of step with a membership change.
    fn peer_ids(&self) -> (peers: Vec<NodeId>)
        ensures
            peers@ == node_map::in_order(self@.peers()),
            peers@.to_set() == self@.peers(),
            peers@.len() == self@.peers().len(),
    {
        self.config.peer_ids(self.id)
    }

    fn last_log_index(&self) -> (index: LogIndex)
        requires
            self.wf(),
        ensures
            index == self@.last_index(),
    {
        self.persistent.log().last_index()
    }

    fn last_log_term(&self) -> (term: Term)
        ensures
            term == self@.last_term(),
            term.value == self@.log().last_term(),
    {
        self.persistent.log().last_term()
    }

    /// Steps down to follower in `term`, optionally recording the leader.
    ///
    /// The vote is cleared only when moving to a strictly newer term. Stepping down within the
    /// current term, as a candidate does when it hears from the leader of that term, has to keep
    /// the existing vote: this node already voted for itself, and forgetting that would let it vote
    /// a second time in the same term.
    fn become_follower(&mut self, term: Term, leader_id: Option<NodeId>)
        requires
            old(self).wf(),
        ensures
            final(self).wf(),
            final(self)@ == old(self)@.become_follower(term, leader_id),
    {
        if term.value > self.persistent.current_term().value {
            self.persistent.set_term(term);
            self.persistent.set_voted_for(None);
        }
        let mut follower = Follower::new();
        if let Some(id) = leader_id {
            follower.set_leader(id);
        }
        self.role = Role::Follower(follower);
    }

    /// Accepts `leader_id` as the leader of `term`, which is not below this node's term.
    fn follow(&mut self, term: Term, leader_id: NodeId)
        requires
            old(self).wf(),
            term.value >= old(self)@.term().value,
        ensures
            final(self).wf(),
            final(self)@ == old(self)@.follow(term, leader_id),
    {
        if term.value > self.persistent.current_term().value {
            self.become_follower(term, Some(leader_id));
            return ;
        }
        // A candidate that hears from a leader of its own term concedes the election (section
        // 5.2). The vote survives the step-down, since this node's vote for itself in this term
        // remains valid.
        let candidate = match &self.role {
            Role::Candidate(_) => true,
            _ => false,
        };
        if candidate {
            self.become_follower(term, Some(leader_id));
        }
        // The request is from the current leader, so record it for redirection.
        if let Role::Follower(follower) = &mut self.role {
            follower.set_leader(leader_id);
        }
    }

    /// Adopts `config` as the active membership.
    ///
    /// Adds and removes peers in the leader's replication maps to match, and queues the
    /// configuration for the transport so a newly added peer is reachable before the next heartbeat
    /// goes out.
    pub fn set_config(&mut self, config: ClusterConfig)
        requires
            old(self).wf(),
        ensures
            final(self).wf(),
            final(self)@ == old(self)@.set_config(config@),
    {
        let ghost before = self@;
        let old_peers = self.peer_ids();
        let new_peers = config.peer_ids(self.id);
        let last = self.last_log_index();
        if let Role::Leader(leader) = &mut self.role {
            leader.retarget(old_peers.as_slice(), new_peers.as_slice(), last);
        }
        self.config = config.clone();
        self.pending_config_changes.push(config);
        proof {
            assert(self@.config_changes =~= before.config_changes.push(config@));
        }
        // The quorum is computed from the members in force, so removing one lowers the bar. An
        // index that the smaller membership already replicated is committed the moment the change
        // takes effect, without waiting for the next response. Does nothing unless this node is
        // the leader.
        self.advance_commit_index();
    }

    /// The membership that a node with these log entries has: the newest one in the entries, or
    /// the snapshot's, or the one it booted with.
    ///
    /// The snapshot has to come before `initial_config` because compaction may have discarded the
    /// only `ConfigChange` entry that ever existed, and reverting to the boot configuration would
    /// resurrect a membership the cluster has already moved past.
    fn config_from(&self, entries: &[LogEntry<Cmd>]) -> (config: ClusterConfig)
        ensures
            config@ == self@.config_from(log::entry_views(entries@)),
    {
        match log::find_latest_config(entries) {
            Some(config) => config,
            None => match self.persistent.latest_snapshot() {
                Some(snapshot) => snapshot.meta.config.clone(),
                None => self.initial_config.clone(),
            },
        }
    }

    /// Scans the log backward for the newest `ConfigChange` and adopts it.
    ///
    /// Called after a truncation, which may have removed the entry that established the active
    /// configuration, and at startup to recover the configuration from a restored log.
    fn apply_latest_config_from_log(&mut self)
        requires
            old(self).wf(),
        ensures
            final(self).wf(),
            final(self)@ == old(self)@.adopt_latest_config(),
    {
        let config = self.config_from(self.persistent.log().entries());
        if !config.same_members(&self.config) {
            self.set_config(config);
        }
    }

    /// Handles the election timeout firing. Followers and candidates start a new election; a leader
    /// has nothing to do, since it is the reason the timeout should not have fired elsewhere.
    pub fn election_timeout(&mut self) -> (commands: Vec<Command<Cmd>>)
        requires
            old(self).wf(),
            old(self)@.log().last_index() < u64::MAX,
        ensures
            final(self).wf(),
            (final(self)@, command::command_views(commands@)) == old(self)@.election_timeout(),
    {
        match &self.role {
            Role::Leader(_) => Vec::new(),
            _ => self.start_election(),
        }
    }

    fn start_election(&mut self) -> (commands: Vec<Command<Cmd>>)
        requires
            old(self).wf(),
            old(self)@.log().last_index() < u64::MAX,
        ensures
            final(self).wf(),
            (final(self)@, command::command_views(commands@)) == old(self)@.start_election(),
    {
        let ghost before = self@;
        let next_term = self.persistent.current_term().next();
        self.persistent.set_term(next_term);
        self.persistent.set_voted_for(Some(self.id));
        self.role = Role::Candidate(Candidate::new(self.id));
        let ghost candidate = before.stand();
        assert(self@ =~= candidate);
        let peers = self.peer_ids();
        // In a single-node cluster the candidate's own vote is already a majority, and there is no
        // peer to wait for.
        if peers.len() == 0 {
            return self.become_leader();
        }
        let request = RequestVote {
            term: self.persistent.current_term(),
            candidate_id: self.id,
            last_log_index: self.last_log_index(),
            last_log_term: self.last_log_term(),
        };
        let ghost requests = Seq::new(
            peers@.len(),
            |i: int| model::send(peers@[i], MessageView::<Cmd::V>::RequestVote(request)),
        );
        let mut commands: Vec<Command<Cmd>> = Vec::new();
        let mut i: usize = 0;
        while i < peers.len()
            invariant
                i <= peers.len(),
                requests == Seq::new(
                    peers@.len(),
                    |i: int| model::send(peers@[i], MessageView::<Cmd::V>::RequestVote(request)),
                ),
                command::command_views(commands@) == requests.take(i as int),
            decreases peers.len() - i,
        {
            commands.push(Command::Send { to: peers[i], message: Message::RequestVote(request) });
            i = i + 1;
            proof {
                assert(requests.take(i as int) =~= requests.take(i - 1).push(requests[i - 1]));
            }
        }
        commands.push(Command::ResetElectionTimer);
        proof {
            assert(requests.take(i as int) =~= requests);
            assert(request == candidate.vote_request());
            assert(requests =~= Seq::new(
                peers@.len(),
                |i: int|
                    model::send(
                        peers@[i],
                        MessageView::<Cmd::V>::RequestVote(candidate.vote_request()),
                    ),
            ));
        }
        commands
    }

    /// Receiver implementation of the RequestVote RPC (Figure 2).
    pub fn handle_request_vote(&mut self, from: NodeId, req: RequestVote) -> (commands: Vec<
        Command<Cmd>,
    >)
        requires
            old(self).wf(),
        ensures
            final(self).wf(),
            (final(self)@, command::command_views(commands@)) == old(self)@.handle_request_vote(
                from,
                req,
            ),
    {
        let mut reset_timer = false;
        if req.term.value > self.persistent.current_term().value {
            self.become_follower(req.term, None);
            reset_timer = true;
        }
        let vote = if self.should_grant_vote(&req) {
            self.persistent.set_voted_for(Some(req.candidate_id));
            reset_timer = true;
            Vote::Granted
        } else {
            Vote::Denied
        };
        let mut commands: Vec<Command<Cmd>> = Vec::new();
        if reset_timer {
            commands.push(Command::ResetElectionTimer);
        }
        commands.push(
            Command::Send {
                to: from,
                message: Message::RequestVoteResponse(
                    RequestVoteResponse { term: self.persistent.current_term(), vote },
                ),
            },
        );
        proof {
            assert(command::command_views(commands@) =~= old(self)@.handle_request_vote(
                from,
                req,
            ).1);
        }
        commands
    }

    /// Whether to grant the vote. All three conditions of the RequestVote receiver in Figure 2 must
    /// hold: the candidate's term is not stale, this node has not already voted for a different
    /// candidate in that term, and the candidate's log is at least as up to date as this one
    /// (section 5.4.1).
    fn should_grant_vote(&self, req: &RequestVote) -> (grant: bool)
        requires
            self.wf(),
        ensures
            grant == self@.should_grant_vote(*req),
    {
        let term_ok = req.term.value >= self.persistent.current_term().value;
        let vote_ok = match self.persistent.voted_for() {
            None => true,
            Some(id) => id == req.candidate_id,
        };
        let log_ok = self.is_log_up_to_date(req.last_log_term, req.last_log_index);
        term_ok && vote_ok && log_ok
    }

    /// The up-to-date comparison of section 5.4.1: the later last-entry term wins, and the longer
    /// log breaks a tie on equal terms.
    fn is_log_up_to_date(&self, candidate_term: Term, candidate_index: LogIndex) -> (yes: bool)
        requires
            self.wf(),
        ensures
            yes == self@.is_log_up_to_date(candidate_term, candidate_index),
    {
        let term = self.last_log_term();
        let index = self.last_log_index();
        candidate_term.value > term.value || (candidate_term.value == term.value
            && candidate_index.value >= index.value)
    }

    /// Handles a RequestVote response: steps down on a higher term, and becomes leader once the
    /// granted votes form a majority.
    pub fn handle_request_vote_response(
        &mut self,
        from: NodeId,
        resp: RequestVoteResponse,
    ) -> (commands: Vec<Command<Cmd>>)
        requires
            old(self).wf(),
            old(self)@.log().last_index() < u64::MAX,
        ensures
            final(self).wf(),
            (final(self)@, command::command_views(commands@)) == old(
                self,
            )@.handle_request_vote_response(from, resp),
    {
        if resp.term.value < self.persistent.current_term().value {
            return Vec::new();
        }
        if resp.term.value > self.persistent.current_term().value {
            self.become_follower(resp.term, None);
            return reset_election_timer();
        }
        // A vote from a server outside the current configuration must not count. The transport is
        // unauthenticated, so a removed member, or anything able to spoof one, could otherwise
        // supply the deciding vote.
        let membership = self.config.membership_of(from);
        let peers = self.peer_ids().len();
        let dominated = match &mut self.role {
            Role::Candidate(candidate) => {
                match (resp.vote, membership) {
                    (Vote::Granted, Membership::Member) => {
                        candidate.record_vote(from);
                    },
                    _ => {},
                }
                candidate.has_majority_with(peers)
            },
            _ => {
                return Vec::new();
            },
        };
        if dominated {
            self.become_leader()
        } else {
            Vec::new()
        }
    }

    /// Assumes leadership: appends a no-op entry, initializes replication state, and sends the
    /// first round of heartbeats.
    ///
    /// The no-op exists because of the Figure 8 anomaly (section 8). A leader may not commit an
    /// entry from an earlier term by counting replicas, so entries inherited from a predecessor
    /// would otherwise stay uncommitted until new traffic arrives. Committing the no-op, which
    /// belongs to the current term, commits everything before it through the Log Matching Property.
    fn become_leader(&mut self) -> (commands: Vec<Command<Cmd>>)
        requires
            old(self).wf(),
            old(self)@.log().last_index() < u64::MAX,
        ensures
            final(self).wf(),
            (final(self)@, command::command_views(commands@)) == old(self)@.become_leader(),
    {
        self.persistent.append_entry(
            LogEntry { term: self.persistent.current_term(), payload: LogPayload::NoOp },
        );
        let peers = self.peer_ids();
        self.role = Role::Leader(Leader::new(peers.as_slice(), self.last_log_index()));
        // The local log is one of the quorum's votes, so an append can be a majority on its own. In
        // a single-member cluster it always is, and no peer response will ever arrive to trigger
        // the commit decision later.
        self.advance_commit_index();
        self.send_heartbeats()
    }

    /// Handles the heartbeat interval firing. Leaders replicate and restart the timer; every other
    /// role ignores it.
    pub fn heartbeat_timeout(&mut self) -> (commands: Vec<Command<Cmd>>)
        requires
            old(self).wf(),
        ensures
            final(self).wf(),
            (final(self)@, command::command_views(commands@)) == old(self)@.heartbeat_timeout(),
    {
        self.send_heartbeats()
    }

    /// Builds one replication message per tracked peer.
    ///
    /// Each peer gets an AppendEntries carrying everything from its `next_index` onward, prefixed
    /// with the index and term immediately before it so the follower can detect a gap before
    /// accepting anything (section 5.3). A peer whose `next_index` has already been compacted away
    /// gets an InstallSnapshot instead. With nothing to replicate, the AppendEntries is empty and
    /// serves as the heartbeat.
    fn send_heartbeats(&self) -> (commands: Vec<Command<Cmd>>)
        requires
            self.wf(),
        ensures
            command::command_views(commands@) == self@.heartbeats(),
    {
        let leader = match &self.role {
            Role::Leader(leader) => leader,
            _ => {
                return Vec::new();
            },
        };
        let peers = leader.tracked_peers();
        let ghost sends = self@.replication(leader@, peers@);
        let mut commands: Vec<Command<Cmd>> = Vec::new();
        let mut i: usize = 0;
        while i < peers.len()
            invariant
                i <= peers.len(),
                self.wf(),
                peers@.to_set() == leader@.next.dom(),
                sends == self@.replication(leader@, peers@),
                command::command_views(commands@) == sends.take(i as int),
            decreases peers.len() - i,
        {
            assert(peers@.to_set().contains(peers@[i as int]));
            let next_index = match leader.next_index_for(peers[i]) {
                Some(index) => index,
                None => self.last_log_index().next(),
            };
            let message = self.replication_message(next_index);
            commands.push(Command::Send { to: peers[i], message });
            i = i + 1;
            proof {
                assert(sends.take(i as int) =~= sends.take(i - 1).push(sends[i - 1]));
            }
        }
        assert(sends.take(i as int) =~= sends);
        commands.push(Command::ResetHeartbeatTimer);
        commands
    }

    /// The replication message for a peer that is next to receive `next_index`.
    fn replication_message(&self, next_index: LogIndex) -> (message: Message<Cmd>)
        requires
            self.wf(),
        ensures
            message@ == self@.replication_message(next_index),
    {
        // The entry preceding next_index has been compacted away, so no AppendEntries could carry a
        // prev_log_index this leader can still prove. The peer needs the compacted prefix as a
        // snapshot.
        if next_index.value <= self.persistent.log().snapshot_last_index().value {
            if let Some(snapshot) = self.persistent.latest_snapshot() {
                return Message::InstallSnapshot(
                    InstallSnapshot {
                        term: self.persistent.current_term(),
                        leader_id: self.id,
                        snapshot: snapshot.clone(),
                    },
                );
            }
        }
        let prev_log_index = match next_index.prev() {
            Some(prev) => prev,
            None => LogIndex { value: 0 },
        };
        let prev_log_term = self.term_at(prev_log_index);
        let entries = self.entries_from(next_index);
        Message::AppendEntries(
            AppendEntries {
                term: self.persistent.current_term(),
                leader_id: self.id,
                prev_log_index,
                prev_log_term,
                entries,
                leader_commit: self.volatile.commit_index,
            },
        )
    }

    /// Term at `index`, collapsing the unavailable cases to term 0.
    ///
    /// A peer whose next index sits at or below the snapshot boundary is sent a snapshot, so a
    /// compacted index is never asked for. An index past the end is, for instance when probing one
    /// position past the leader's own tail: term 0 never matches a real entry, so the follower
    /// correctly rejects the consistency check.
    fn term_at(&self, index: LogIndex) -> (term: Term)
        requires
            index.value >= self@.log().boundary,
        ensures
            term == self@.term_at(index),
    {
        match self.persistent.log().term_at(index) {
            TermLookup::Known(term) => term,
            TermLookup::Compacted => Term { value: 0 },
            TermLookup::BeyondEnd => Term { value: 0 },
        }
    }

    fn entries_from(&self, start: LogIndex) -> (entries: Vec<LogEntry<Cmd>>)
        requires
            self.wf(),
        ensures
            log::entry_views(entries@) == self@.log().suffix_from(start.value as int),
    {
        log::clone_entries(self.persistent.log().suffix_from(start))
    }

    /// Receiver implementation of the AppendEntries RPC (Figure 2).
    pub fn handle_append_entries(&mut self, from: NodeId, req: AppendEntries<Cmd>) -> (commands:
        Vec<Command<Cmd>>)
        requires
            old(self).wf(),
            req.term.value >= old(self)@.term().value && old(self)@.log().matches(
                req.prev_log_index.value as int,
                req.prev_log_term.value as nat,
            ) ==> req.prev_log_index.value + req.entries.len() <= u64::MAX,
        ensures
            final(self).wf(),
            (final(self)@, command::command_views(commands@)) == old(self)@.handle_append_entries(
                from,
                req@,
            ),
    {
        let ghost before = self@;
        let mut commands: Vec<Command<Cmd>> = Vec::new();
        if req.term.value < self.persistent.current_term().value {
            commands.push(
                append_response(
                    from,
                    AppendEntriesResponse::Rejected { term: self.persistent.current_term() },
                ),
            );
            proof {
                assert(command::command_views(commands@) =~= before.handle_append_entries(
                    from,
                    req@,
                ).1);
            }
            return commands;
        }
        self.follow(req.term, req.leader_id);
        let ghost follower = self@;
        commands.push(Command::ResetElectionTimer);
        if !self.check_log_consistency(req.prev_log_index, req.prev_log_term) {
            commands.push(
                append_response(
                    from,
                    AppendEntriesResponse::Rejected { term: self.persistent.current_term() },
                ),
            );
            proof {
                assert(command::command_views(commands@) =~= before.handle_append_entries(
                    from,
                    req@,
                ).1);
            }
            return commands;
        }
        self.append_entries(req.prev_log_index, req.entries);
        let last = self.last_log_index();
        if req.leader_commit.value > self.volatile.commit_index.value {
            self.volatile.commit_index = if req.leader_commit.value <= last.value {
                req.leader_commit
            } else {
                last
            };
        }
        commands.push(
            append_response(
                from,
                AppendEntriesResponse::Accepted {
                    term: self.persistent.current_term(),
                    match_index: last,
                },
            ),
        );
        proof {
            assert(command::command_views(commands@) =~= before.handle_append_entries(
                from,
                req@,
            ).1);
        }
        commands
    }

    /// Rule 2 of the AppendEntries receiver in Figure 2: whether this log holds `prev_log_term` at
    /// `prev_log_index` (section 5.3, Log Matching).
    fn check_log_consistency(&self, prev_log_index: LogIndex, prev_log_term: Term) -> (ok: bool)
        ensures
            ok == self@.log().matches(prev_log_index.value as int, prev_log_term.value as nat),
    {
        self.persistent.log().matches(prev_log_index, prev_log_term)
    }

    /// Handles an AppendEntries response. A leader advances or backs off the peer's replication
    /// state and recomputes the commit index; a stale term or any other role is ignored.
    pub fn handle_append_entries_response(
        &mut self,
        from: NodeId,
        resp: AppendEntriesResponse,
    ) -> (commands: Vec<Command<Cmd>>)
        requires
            old(self).wf(),
        ensures
            final(self).wf(),
            (final(self)@, command::command_views(commands@)) == old(
                self,
            )@.handle_append_entries_response(from, resp),
    {
        let term = resp.term();
        if term.value > self.persistent.current_term().value {
            self.become_follower(term, None);
            return reset_election_timer();
        }
        if term.value < self.persistent.current_term().value {
            return Vec::new();
        }
        let accepted = match (&mut self.role, resp) {
            (Role::Leader(leader), AppendEntriesResponse::Accepted { match_index, .. }) => {
                leader.record_success(from, match_index);
                true
            },
            (Role::Leader(leader), AppendEntriesResponse::Rejected { .. }) => {
                leader.record_failure(from);
                false
            },
            _ => false,
        };
        if accepted {
            self.advance_commit_index();
            if !self.role.is_leader() {
                return reset_election_timer();
            }
        }
        Vec::new()
    }

    /// The leader to redirect a misdirected client to.
    ///
    /// `None` on a leader, where this node is the answer, and on a candidate, which has not yet
    /// heard from a leader in its term.
    pub fn leader_hint(&self) -> (hint: Option<NodeId>)
        ensures
            hint == self@.leader_hint(),
    {
        match &self.role {
            Role::Follower(follower) => follower.leader_id(),
            _ => None,
        }
    }

    /// Appends a client command to the log and returns the index it landed at. The entry is not yet
    /// committed; the caller learns that through `take_entry_to_apply`.
    ///
    /// # Errors
    /// `NotLeaderError` when this node is not the leader, carrying the leader hint to retry
    /// against.
    pub fn submit_command(&mut self, command: Cmd) -> (result: Result<LogIndex, NotLeaderError>)
        requires
            old(self).wf(),
            old(self)@.log().last_index() < u64::MAX,
        ensures
            final(self).wf(),
            match result {
                Ok(index) => {
                    &&& old(self)@.role is Leader
                    &&& index.value == old(self)@.log().last_index() + 1
                    &&& final(self)@ == old(self)@.submit_command(command@)
                },
                Err(e) => {
                    &&& !(old(self)@.role is Leader)
                    &&& e.leader_hint == old(self)@.leader_hint()
                    &&& final(self)@ == old(self)@
                },
            },
    {
        if !self.role.is_leader() {
            return Err(NotLeaderError { leader_hint: self.leader_hint() });
        }
        let entry = LogEntry {
            term: self.persistent.current_term(),
            payload: LogPayload::Command(command),
        };
        let index = self.persistent.append_entry(entry);
        self.advance_commit_index();
        Ok(index)
    }

    /// Proposes a membership change and returns the index of the `ConfigChange` entry.
    ///
    /// The new configuration governs quorum decisions from the moment it is appended, before it
    /// commits (dissertation section 4.1).
    ///
    /// # Errors
    /// `SubmitError::NotLeader` when this node is not the leader.
    /// `SubmitError::ConfigChangePending` when an earlier change is still uncommitted, which the
    /// single-server-change rule forbids.
    pub fn propose_config_change(&mut self, config: ClusterConfig) -> (result: Result<
        LogIndex,
        SubmitError,
    >)
        requires
            old(self).wf(),
            old(self)@.log().last_index() < u64::MAX,
        ensures
            final(self).wf(),
            match result {
                Ok(index) => {
                    &&& old(self)@.role is Leader
                    &&& !old(self)@.has_pending_config_change()
                    &&& index.value == old(self)@.log().last_index() + 1
                    &&& final(self)@ == old(self)@.propose_config_change(config@)
                },
                Err(SubmitError::NotLeader { leader_hint }) => {
                    &&& !(old(self)@.role is Leader)
                    &&& leader_hint == old(self)@.leader_hint()
                    &&& final(self)@ == old(self)@
                },
                Err(SubmitError::ConfigChangePending) => {
                    &&& old(self)@.role is Leader
                    &&& old(self)@.has_pending_config_change()
                    &&& final(self)@ == old(self)@
                },
            },
    {
        if !self.role.is_leader() {
            return Err(SubmitError::NotLeader { leader_hint: self.leader_hint() });
        }
        if self.has_pending_config_change() {
            return Err(SubmitError::ConfigChangePending);
        }
        let entry = LogEntry {
            term: self.persistent.current_term(),
            payload: LogPayload::ConfigChange(config.clone()),
        };
        let index = self.persistent.append_entry(entry);
        // Quorum calculations must use the new membership from this point on. A leader that kept
        // counting the old majority while the new one is live could commit an entry the new
        // configuration never agreed to.
        self.set_config(config);
        Ok(index)
    }

    /// Whether the uncommitted suffix holds a `ConfigChange`. Enforces the one-change-at-a-time
    /// rule of single-server membership changes.
    fn has_pending_config_change(&self) -> (pending: bool)
        ensures
            pending == self@.has_pending_config_change(),
    {
        // Ask the log for the uncommitted range rather than deriving absolute indexes from iterator
        // positions: after compaction the first retained entry is not index 1, and a pending change
        // would read as committed.
        log::contains_config_change(
            self.persistent.log().suffix_from(self.volatile.commit_index.next()),
        )
    }

    /// How far `member` is known to have the log.
    fn progress(&self, leader: &Leader, member: NodeId) -> (index: LogIndex)
        requires
            self.wf(),
        ensures
            index == self@.progress(leader@, member),
    {
        // This node stores every entry it has appended, so its own log position counts toward the
        // quorum alongside its peers.
        if member == self.id {
            return self.last_log_index();
        }
        match leader.match_index_for(member) {
            Some(index) => index,
            None => LogIndex { value: 0 },
        }
    }

    /// How many members are known to have the log through `index`.
    fn count_holders(&self, leader: &Leader, members: &[(NodeId, SocketAddr)], index: LogIndex) -> (count:
        usize)
        requires
            self.wf(),
            members@.len() == self@.config.dom().len(),
            forall|i: int|
                0 <= i < members@.len() ==> (#[trigger] members@[i]).0 == node_map::in_order(
                    self@.config.dom(),
                )[i],
            self@.config.dom().finite(),
        ensures
            count == self@.holders(leader@, index.value as nat).len(),
    {
        let ghost ids = node_map::in_order(self@.config.dom());
        let ghost through = |member: NodeId| self@.progress(leader@, member).value >= index.value;
        proof {
            node_map::lemma_in_order(self@.config.dom());
            assert(ids.take(0).to_set().filter(through) =~= Set::<NodeId>::empty());
        }
        let mut count: usize = 0;
        let mut i: usize = 0;
        while i < members.len()
            invariant
                self.wf(),
                i <= members@.len(),
                count <= i,
                ids == node_map::in_order(self@.config.dom()),
                node_map::strictly_ascending(ids),
                ids.len() == members@.len(),
                through == (|member: NodeId|
                    self@.progress(leader@, member).value >= index.value),
                forall|k: int| 0 <= k < members@.len() ==> (#[trigger] members@[k]).0 == ids[k],
                ids.take(i as int).to_set().finite(),
                count == ids.take(i as int).to_set().filter(through).len(),
            decreases members.len() - i,
        {
            let holds = self.progress(leader, members[i].0).value >= index.value;
            proof {
                let head = ids.take(i as int);
                let more = ids.take(i + 1);
                assert(members@[i as int].0 == ids[i as int]);
                assert(more =~= head.push(ids[i as int]));
                assert(!head.contains(ids[i as int]));
                node_map::lemma_take_one_more(ids, i as int);
                if holds {
                    assert(more.to_set().filter(through) =~= head.to_set().filter(through).insert(
                        ids[i as int],
                    ));
                } else {
                    assert(more.to_set().filter(through) =~= head.to_set().filter(through));
                }
            }
            if holds {
                count = count + 1;
            }
            i = i + 1;
        }
        proof {
            assert(ids.take(i as int) =~= ids);
            assert(self@.holders(leader@, index.value as nat) =~= self@.config.dom().filter(
                through,
            ));
        }
        count
    }

    /// The highest index through which a majority of the members has the log.
    fn majority_index(&self, leader: &Leader) -> (index: LogIndex)
        requires
            self.wf(),
        ensures
            index == self@.majority_index(leader@),
    {
        let members = self.config.members();
        let size = self.config.size();
        let ghost all = self@.config.dom();
        proof {
            node_map::lemma_in_order(all);
            assert(self@.holders(leader@, 0) =~= all);
        }
        let mut best = LogIndex { value: 0 };
        let mut i: usize = 0;
        while i < members.len()
            invariant
                self.wf(),
                i <= members.len(),
                size == members.len(),
                members@.len() == self@.config.dom().len(),
                self@.config.dom().finite(),
                all == self@.config.dom(),
                forall|k: int|
                    0 <= k < members@.len() ==> (#[trigger] members@[k]).0 == node_map::in_order(
                        self@.config.dom(),
                    )[k],
                self@.majority_holds(leader@, best.value as nat),
                forall|k: int|
                    0 <= k < i ==> {
                        let p = self@.progress(leader@, (#[trigger] members@[k]).0).value;
                        self@.majority_holds(leader@, p as nat) ==> p <= best.value
                    },
            decreases members.len() - i,
        {
            let reached = self.progress(leader, members[i].0);
            if reached.value > best.value {
                let count = self.count_holders(leader, members.as_slice(), reached);
                if count >= size / 2 + 1 {
                    best = reached;
                }
            }
            i = i + 1;
        }
        proof {
            assert forall|other: nat| #[trigger]
                self@.majority_holds(leader@, other) implies other <= best.value by {
                lemma_majority_at_member(self@, leader@, other);
                let m = choose|m: NodeId|
                    self@.config.dom().contains(m) && other <= (#[trigger] self@.progress(
                        leader@,
                        m,
                    )).value && self@.majority_holds(
                        leader@,
                        self@.progress(leader@, m).value as nat,
                    );
                let ids = node_map::in_order(all);
                assert(ids.to_set().contains(m));
                let k = choose|k: int| 0 <= k < ids.len() && ids[k] == m;
                assert(members@[k].0 == m);
            }
            lemma_majority_index_unique(self@, leader@, best);
        }
        best
    }

    /// Recomputes the commit index from the leader's replication state.
    ///
    /// Figure 2, Rules for Servers (Leaders): if some index N above `commit_index` is matched by a
    /// majority and the entry at N belongs to the current term, commit through N. The term
    /// condition is the Figure 8 restriction of section 5.4.2: an entry from an earlier term may
    /// not be committed by replica count, because a later leader could still overwrite it. Such
    /// entries commit indirectly once a current-term entry above them commits.
    ///
    /// A leader that is not a member of the configuration in force leads only to see its own
    /// removal through (dissertation section 4.2.2), and steps down once that has committed.
    fn advance_commit_index(&mut self)
        requires
            old(self).wf(),
        ensures
            final(self).wf(),
            final(self)@ == old(self)@.advance_commit(),
    {
        let majority_index = match &self.role {
            Role::Leader(leader) => self.majority_index(leader),
            _ => {
                return ;
            },
        };
        // term_at rather than entry(), so that a majority index landing exactly on the snapshot
        // boundary is still checked against the term the boundary preserved after its entry was
        // compacted away.
        let has_higher_index = majority_index.value > self.volatile.commit_index.value;
        let is_current_term = match self.persistent.log().term_at(majority_index) {
            TermLookup::Known(term) => term.value == self.persistent.current_term().value,
            _ => false,
        };
        if has_higher_index && is_current_term {
            self.volatile.commit_index = majority_index;
            if !self.config.contains(self.id) && !self.has_pending_config_change() {
                self.become_follower(self.persistent.current_term(), None);
            }
        }
    }

    /// Whether any committed entry has yet to be applied.
    pub fn has_pending_applies(&self) -> (pending: bool)
        ensures
            pending == (self@.commit.value > self@.applied.value),
    {
        self.volatile.commit_index.value > self.volatile.last_applied.value
    }

    /// Advances `last_applied` to the next committed command and returns it, or `None` once
    /// everything committed has been applied.
    ///
    /// No-op and `ConfigChange` entries advance `last_applied` without being returned, since the
    /// state machine has no use for them. A committed `ConfigChange` is buffered for
    /// `take_committed_config_changes` instead.
    pub fn take_entry_to_apply(&mut self) -> (applied: Option<Applied<'_, Cmd>>)
        requires
            old(self).wf(),
        ensures
            final(self).wf(),
            final(self)@ == old(self)@.take_entry_to_apply().0,
            applied is Some <==> old(self)@.take_entry_to_apply().1 is Some,
            applied matches Some(a) ==> old(self)@.take_entry_to_apply().1 == Some(a@),
    {
        let found = self.seek_command();
        if !found {
            return None;
        }
        let index = self.volatile.last_applied;
        match self.persistent.log().entry(index) {
            Some(entry) => match &entry.payload {
                LogPayload::Command(command) => Some(Applied { index, term: entry.term, command }),
                _ => None,
            },
            None => None,
        }
    }

    /// Advances `last_applied` to the next committed command, and says whether there was one.
    fn seek_command(&mut self) -> (found: bool)
        requires
            old(self).wf(),
        ensures
            final(self).wf(),
            final(self)@ == old(self)@.take_entry_to_apply().0,
            found == (old(self)@.take_entry_to_apply().1 is Some),
            found ==> {
                let index = final(self)@.applied;
                &&& final(self)@.log().retains(index.value as int)
                &&& final(self)@.log().at(index.value as int).payload is Command
                &&& old(self)@.take_entry_to_apply().1 == Some(
                    AppliedView {
                        index,
                        term: Term { value: final(self)@.log().at(index.value as int).term as u64 },
                        command: final(self)@.log().at(index.value as int).payload->Command_0,
                    },
                )
            },
    {
        let ghost outcome = self@.take_entry_to_apply();
        while self.volatile.last_applied.value < self.volatile.commit_index.value
            invariant
                self.wf(),
                outcome == old(self)@.take_entry_to_apply(),
                self@.take_entry_to_apply() == outcome,
            decreases self@.commit.value - self@.applied.value,
        {
            let ghost before = self@;
            let index = LogIndex { value: self.volatile.last_applied.value + 1 };
            self.volatile.last_applied = index;
            let committed = match self.persistent.log().entry(index) {
                None => {
                    return false;
                },
                Some(entry) => match &entry.payload {
                    LogPayload::NoOp => None,
                    LogPayload::ConfigChange(config) => {
                        // The membership itself took effect back when the entry was appended. Only
                        // the commit notification is outstanding, so the server can answer the
                        // request that proposed it.
                        Some((entry.term, index, config.clone()))
                    },
                    LogPayload::Command(_) => {
                        return true;
                    },
                },
            };
            if let Some(change) = committed {
                self.pending_committed_config_changes.push(change);
                proof {
                    assert(self@.committed_configs =~= before.committed_configs.push(
                        (change.0, change.1, change.2@),
                    ));
                }
            }
        }
        false
    }

    /// Drains the configurations that took effect on append, whether or not they have committed.
    /// The runtime forwards these to the transport so RPCs can reach a newly added peer straight
    /// away.
    pub fn take_config_changes(&mut self) -> (changes: Vec<ClusterConfig>)
        ensures
            config_views(changes@) == old(self)@.config_changes,
            final(self)@ == (NodeView { config_changes: Seq::empty(), ..old(self)@ }),
    {
        let mut changes: Vec<ClusterConfig> = Vec::new();
        std::mem::swap(&mut changes, &mut self.pending_config_changes);
        assert(self@.config_changes =~= Seq::empty());
        changes
    }

    /// Drains the configurations that have committed, with the term and index of the entry that
    /// carried each. The server uses these to resolve the membership requests waiting on them.
    pub fn take_committed_config_entries(&mut self) -> (changes: Vec<
        (Term, LogIndex, ClusterConfig),
    >)
        ensures
            committed_views(changes@) == old(self)@.committed_configs,
            final(self)@ == (NodeView { committed_configs: Seq::empty(), ..old(self)@ }),
    {
        let mut changes: Vec<(Term, LogIndex, ClusterConfig)> = Vec::new();
        std::mem::swap(&mut changes, &mut self.pending_committed_config_changes);
        assert(self@.committed_configs =~= Seq::empty());
        changes
    }

    /// Drains the configurations that have committed, paired with the index of the entry that
    /// carried them.
    pub fn take_committed_config_changes(&mut self) -> (changes: Vec<(LogIndex, ClusterConfig)>)
        ensures
            changes@.len() == old(self)@.committed_configs.len(),
            forall|i: int|
                0 <= i < changes@.len() ==> (#[trigger] changes@[i]).0 == old(
                    self,
                )@.committed_configs[i].1 && changes@[i].1@ == old(self)@.committed_configs[i].2,
            final(self)@ == (NodeView { committed_configs: Seq::empty(), ..old(self)@ }),
    {
        let entries = self.take_committed_config_entries();
        let mut changes: Vec<(LogIndex, ClusterConfig)> = Vec::new();
        let mut i: usize = 0;
        while i < entries.len()
            invariant
                i <= entries.len(),
                changes.len() == i,
                forall|k: int|
                    0 <= k < i ==> (#[trigger] changes@[k]).0 == entries@[k].1 && changes@[k].1@
                        == entries@[k].2@,
            decreases entries.len() - i,
        {
            changes.push((entries[i].1, entries[i].2.clone()));
            i = i + 1;
        }
        proof {
            assert forall|k: int| 0 <= k < changes@.len() implies (#[trigger] changes@[k]).0 == old(
                self,
            )@.committed_configs[k].1 && changes@[k].1@ == old(self)@.committed_configs[k].2 by {
                assert(committed_views(entries@)[k] == (
                    entries@[k].0,
                    entries@[k].1,
                    entries@[k].2@,
                ));
            }
        }
        changes
    }

    /// Grafts a leader's entries onto the log, truncating on conflict, per rules 3 to 5 of the
    /// AppendEntries receiver in Figure 2 (section 5.3).
    fn append_entries(&mut self, prev_log_index: LogIndex, entries: Vec<LogEntry<Cmd>>)
        requires
            old(self).wf(),
            prev_log_index.value + entries.len() <= u64::MAX,
        ensures
            final(self).wf(),
            final(self)@ == old(self)@.append_entries(prev_log_index, log::entry_views(entries@)),
    {
        let has_config_entry = log::contains_config_change(entries.as_slice());
        let outcome = self.persistent.merge_entries(prev_log_index, entries);
        let truncated = match outcome {
            MergeOutcome::Truncated { .. } => true,
            MergeOutcome::Appended => false,
        };
        // A truncation may have removed the entry that established the active membership, and a
        // newly arrived ConfigChange has to become active. The rescan resolves both cases against
        // the same fallback order.
        if truncated || has_config_entry {
            self.apply_latest_config_from_log();
        }
    }

    /// The membership in force at `index`, ignoring anything appended after it.
    ///
    /// `self.config` tracks the log tail, because a change takes effect on append rather than on
    /// commit (dissertation section 4.1). It is therefore wrong for a snapshot taken at `index`
    /// whenever a later `ConfigChange` exists, and the prefix has to be rescanned in that case.
    fn config_as_of(&self, index: LogIndex) -> (config: ClusterConfig)
        ensures
            config@ == self@.config_as_of(index),
    {
        if !log::contains_config_change(self.persistent.log().suffix_from(index.next())) {
            return self.config.clone();
        }
        self.config_from(self.persistent.log().through(index))
    }

    /// Compacts the log through `last_applied` and returns the resulting snapshot.
    ///
    /// The caller supplies `data`, since the runtime owns the state machine and this node cannot
    /// serialize it. Compacting through `last_applied` rather than `commit_index` is what makes the
    /// snapshot self-consistent: those entries are already reflected in the bytes handed in.
    ///
    /// # Errors
    /// `CompactError::NothingToCompact` when nothing has been applied since the previous
    /// compaction.
    pub fn compact_to_snapshot(&mut self, data: SnapshotData) -> (result: Result<
        Snapshot,
        CompactError,
    >)
        requires
            old(self).wf(),
        ensures
            final(self).wf(),
            result is Err <==> old(self)@.applied.value <= old(self)@.log().boundary,
            match result {
                Ok(snapshot) => {
                    &&& snapshot@ == old(self)@.snapshot_of(data@)
                    &&& final(self)@ == old(self)@.compact_to_snapshot(data@)
                },
                Err(e) => {
                    &&& e == CompactError::NothingToCompact
                    &&& final(self)@ == old(self)@
                },
            },
    {
        let last_index = self.volatile.last_applied;
        if last_index.value <= self.persistent.log().snapshot_last_index().value {
            return Err(CompactError::NothingToCompact);
        }
        let last_term = self.term_at(last_index);
        let config = self.config_as_of(last_index);
        let snapshot = Snapshot { meta: SnapshotMeta { last_index, last_term, config }, data };
        // Local compaction never conflicts with its own log, so the suffix above the boundary is
        // always valid.
        self.persistent.install_snapshot(snapshot.clone(), SuffixDisposition::Retain);
        Ok(snapshot)
    }

    /// Takes the snapshot buffered by `handle_install_snapshot` so the runtime can hand it to
    /// `StateMachine::restore`. Draining rather than borrowing means a second poll cannot restore
    /// the same snapshot twice.
    pub fn take_snapshot_to_restore(&mut self) -> (snapshot: Option<Snapshot>)
        ensures
            storage::snapshot_view(snapshot) == old(self)@.to_restore,
            final(self)@ == (NodeView { to_restore: None, ..old(self)@ }),
    {
        self.pending_snapshot_restore.take()
    }

    /// Receiver implementation of the InstallSnapshot RPC (section 7), in the single-message
    /// variant without offset and done chunking.
    pub fn handle_install_snapshot(&mut self, from: NodeId, req: InstallSnapshot) -> (commands:
        Vec<Command<Cmd>>)
        requires
            old(self).wf(),
        ensures
            final(self).wf(),
            (final(self)@, command::command_views(commands@)) == old(self)@.handle_install_snapshot(
                from,
                req@,
            ),
    {
        let ghost before = self@;
        let mut commands: Vec<Command<Cmd>> = Vec::new();
        if req.term.value < self.persistent.current_term().value {
            commands.push(
                install_response(
                    from,
                    InstallSnapshotResponse::Rejected { term: self.persistent.current_term() },
                ),
            );
            proof {
                assert(command::command_views(commands@) =~= before.handle_install_snapshot(
                    from,
                    req@,
                ).1);
            }
            return commands;
        }
        self.follow(req.term, req.leader_id);
        commands.push(Command::ResetElectionTimer);
        let last_index = req.snapshot.meta.last_index;
        // The snapshot may already be covered by what this node has committed. The leader resends
        // until acknowledged, so answering positively rather than reinstalling keeps the RPC
        // idempotent.
        if last_index.value > self.volatile.commit_index.value {
            self.install_leader_snapshot(req.snapshot);
        }
        commands.push(
            install_response(
                from,
                InstallSnapshotResponse::Installed {
                    term: self.persistent.current_term(),
                    last_index,
                },
            ),
        );
        proof {
            assert(command::command_views(commands@) =~= before.handle_install_snapshot(
                from,
                req@,
            ).1);
        }
        commands
    }

    /// Replaces what `snapshot` covers with `snapshot`.
    fn install_leader_snapshot(&mut self, snapshot: Snapshot)
        requires
            old(self).wf(),
        ensures
            final(self).wf(),
            final(self)@ == old(self)@.install_snapshot(snapshot@),
    {
        let last_index = snapshot.meta.last_index;
        let last_term = snapshot.meta.last_term;
        // A local entry carrying the snapshot's index and term makes everything above it valid by
        // the Log Matching Property, so the suffix survives. Any other answer, including a boundary
        // past the end of the log, means the local log conflicts and section 7 discards all of it.
        let disposition = match self.persistent.log().term_at(last_index) {
            TermLookup::Known(term) => if term.value == last_term.value {
                SuffixDisposition::Retain
            } else {
                SuffixDisposition::Discard
            },
            _ => SuffixDisposition::Discard,
        };
        // The restored state machine already reflects everything through the boundary, so
        // last_applied jumps there rather than replaying it. A surviving suffix above commit_index
        // still applies later through take_entry_to_apply.
        self.volatile.commit_index = last_index;
        self.volatile.last_applied = last_index;
        // The rescan below falls back to the snapshot's configuration, so latest_snapshot has to be
        // the new one first. In the discard branch the log is now empty and that fallback is the
        // only source; in the retain branch a surviving ConfigChange still wins, being effective on
        // append. Either way, resolving against the previous snapshot would restore a membership
        // the cluster has already left behind.
        self.persistent.install_snapshot(snapshot.clone(), disposition);
        self.apply_latest_config_from_log();
        self.pending_snapshot_restore = Some(snapshot);
    }

    /// Handles an InstallSnapshot response. A leader in the response's term advances the peer's
    /// replication state, which may complete a quorum; stale terms and other roles are ignored.
    ///
    /// There is no back-off branch. A rejection can only mean a stale term, since a snapshot
    /// carries the whole compacted prefix and leaves no earlier position to probe.
    pub fn handle_install_snapshot_response(
        &mut self,
        from: NodeId,
        resp: InstallSnapshotResponse,
    ) -> (commands: Vec<Command<Cmd>>)
        requires
            old(self).wf(),
        ensures
            final(self).wf(),
            (final(self)@, command::command_views(commands@)) == old(
                self,
            )@.handle_install_snapshot_response(from, resp),
    {
        let term = resp.term();
        if term.value > self.persistent.current_term().value {
            self.become_follower(term, None);
            return reset_election_timer();
        }
        if term.value < self.persistent.current_term().value {
            return Vec::new();
        }
        let accepted = match (&mut self.role, resp) {
            (Role::Leader(leader), InstallSnapshotResponse::Installed { last_index, .. }) => {
                leader.record_success(from, last_index);
                true
            },
            _ => false,
        };
        if accepted {
            self.advance_commit_index();
            if !self.role.is_leader() {
                return reset_election_timer();
            }
        }
        Vec::new()
    }

    /// Whether every index fits that taking up what `message` carries leads to, with room for the
    /// next one. A message that needs more cannot come from a correct peer.
    pub fn has_room_for(&self, message: &Message<Cmd>) -> (yes: bool)
        requires
            self.wf(),
        ensures
            yes == self@.has_room_for(message@),
    {
        match message {
            Message::AppendEntries(m) => {
                let room: u64 = u64::MAX - m.prev_log_index.value;
                (m.entries.len() as u64) < room || m.term.value
                    < self.persistent.current_term().value || !self.persistent.log().matches(
                    m.prev_log_index,
                    m.prev_log_term,
                )
            },
            Message::InstallSnapshot(m) => {
                let last_index = m.snapshot.meta.last_index;
                last_index.value < u64::MAX || m.term.value < self.persistent.current_term().value
                    || last_index.value <= self.volatile.commit_index.value
            },
            _ => true,
        }
    }

    /// Hands a message that has arrived to the handler of its kind.
    pub fn handle_message(&mut self, from: NodeId, message: Message<Cmd>) -> (commands: Vec<
        Command<Cmd>,
    >)
        requires
            old(self).wf(),
            old(self)@.log().last_index() < u64::MAX,
            old(self)@.has_room_for(message@),
        ensures
            final(self).wf(),
            (final(self)@, command::command_views(commands@)) == old(self)@.handle_message(
                from,
                message@,
            ),
    {
        match message {
            Message::RequestVote(req) => self.handle_request_vote(from, req),
            Message::RequestVoteResponse(resp) => self.handle_request_vote_response(from, resp),
            Message::AppendEntries(req) => self.handle_append_entries(from, req),
            Message::AppendEntriesResponse(resp) => self.handle_append_entries_response(from, resp),
            Message::InstallSnapshot(req) => self.handle_install_snapshot(from, req),
            Message::InstallSnapshotResponse(resp) => self.handle_install_snapshot_response(
                from,
                resp,
            ),
        }
    }
}

/// The single command to restart the election timeout.
fn reset_election_timer<Cmd: View>() -> (commands: Vec<Command<Cmd>>)
    ensures
        command::command_views(commands@) == seq![CommandView::<Cmd::V>::ResetElectionTimer],
{
    let mut commands: Vec<Command<Cmd>> = Vec::new();
    commands.push(Command::ResetElectionTimer);
    assert(command::command_views(commands@) =~= seq![CommandView::<Cmd::V>::ResetElectionTimer]);
    commands
}

/// The command to answer an AppendEntries request.
fn append_response<Cmd: View>(to: NodeId, response: AppendEntriesResponse) -> (command: Command<
    Cmd,
>)
    ensures
        command@ == model::send::<Cmd::V>(to, MessageView::AppendEntriesResponse(response)),
{
    Command::Send { to, message: Message::AppendEntriesResponse(response) }
}

/// The command to answer an InstallSnapshot request.
fn install_response<Cmd: View>(to: NodeId, response: InstallSnapshotResponse) -> (command: Command<
    Cmd,
>)
    ensures
        command@ == model::send::<Cmd::V>(to, MessageView::InstallSnapshotResponse(response)),
{
    Command::Send { to, message: Message::InstallSnapshotResponse(response) }
}

/// Among the members of a finite set there is one that is not ahead of any other.
proof fn lemma_least<C>(node: NodeView<C>, leader: LeaderView, members: Set<NodeId>) -> (least:
    NodeId)
    requires
        members.finite(),
        members.len() > 0,
    ensures
        members.contains(least),
        forall|m: NodeId| #[trigger]
            members.contains(m) ==> node.progress(leader, least).value <= node.progress(
                leader,
                m,
            ).value,
    decreases members.len(),
{
    let a = members.choose();
    let rest = members.remove(a);
    if rest.len() == 0 {
        assert(rest =~= Set::empty());
        assert forall|m: NodeId| #[trigger] members.contains(m) implies node.progress(
            leader,
            a,
        ).value <= node.progress(leader, m).value by {
            if m != a {
                assert(rest.contains(m));
            }
        }
        a
    } else {
        let b = lemma_least(node, leader, rest);
        let least = if node.progress(leader, a).value <= node.progress(leader, b).value {
            a
        } else {
            b
        };
        assert forall|m: NodeId| #[trigger] members.contains(m) implies node.progress(
            leader,
            least,
        ).value <= node.progress(leader, m).value by {
            if m != a {
                assert(rest.contains(m));
            }
        }
        least
    }
}

/// An index that a majority has reached is no higher than the position of some member up to which
/// a majority has the log.
proof fn lemma_majority_at_member<C>(node: NodeView<C>, leader: LeaderView, index: nat)
    requires
        node.config.dom().finite(),
        node.majority_holds(leader, index),
    ensures
        exists|m: NodeId|
            node.config.dom().contains(m) && index <= (#[trigger] node.progress(leader, m)).value
                && node.majority_holds(leader, node.progress(leader, m).value as nat),
{
    let holders = node.holders(leader, index);
    let m = lemma_least(node, leader, holders);
    let p = node.progress(leader, m).value as nat;
    assert(holders.subset_of(node.holders(leader, p)));
    vstd::set_lib::lemma_len_subset(holders, node.holders(leader, p));
    assert(node.majority_holds(leader, p));
}

/// The highest index a majority has reached is determined by its description.
pub proof fn lemma_majority_index_unique<C>(node: NodeView<C>, leader: LeaderView, index: LogIndex)
    requires
        node.majority_holds(leader, index.value as nat),
        forall|other: nat| #[trigger]
            node.majority_holds(leader, other) ==> other <= index.value,
    ensures
        node.majority_index(leader) == index,
{
    let chosen = node.majority_index(leader);
    assert(node.majority_holds(leader, chosen.value as nat) && forall|other: nat| #[trigger]
        node.majority_holds(leader, other) ==> other <= chosen.value);
}

} // verus!
