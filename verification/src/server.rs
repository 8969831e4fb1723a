//! A runtime with the callers that wait for it.
//!
//! The server decides who is answered, with what, and when, and which address a message goes to.
//! Channels and sockets stay outside: a caller is known by a ticket, and answers come back as
//! tickets with responses.
use vstd::prelude::*;

use crate::command::Command;
use crate::model::NodeView;
use crate::node;
use crate::node::SubmitError;
use crate::routes;
use crate::routes::Routes;
use crate::runtime;
use crate::runtime::Event;
use crate::runtime::EventView;
use crate::runtime::Runtime;
use crate::runtime::RuntimeError;
use crate::runtime::RuntimeView;
use crate::runtime::SnapshotPolicy;
use crate::runtime::TimerConfig;
use crate::state_machine::StateMachine;
use crate::storage;
use crate::storage::LoadedState;
use crate::storage::Storage;
use crate::time;
use crate::time::Instant;
use crate::types::address::SocketAddr;
use crate::types::config;
use crate::types::config::ClusterConfig;
use crate::types::config::ConfigError;
use crate::types::config::Members;
use crate::types::log;
use crate::types::log::PayloadView;
use crate::types::primitives::LogIndex;
use crate::types::primitives::NodeId;
use crate::types::primitives::Term;
use crate::waiters;
use crate::waiters::Waiters;
use crate::waiters::Waiting;

verus! {

/// What a caller is known by.
pub type Ticket = u64;

/// Why the server could not start or could not continue running.
#[derive(Debug)]
pub enum ServerError<StErr, SmErr> {
    Storage(StErr),
    Config(ConfigError),
    StateMachine(SmErr),
}

/// The failure of a runtime, as a failure of the server.
pub open spec fn server_error<StErr, SmErr>(error: RuntimeError<StErr, SmErr>) -> ServerError<
    StErr,
    SmErr,
> {
    match error {
        RuntimeError::Storage(s) => ServerError::Storage(s),
        RuntimeError::StateMachine(s) => ServerError::StateMachine(s),
    }
}

impl<StErr, SmErr> ServerError<StErr, SmErr> {
    /// The failure of a runtime, as a failure of the server.
    pub fn from_runtime(error: RuntimeError<StErr, SmErr>) -> (e: Self)
        ensures
            e == server_error(error),
    {
        match error {
            RuntimeError::Storage(s) => ServerError::Storage(s),
            RuntimeError::StateMachine(s) => ServerError::StateMachine(s),
        }
    }
}

/// Outcome of a submitted client command.
#[derive(Debug, PartialEq, Eq)]
pub enum ApiResponse<Output> {
    /// The command committed and was applied, yielding this output.
    Result(Output),
    /// This node cannot accept writes. The hint names where to retry.
    NotLeader { leader_hint: Option<NodeId> },
}

/// A requested change to cluster membership. One server at a time, as dissertation section 4.1
/// requires.
#[derive(Clone, Copy, Debug, PartialEq, Eq, Structural)]
pub enum MembershipRequest {
    Add { id: NodeId, addr: SocketAddr },
    Remove { id: NodeId },
}

/// Outcome of a membership change.
#[derive(Clone, Copy, Debug, PartialEq, Eq, Structural)]
pub enum MembershipResult {
    /// The change committed.
    Committed,
    /// This node is not the leader.
    NotLeader,
    /// The change was refused: another one is still uncommitted, or it would have emptied the
    /// cluster.
    Rejected,
    /// Leadership changed before the change committed. The next leader decides whether the entry
    /// survives or is overwritten, so the caller must re-read the configuration rather than assume
    /// either outcome.
    Indeterminate,
}

/// A membership caller awaiting the commit of the exact entry its request appended.
pub struct MembershipWaiter {
    /// The membership the caller asked for. Checked against the configuration that actually commits
    /// at the awaited term and index.
    expected: ClusterConfig,
    ticket: Ticket,
}

impl View for MembershipWaiter {
    type V = (Members, Ticket);

    closed spec fn view(&self) -> (Members, Ticket) {
        (self.expected@, self.ticket)
    }
}

/// A `ConfigChange` this node appended: the entry that carries it, and the membership it installs.
///
/// The term belongs here because an index alone does not identify an entry. Only the pair names the
/// one entry a caller is waiting on.
struct AppendedConfigChange {
    term: Term,
    index: LogIndex,
    config: ClusterConfig,
}

/// Why a membership change could not be applied.
#[derive(Clone, Copy, Debug, PartialEq, Eq, Structural)]
enum MembershipApplyError {
    Submit(SubmitError),
    /// The removal would have left the configuration with no members, which makes quorum
    /// unreachable forever.
    WouldLeaveNoMembers,
}

/// Startup configuration.
pub struct Config {
    pub id: NodeId,
    /// Address the Raft listener binds to.
    pub addr: SocketAddr,
    /// Other members at startup. Excludes this node.
    pub peers: Vec<(NodeId, SocketAddr)>,
    pub snapshot_policy: SnapshotPolicy,
}

/// The membership that a request leads to, unless it would have no members left.
pub open spec fn requested_members(members: Members, req: MembershipRequest) -> Option<Members> {
    match req {
        MembershipRequest::Add { id, addr } => Some(members.insert(id, addr)),
        MembershipRequest::Remove { id } => if members.dom() == set![id] {
            None
        } else {
            Some(members.remove(id))
        },
    }
}

/// The routes once every one of `configs` has taken effect, in order.
pub open spec fn routes_through(routes: Members, configs: Seq<Members>, self_id: NodeId) -> Members
    decreases configs.len(),
{
    if configs.len() == 0 {
        routes
    } else {
        routes::routes_for(
            routes_through(routes, configs.drop_last(), self_id),
            configs.last(),
            self_id,
        )
    }
}

/// Who still waits, and who is answered with what, once these outputs have been put out.
pub open spec fn answer_clients<O>(
    waiting: Seq<Waiting<Ticket>>,
    outputs: Seq<(Term, LogIndex, O)>,
) -> (Seq<Waiting<Ticket>>, Seq<(Ticket, ApiResponse<O>)>)
    decreases outputs.len(),
{
    if outputs.len() == 0 {
        (waiting, Seq::empty())
    } else {
        let (still, answered) = answer_clients(waiting, outputs.drop_last());
        let (term, index, output) = outputs.last();
        if waiters::is_awaited(still, term, index) {
            (
                waiters::without(still, term, index),
                answered.push(
                    (
                        still[waiters::place_of(still, term, index)].2,
                        ApiResponse::Result(output),
                    ),
                ),
            )
        } else {
            (still, answered)
        }
    }
}

/// What a membership caller is told who waited for the entry that `committed` was in.
pub open spec fn membership_outcome(expected: Members, committed: Members) -> MembershipResult {
    // The Log Matching Property makes term and index enough to identify an entry, so the two should
    // always agree. They are compared because reporting someone else's change as this caller's
    // success is the failure being guarded against, and silence is cheaper than a wrong answer.
    if expected == committed {
        MembershipResult::Committed
    } else {
        MembershipResult::Indeterminate
    }
}

/// Who still waits, and who is answered with what, once these memberships have committed.
pub open spec fn answer_members(
    waiting: Seq<Waiting<MembershipWaiter>>,
    committed: Seq<(Term, LogIndex, Members)>,
) -> (Seq<Waiting<MembershipWaiter>>, Seq<(Ticket, MembershipResult)>)
    decreases committed.len(),
{
    if committed.len() == 0 {
        (waiting, Seq::empty())
    } else {
        let (still, answered) = answer_members(waiting, committed.drop_last());
        let (term, index, members) = committed.last();
        if waiters::is_awaited(still, term, index) {
            let waiter = still[waiters::place_of(still, term, index)].2@;
            (
                waiters::without(still, term, index),
                answered.push((waiter.1, membership_outcome(waiter.0, members))),
            )
        } else {
            (still, answered)
        }
    }
}

/// Everybody is told that this node is not the leader.
pub open spec fn refuse_clients<O>(waiting: Seq<Waiting<Ticket>>, hint: Option<NodeId>) -> Seq<
    (Ticket, ApiResponse<O>),
> {
    Seq::new(
        waiting.len(),
        |i: int| (waiting[i].2, ApiResponse::NotLeader { leader_hint: hint }),
    )
}

/// Everybody is told that their change may or may not survive.
pub open spec fn refuse_members(waiting: Seq<Waiting<MembershipWaiter>>) -> Seq<
    (Ticket, MembershipResult),
> {
    Seq::new(waiting.len(), |i: int| (waiting[i].2@.1, MembershipResult::Indeterminate))
}

/// Who is to be answered, and with what.
pub struct Replies<Output> {
    pub clients: Vec<(Ticket, ApiResponse<Output>)>,
    pub members: Vec<(Ticket, MembershipResult)>,
}

/// What the server does with an event.
pub struct Handled<Cmd, Output> {
    /// What the node asks for, in order.
    pub commands: Vec<Command<Cmd>>,
    pub replies: Replies<Output>,
}

/// What the event loop does next.
pub enum Turn<Cmd> {
    /// Handle this event.
    Handle(Event<Cmd>),
    /// Wait for a message, for so many nanoseconds.
    Wait(u64),
}

/// A Raft node together with the callers that wait for it and the addresses of its peers. Generic
/// over the command type, the state machine applying it, and the storage.
pub struct Server<Cmd, SM, St> where Cmd: Clone + View, SM: StateMachine<Cmd>, St: Storage<Cmd> {
    runtime: Runtime<Cmd, SM, St>,
    routes: Routes,
    /// Clients awaiting a result, keyed by the term and index of the entry they submitted.
    pending: Waiters<Ticket>,
    /// Membership callers awaiting commit, keyed by the term and index of the `ConfigChange` they
    /// appended.
    ///
    /// Keyed like `pending`, and for the same reason: after a leadership change a different
    /// configuration can occupy the same index, and an index-keyed map would report that unrelated
    /// change as this caller's success.
    pending_membership: Waiters<MembershipWaiter>,
}

impl<Cmd: Clone + View, SM: StateMachine<Cmd>, St: Storage<Cmd>> Server<Cmd, SM, St> {
    /// The runtime of this server.
    pub closed spec fn inner(self) -> Runtime<Cmd, SM, St> {
        self.runtime
    }

    /// Where each peer is reached.
    pub closed spec fn routes(self) -> Members {
        self.routes@
    }

    /// The clients that wait.
    pub closed spec fn waiting(self) -> Seq<Waiting<Ticket>> {
        self.pending@
    }

    /// The membership callers that wait.
    pub closed spec fn waiting_members(self) -> Seq<Waiting<MembershipWaiter>> {
        self.pending_membership@
    }

    /// The runtime is well-formed, and no two callers wait for the same entry.
    pub open spec fn wf(self) -> bool {
        &&& self.inner().wf()
        &&& waiters::distinct(self.waiting())
        &&& waiters::distinct(self.waiting_members())
    }

    /// Restores persistent state from `storage`.
    ///
    /// # Errors
    /// `ServerError::Storage` if the storage cannot be read.
    /// `ServerError::StateMachine` if a persisted snapshot cannot be restored.
    pub fn start(config: Config, state_machine: SM, storage: St) -> (result: Result<
        Self,
        ServerError<St::Error, SM::SnapshotError>,
    >)
        requires
            log::clone_keeps_view::<Cmd>(),
            storage::log_after(
                storage.stored().snapshot,
                storage.stored().log.entries,
            ).last_index() <= u64::MAX,
        ensures
            result matches Ok(server) ==> {
                let members = config::members_of(config.peers@).insert(config.id, config.addr);
                let timers = server.inner().timer_config();
                &&& server.wf()
                &&& server.inner().storage() == storage
                &&& exists|loaded: LoadedState<Cmd>| #[trigger]
                    storage::may_load::<Cmd, St>(&storage, Ok(loaded))
                &&& timers.election_timeout.nanos == 300 * time::NANOS_PER_MILLI
                &&& timers.heartbeat_interval.nanos == 100 * time::NANOS_PER_MILLI
                &&& timers.election_timeout.nanos == 300_000_000
                &&& timers.heartbeat_interval.nanos == 100_000_000
                &&& server.inner().clock().started()
                &&& exists|now: Instant, jitter_ms: u64| #[trigger]
                    runtime::is_reading(timers, now, jitter_ms) && runtime::read_from(
                        server.inner().clock(),
                        Instant { nanos: 0 },
                        timers,
                        now,
                        jitter_ms,
                    ) && server.inner()@
                        == RuntimeView::assembled(
                        NodeView::restored(config.id, members, storage.stored()),
                        storage.stored(),
                        server.inner()@.state,
                        timers,
                        now,
                        jitter_ms,
                    )
                &&& server.inner().outputs() == Seq::<(Term, LogIndex, SM::Output)>::empty()
                &&& server.inner().policy() == config.snapshot_policy
                &&& match storage.stored().snapshot {
                    Some(snapshot) => SM::decoded(snapshot.data) == Some(server.inner()@.state),
                    None => server.inner()@.state == state_machine.state(),
                }
                &&& server.routes() == config::members_of(config.peers@)
                &&& server.waiting() == Seq::<Waiting<Ticket>>::empty()
                &&& server.waiting_members() == Seq::<Waiting<MembershipWaiter>>::empty()
            },
            result matches Err(error) ==> match error {
                ServerError::Storage(e) => storage::may_load::<Cmd, St>(&storage, Err(e)),
                ServerError::StateMachine(e) => {
                    &&& exists|loaded: LoadedState<Cmd>| #[trigger]
                        storage::may_load::<Cmd, St>(&storage, Ok(loaded))
                    &&& storage.stored().snapshot matches Some(snapshot) && SM::decoded(
                        snapshot.data,
                    ) is None && SM::refuses(snapshot.data, e)
                },
                ServerError::Config(_) => false,
            },
    {
        // The transport routes to peers only; this node is never dialed.
        let mut routes = Routes::new();
        let mut members: Vec<(NodeId, SocketAddr)> = Vec::new();
        let ghost peers = config.peers@;
        let mut i: usize = 0;
        proof {
            assert(peers.take(0) =~= members@);
        }
        while i < config.peers.len()
            invariant
                i <= config.peers.len(),
                peers == config.peers@,
                members@ == peers.take(i as int),
                routes@ == config::members_of(peers.take(i as int)),
            decreases config.peers.len() - i,
        {
            routes.add_peer(config.peers[i].0, config.peers[i].1);
            members.push(config.peers[i]);
            i = i + 1;
            proof {
                assert(peers.take(i as int).drop_last() =~= peers.take(i - 1));
                assert(members@ =~= peers.take(i as int));
            }
        }
        // The configuration must include this node, because quorum is computed over the whole
        // membership and crash recovery rescans the log against it. Inserting this node also
        // guarantees the membership is non-empty.
        members.push((config.id, config.addr));
        proof {
            assert(peers.take(i as int) =~= peers);
            assert(members@.drop_last() =~= peers);
        }
        let initial_config = match ClusterConfig::new(members) {
            Ok(config) => config,
            Err(e) => {
                return Err(ServerError::Config(e));
            },
        };
        let timers = TimerConfig::default();
        let runtime = match Runtime::from_storage(
            config.id,
            initial_config,
            state_machine,
            storage,
            timers,
            config.snapshot_policy,
        ) {
            Ok(runtime) => runtime,
            Err(e) => {
                return Err(ServerError::from_runtime(e));
            },
        };
        Ok(
            Server {
                runtime,
                routes,
                pending: Waiters::new(),
                pending_membership: Waiters::new(),
            },
        )
    }

    /// A server around a runtime, with nobody waiting and routes to nobody.
    pub fn around(runtime: Runtime<Cmd, SM, St>) -> (server: Self)
        requires
            runtime.wf(),
        ensures
            server.wf(),
            server.inner() == runtime,
            server.routes() == Members::empty(),
            server.waiting() == Seq::<Waiting<Ticket>>::empty(),
            server.waiting_members() == Seq::<Waiting<MembershipWaiter>>::empty(),
    {
        Server {
            runtime,
            routes: Routes::new(),
            pending: Waiters::new(),
            pending_membership: Waiters::new(),
        }
    }

    /// The runtime of this server.
    pub fn runtime(&self) -> (runtime: &Runtime<Cmd, SM, St>)
        ensures
            *runtime == self.inner(),
    {
        &self.runtime
    }

    /// The addresses of the peers.
    pub fn peer_routes(&self) -> (routes: &Routes)
        ensures
            routes@ == self.routes(),
    {
        &self.routes
    }

    /// How many clients wait for a result.
    pub fn waiting_count(&self) -> (count: usize)
        ensures
            count == self.waiting().len(),
    {
        self.pending.len()
    }

    /// How many membership callers wait for a result.
    pub fn waiting_member_count(&self) -> (count: usize)
        ensures
            count == self.waiting_members().len(),
    {
        self.pending_membership.len()
    }

    /// Submits a client's command. The caller is answered at once where this node is not the
    /// leader, and otherwise registered to be answered once the entry commits.
    pub fn submit(&mut self, command: Cmd, ticket: Ticket) -> (answer: Option<
        ApiResponse<SM::Output>,
    >)
        requires
            old(self).wf(),
            old(self).inner()@.node.log().last_index() < u64::MAX,
        ensures
            final(self).wf(),
            final(self).routes() == old(self).routes(),
            final(self).waiting_members() == old(self).waiting_members(),
            final(self).inner().outputs() == old(self).inner().outputs(),
            final(self).inner().policy() == old(self).inner().policy(),
            final(self).inner().timer_config() == old(self).inner().timer_config(),
            final(self).inner().clock() == old(self).inner().clock(),
            final(self).inner().storage() == old(self).inner().storage(),
            final(self).inner().machine() == old(self).inner().machine(),
            final(self).inner()@ == (RuntimeView {
                node: if old(self).inner()@.node.role is Leader {
                    old(self).inner()@.node.submit_command(command@)
                } else {
                    old(self).inner()@.node
                },
                ..old(self).inner()@
            }),
            if old(self).inner()@.node.role is Leader {
                let node = old(self).inner()@.node;
                let term = node.submit_command(command@).term();
                let index = LogIndex { value: (node.log().last_index() + 1) as u64 };
                &&& answer is None
                &&& final(self).waiting() == waiters::without(
                    old(self).waiting(),
                    term,
                    index,
                ).push((term, index, ticket))
            } else {
                &&& answer == Some(
                    ApiResponse::<SM::Output>::NotLeader {
                        leader_hint: old(self).inner()@.node.leader_hint(),
                    },
                )
                &&& final(self).waiting() == old(self).waiting()
            },
    {
        match self.runtime.submit(command) {
            Ok(index) => {
                // submit stamped the entry with the current term a moment ago, and nothing between
                // then and here can change it, so this read yields the term the entry was submitted
                // under.
                let term = self.runtime.node().persistent().current_term();
                self.pending.insert(term, index, ticket);
                None
            },
            Err(e) => Some(ApiResponse::NotLeader { leader_hint: e.leader_hint }),
        }
    }

    /// Requests a membership change. A refusal is answered at once, and an accepted change once it
    /// commits.
    pub fn request_membership(&mut self, req: MembershipRequest, ticket: Ticket) -> (answer: Option<
        MembershipResult,
    >)
        requires
            old(self).wf(),
            old(self).inner()@.node.log().last_index() < u64::MAX,
        ensures
            final(self).wf(),
            final(self).waiting() == old(self).waiting(),
            final(self).inner().outputs() == old(self).inner().outputs(),
            final(self).inner().policy() == old(self).inner().policy(),
            final(self).inner().timer_config() == old(self).inner().timer_config(),
            final(self).inner().clock() == old(self).inner().clock(),
            final(self).inner().storage() == old(self).inner().storage(),
            final(self).inner().machine() == old(self).inner().machine(),
            ({
                let node = old(self).inner()@.node;
                let members = requested_members(node.config, req);
                if members is None {
                    &&& answer == Some(MembershipResult::Rejected)
                    &&& final(self).inner()@ == old(self).inner()@
                    &&& final(self).routes() == old(self).routes()
                    &&& final(self).waiting_members() == old(self).waiting_members()
                } else if !(node.role is Leader) {
                    &&& answer == Some(MembershipResult::NotLeader)
                    &&& final(self).inner()@ == old(self).inner()@
                    &&& final(self).routes() == old(self).routes()
                    &&& final(self).waiting_members() == old(self).waiting_members()
                } else if node.has_pending_config_change() {
                    &&& answer == Some(MembershipResult::Rejected)
                    &&& final(self).inner()@ == old(self).inner()@
                    &&& final(self).routes() == old(self).routes()
                    &&& final(self).waiting_members() == old(self).waiting_members()
                } else {
                    let changed = node.propose_config_change(members->0);
                    let term = changed.term();
                    let index = LogIndex { value: (node.log().last_index() + 1) as u64 };
                    &&& answer is None
                    &&& final(self).inner()@ == (RuntimeView {
                        node: NodeView { config_changes: Seq::empty(), ..changed },
                        ..old(self).inner()@
                    })
                    &&& final(self).routes() == routes_through(
                        old(self).routes(),
                        changed.config_changes,
                        node.id,
                    )
                    &&& final(self).waiting_members().len() > 0
                    &&& final(self).waiting_members().drop_last() == waiters::without(
                        old(self).waiting_members(),
                        term,
                        index,
                    )
                    &&& final(self).waiting_members().last().0 == term
                    &&& final(self).waiting_members().last().1 == index
                    &&& final(self).waiting_members().last().2@ == (members->0, ticket)
                }
            }),
            ({
                let node = old(self).inner()@.node;
                let log = node.persistent.log;
                let after = final(self).inner()@.node.persistent.log;
                let is_pending = exists|k: int|
                    0 <= k < log.entries.len() && log.boundary + 1 + k > node.commit.value && (
                    #[trigger] log.entries[k]).payload is ConfigChange;
                let is_last = req matches MembershipRequest::Remove { id } && forall|member: NodeId|
                    #[trigger] node.config.dom().contains(member) <==> member == id;
                &&& is_last ==> answer == Some(MembershipResult::Rejected)
                &&& !is_last && !(node.role is Leader) ==> answer == Some(
                    MembershipResult::NotLeader,
                )
                &&& !is_last && node.role is Leader && is_pending ==> answer == Some(
                    MembershipResult::Rejected,
                )
                &&& answer is Some ==> after == log
                &&& !is_last && node.role is Leader && !is_pending ==> {
                    &&& answer is None
                    &&& after.boundary == log.boundary
                    &&& after.boundary_term == log.boundary_term
                    &&& after.entries.len() == log.entries.len() + 1
                    &&& after.entries.drop_last() == log.entries
                    &&& after.entries.last().term == node.persistent.term.value
                    &&& after.entries.last().payload matches PayloadView::ConfigChange(members)
                        && forall|member: NodeId|
                        #![trigger members.dom().contains(member)]
                        match req {
                            MembershipRequest::Remove { id } => {
                                &&& members.dom().contains(member) <==> node.config.dom().contains(
                                    member,
                                ) && member != id
                                &&& members.dom().contains(member) ==> members[member]
                                    == node.config[member]
                            },
                            MembershipRequest::Add { id, addr } => {
                                &&& members.dom().contains(member) <==> node.config.dom().contains(
                                    member,
                                ) || member == id
                                &&& members.dom().contains(member) ==> members[member] == if member
                                    == id {
                                    addr
                                } else {
                                    node.config[member]
                                }
                            },
                        }
                }
            }),
    {
        proof {
            let node = self.inner()@.node;
            law_change_is_pending_until_it_commits(node);
            if let MembershipRequest::Remove { id } = req {
                assert(set![id].contains(id));
                if forall|member: NodeId| #[trigger]
                    node.config.dom().contains(member) <==> member == id {
                    assert(node.config.dom() =~= set![id]);
                }
            }
        }
        match self.apply_membership_request(req) {
            Ok(appended) => {
                let ghost before = self.waiting_members();
                self.pending_membership.insert(
                    appended.term,
                    appended.index,
                    MembershipWaiter { expected: appended.config, ticket },
                );
                proof {
                    assert(self.waiting_members().drop_last() =~= waiters::without(
                        before,
                        appended.term,
                        appended.index,
                    ));
                }
                None
            },
            Err(MembershipApplyError::Submit(SubmitError::NotLeader { .. })) => Some(
                MembershipResult::NotLeader,
            ),
            Err(MembershipApplyError::Submit(SubmitError::ConfigChangePending)) => Some(
                MembershipResult::Rejected,
            ),
            Err(MembershipApplyError::WouldLeaveNoMembers) => Some(MembershipResult::Rejected),
        }
    }

    /// Derives the next configuration from the current one and submits it.
    ///
    /// The routes are brought up to date before returning. The configuration takes effect on `Node`
    /// the moment it is appended (section 4.1), so routes lagging even one loop iteration behind
    /// would make the next heartbeat target a peer that cannot be resolved.
    fn apply_membership_request(&mut self, req: MembershipRequest) -> (result: Result<
        AppendedConfigChange,
        MembershipApplyError,
    >)
        requires
            old(self).wf(),
            old(self).inner()@.node.log().last_index() < u64::MAX,
        ensures
            final(self).wf(),
            final(self).waiting() == old(self).waiting(),
            final(self).waiting_members() == old(self).waiting_members(),
            final(self).inner().outputs() == old(self).inner().outputs(),
            final(self).inner().policy() == old(self).inner().policy(),
            final(self).inner().timer_config() == old(self).inner().timer_config(),
            final(self).inner().clock() == old(self).inner().clock(),
            final(self).inner().storage() == old(self).inner().storage(),
            final(self).inner().machine() == old(self).inner().machine(),
            ({
                let node = old(self).inner()@.node;
                let members = requested_members(node.config, req);
                match result {
                    Ok(appended) => {
                        let changed = node.propose_config_change(members->0);
                        &&& members is Some
                        &&& node.role is Leader
                        &&& !node.has_pending_config_change()
                        &&& appended.term == changed.term()
                        &&& appended.index.value == node.log().last_index() + 1
                        &&& appended.config@ == members->0
                        &&& final(self).inner()@ == (RuntimeView {
                            node: NodeView { config_changes: Seq::empty(), ..changed },
                            ..old(self).inner()@
                        })
                        &&& final(self).routes() == routes_through(
                            old(self).routes(),
                            changed.config_changes,
                            node.id,
                        )
                    },
                    Err(e) => {
                        &&& final(self).inner()@ == old(self).inner()@
                        &&& final(self).routes() == old(self).routes()
                        &&& match e {
                            MembershipApplyError::WouldLeaveNoMembers => members is None,
                            MembershipApplyError::Submit(SubmitError::NotLeader { .. }) => members is Some
                                && !(node.role is Leader),
                            MembershipApplyError::Submit(SubmitError::ConfigChangePending) => {
                                &&& members is Some
                                &&& node.role is Leader
                                &&& node.has_pending_config_change()
                            },
                        }
                    },
                }
            }),
    {
        let current = self.runtime.node().config();
        let config = match req {
            MembershipRequest::Add { id, addr } => current.with_member(id, addr),
            MembershipRequest::Remove { id } => match current.without_member(id) {
                Ok(config) => config,
                Err(_) => {
                    return Err(MembershipApplyError::WouldLeaveNoMembers);
                },
            },
        };
        let index = match self.runtime.submit_config_change(config.clone()) {
            Ok(index) => index,
            Err(e) => {
                return Err(MembershipApplyError::Submit(e));
            },
        };
        // submit_config_change stamped the entry with the current term a moment ago, and nothing
        // between then and here can change it, so this read yields the term the entry was appended
        // under.
        let term = self.runtime.node().persistent().current_term();
        proof {
            lemma_proposing_keeps_id(old(self).inner()@.node, config@);
        }
        self.apply_config_changes();
        Ok(AppendedConfigChange { term, index, config })
    }

    /// Brings the routes in line with every configuration that has taken effect since the last
    /// call.
    fn apply_config_changes(&mut self)
        requires
            old(self).wf(),
        ensures
            final(self).wf(),
            final(self).waiting() == old(self).waiting(),
            final(self).waiting_members() == old(self).waiting_members(),
            final(self).inner().outputs() == old(self).inner().outputs(),
            final(self).inner().policy() == old(self).inner().policy(),
            final(self).inner().timer_config() == old(self).inner().timer_config(),
            final(self).inner().clock() == old(self).inner().clock(),
            final(self).inner().storage() == old(self).inner().storage(),
            final(self).inner().machine() == old(self).inner().machine(),
            final(self).inner()@ == (RuntimeView {
                node: NodeView { config_changes: Seq::empty(), ..old(self).inner()@.node },
                ..old(self).inner()@
            }),
            final(self).routes() == routes_through(
                old(self).routes(),
                old(self).inner()@.node.config_changes,
                old(self).inner()@.node.id,
            ),
    {
        let ghost before = *self;
        let self_id = self.runtime.node().id();
        let configs = self.runtime.take_config_changes();
        let ghost views = node::config_views(configs@);
        let ghost settled = self.runtime;
        let mut i: usize = 0;
        proof {
            assert(views.take(0).len() == 0);
        }
        while i < configs.len()
            invariant
                i <= configs.len(),
                views == node::config_views(configs@),
                self.runtime == settled,
                self.waiting() == before.waiting(),
                self.waiting_members() == before.waiting_members(),
                self.routes() == routes_through(before.routes(), views.take(i as int), self_id),
            decreases configs.len() - i,
        {
            self.routes.adopt(&configs[i], self_id);
            i = i + 1;
            proof {
                assert(views.take(i as int).drop_last() =~= views.take(i - 1));
                assert(views.take(i as int).last() == views[i - 1]);
            }
        }
        assert(views.take(i as int) =~= views);
    }

    /// Answers the clients whose entries have just been applied. An output with no waiting client
    /// is discarded, which is the normal case on a follower and after a restart.
    fn resolve_outputs(&mut self) -> (answers: Vec<(Ticket, ApiResponse<SM::Output>)>)
        requires
            old(self).wf(),
        ensures
            final(self).wf(),
            final(self).routes() == old(self).routes(),
            final(self).waiting_members() == old(self).waiting_members(),
            final(self).inner()@ == old(self).inner()@,
            final(self).inner().policy() == old(self).inner().policy(),
            final(self).inner().timer_config() == old(self).inner().timer_config(),
            final(self).inner().clock() == old(self).inner().clock(),
            final(self).inner().storage() == old(self).inner().storage(),
            final(self).inner().machine() == old(self).inner().machine(),
            final(self).inner().outputs() == Seq::<(Term, LogIndex, SM::Output)>::empty(),
            (final(self).waiting(), answers@) == answer_clients(
                old(self).waiting(),
                old(self).inner().outputs(),
            ),
    {
        let ghost before = *self;
        let mut outputs = self.runtime.take_outputs();
        let ghost all = outputs@;
        let ghost settled = self.runtime;
        let mut answers: Vec<(Ticket, ApiResponse<SM::Output>)> = Vec::new();
        let ghost mut done: int = 0;
        proof {
            assert(all.take(0).len() == 0);
            assert(all.skip(0) =~= all);
        }
        while outputs.len() > 0
            invariant
                0 <= done <= all.len(),
                outputs@ == all.skip(done),
                self.runtime == settled,
                self.routes() == before.routes(),
                self.waiting_members() == before.waiting_members(),
                waiters::distinct(self.waiting()),
                (self.waiting(), answers@) == answer_clients(before.waiting(), all.take(done)),
            decreases outputs.len(),
        {
            let ghost rest = outputs@;
            let (term, index, output) = outputs.remove(0);
            proof {
                assert(rest[0] == all[done]);
                assert(all.take(done + 1).drop_last() =~= all.take(done));
                assert(all.take(done + 1).last() == all[done]);
                assert(outputs@ =~= all.skip(done + 1));
            }
            if let Some(ticket) = self.pending.remove(term, index) {
                answers.push((ticket, ApiResponse::Result(output)));
            }
            proof {
                done = done + 1;
            }
        }
        assert(all.take(done) =~= all);
        answers
    }

    /// Fails every waiting client with `NotLeader`, and leaves every waiting membership caller in
    /// doubt, after this node steps down.
    ///
    /// The next leader may overwrite what has not committed, so waiting would end in a timeout that
    /// says less than the immediate answer does.
    fn purge_pending(&mut self) -> (replies: Replies<SM::Output>)
        requires
            old(self).wf(),
        ensures
            final(self).wf(),
            final(self).routes() == old(self).routes(),
            final(self).inner() == old(self).inner(),
            final(self).waiting() == Seq::<Waiting<Ticket>>::empty(),
            final(self).waiting_members() == Seq::<Waiting<MembershipWaiter>>::empty(),
            replies.clients@ == refuse_clients::<SM::Output>(
                old(self).waiting(),
                old(self).inner()@.node.leader_hint(),
            ),
            replies.members@ == refuse_members(old(self).waiting_members()),
    {
        let leader_hint = self.runtime.node().leader_hint();
        let clients = self.pending.drain();
        let members = self.pending_membership.drain();
        let mut client_answers: Vec<(Ticket, ApiResponse<SM::Output>)> = Vec::new();
        let mut i: usize = 0;
        while i < clients.len()
            invariant
                i <= clients.len(),
                client_answers@ == refuse_clients::<SM::Output>(clients@, leader_hint).take(
                    i as int,
                ),
            decreases clients.len() - i,
        {
            client_answers.push((clients[i].2, ApiResponse::NotLeader { leader_hint }));
            i = i + 1;
            proof {
                let all = refuse_clients::<SM::Output>(clients@, leader_hint);
                assert(all.take(i as int) =~= all.take(i - 1).push(all[i - 1]));
            }
        }
        let mut member_answers: Vec<(Ticket, MembershipResult)> = Vec::new();
        let mut j: usize = 0;
        while j < members.len()
            invariant
                j <= members.len(),
                member_answers@ == refuse_members(members@).take(j as int),
            decreases members.len() - j,
        {
            member_answers.push((members[j].2.ticket, MembershipResult::Indeterminate));
            j = j + 1;
            proof {
                let all = refuse_members(members@);
                assert(all.take(j as int) =~= all.take(j - 1).push(all[j - 1]));
            }
        }
        proof {
            let all = refuse_clients::<SM::Output>(clients@, leader_hint);
            assert(all.take(i as int) =~= all);
            let others = refuse_members(members@);
            assert(others.take(j as int) =~= others);
        }
        Replies { clients: client_answers, members: member_answers }
    }

    /// Answers the membership requests whose `ConfigChange` entries have just committed.
    fn resolve_membership_outputs(&mut self) -> (answers: Vec<(Ticket, MembershipResult)>)
        requires
            old(self).wf(),
        ensures
            final(self).wf(),
            final(self).routes() == old(self).routes(),
            final(self).waiting() == old(self).waiting(),
            final(self).inner().outputs() == old(self).inner().outputs(),
            final(self).inner().policy() == old(self).inner().policy(),
            final(self).inner().timer_config() == old(self).inner().timer_config(),
            final(self).inner().clock() == old(self).inner().clock(),
            final(self).inner().storage() == old(self).inner().storage(),
            final(self).inner().machine() == old(self).inner().machine(),
            final(self).inner()@ == (RuntimeView {
                node: NodeView { committed_configs: Seq::empty(), ..old(self).inner()@.node },
                ..old(self).inner()@
            }),
            (final(self).waiting_members(), answers@) == answer_members(
                old(self).waiting_members(),
                old(self).inner()@.node.committed_configs,
            ),
    {
        let ghost before = *self;
        let committed = self.runtime.take_committed_config_changes();
        let ghost views = node::committed_views(committed@);
        let ghost settled = self.runtime;
        let mut answers: Vec<(Ticket, MembershipResult)> = Vec::new();
        let mut i: usize = 0;
        proof {
            assert(views.take(0).len() == 0);
        }
        while i < committed.len()
            invariant
                i <= committed.len(),
                views == node::committed_views(committed@),
                self.runtime == settled,
                self.routes() == before.routes(),
                self.waiting() == before.waiting(),
                waiters::distinct(self.waiting_members()),
                (self.waiting_members(), answers@) == answer_members(
                    before.waiting_members(),
                    views.take(i as int),
                ),
            decreases committed.len() - i,
        {
            proof {
                assert(views.take(i + 1).drop_last() =~= views.take(i as int));
                assert(views.take(i + 1).last() == views[i as int]);
            }
            if let Some(waiter) = self.pending_membership.remove(committed[i].0, committed[i].1) {
                let result = if waiter.expected.same_members(&committed[i].2) {
                    MembershipResult::Committed
                } else {
                    MembershipResult::Indeterminate
                };
                answers.push((waiter.ticket, result));
            }
            i = i + 1;
        }
        assert(views.take(i as int) =~= views);
        answers
    }

    /// Settles what an event has left behind: routes follow the membership, and callers whose wait
    /// is over are answered.
    ///
    /// A node that has stepped down fails every client that waits, whatever has just been applied. A
    /// membership caller whose change has committed is told so first: a leader whose own removal
    /// commits steps down in that very step, and the change is then no longer in doubt.
    pub fn settle(&mut self) -> (replies: Replies<SM::Output>)
        requires
            old(self).wf(),
        ensures
            final(self).wf(),
            settled(*old(self), replies, *final(self)),
    {
        self.apply_config_changes();
        let mut members = self.resolve_membership_outputs();
        if !self.runtime.take_stepped_down() {
            let clients = self.resolve_outputs();
            assert(members@ + Seq::<(Ticket, MembershipResult)>::empty() =~= members@);
            return Replies { clients, members };
        }
        let mut refused = self.purge_pending();
        // Nobody is left to be told of an output.
        self.runtime.take_outputs();
        let ghost changed = members@;
        let ghost lost = refused.members@;
        members.append(&mut refused.members);
        assert(members@ =~= changed + lost);
        Replies { clients: refused.clients, members }
    }

    /// Handles an event, and settles what it leaves behind. The caller sends the messages and
    /// delivers the replies.
    ///
    /// # Errors
    /// `ServerError::Storage` or `ServerError::StateMachine` if persisting or snapshotting fails.
    /// Both are fatal, since the node can no longer honour the durability guarantee its responses
    /// imply.
    pub fn handle(&mut self, event: Event<Cmd>) -> (result: Result<
        Handled<Cmd, SM::Output>,
        ServerError<St::Error, SM::SnapshotError>,
    >)
        requires
            old(self).wf(),
            old(self).inner().accepts_event(event@),
        ensures
            final(self).wf(),
            result matches Ok(done) ==> served(*old(self), event@, done, *final(self)),
            result matches Err(e) ==> failed(*old(self), event@, e, *final(self)),
            result is Ok ==> (final(self).inner().policy().compact_threshold matches Some(threshold)
                ==> final(self).inner()@.node.applied.value
                - final(self).inner()@.node.persistent.log.boundary < threshold@),
    {
        let ghost before = *self;
        let commands = match self.runtime.handle(event) {
            Ok(commands) => commands,
            Err(error) => {
                let ghost cause = error;
                let e = ServerError::from_runtime(error);
                proof {
                    let (now, jitter_ms) = choose|now: Instant, jitter_ms: u64| #[trigger]
                        runtime::is_reading(before.inner().timer_config(), now, jitter_ms)
                            && runtime::read_from(
                            before.inner().clock(),
                            before.inner()@.seen,
                            before.inner().timer_config(),
                            now,
                            jitter_ms,
                        ) && runtime::handled(
                            before.inner(),
                            event@,
                            now,
                            jitter_ms,
                            Err(cause),
                            self.inner(),
                        );
                    assert(runtime::handled(
                        before.inner(),
                        event@,
                        now,
                        jitter_ms,
                        Err(cause),
                        self.inner(),
                    ));
                }
                assert(failed(before, event@, e, *self));
                return Err(e);
            },
        };
        let ghost mid = *self;
        assert(ran(before, event@, commands, mid));
        let replies = self.settle();
        let done = Handled { commands, replies };
        assert(settled(mid, done.replies, *self));
        assert(ran(before, event@, done.commands, mid));
        assert(served(before, event@, done, *self));
        Ok(done)
    }

    /// The event whose deadline has passed, if any.
    pub fn poll_timers(&self) -> (event: Option<Event<Cmd>>)
        requires
            self.wf(),
        ensures
            exists|now: Instant| #[trigger]
                self.inner().clock().shows_since(self.inner()@.seen, now) && runtime::event_view(event)
                    == runtime::due_event(self.inner()@, now),
            self.inner()@.node.role is Leader && self.inner()@.seen.nanos
                >= self.inner()@.heartbeat_deadline.nanos ==> event == Some(
                Event::<Cmd>::HeartbeatTimeout,
            ),
            !(self.inner()@.node.role is Leader) && self.inner()@.seen.nanos
                >= self.inner()@.election_deadline.nanos ==> event == Some(
                Event::<Cmd>::ElectionTimeout,
            ),
    {
        self.runtime.poll_timers()
    }

    /// How many nanoseconds to wait for a message at `now`: until the next deadline, but not longer
    /// than `limit_nanos`, so that requests are looked at in between.
    pub fn wait_time(&self, now: Instant, limit_nanos: u64) -> (nanos: u64)
        ensures
            nanos == time_left(self.inner()@, now, limit_nanos),
    {
        let left = self.runtime.next_deadline().saturating_duration_since(now);
        if left < limit_nanos as u128 {
            left as u64
        } else {
            limit_nanos
        }
    }

    /// What to do once every request has been looked at: handle the timeout that has fired, if one
    /// has, and otherwise wait for a message.
    pub fn next_turn(&self, limit_nanos: u64) -> (turn: Turn<Cmd>)
        requires
            self.wf(),
        ensures
            exists|now: Instant, later: Instant| #[trigger]
                is_turn(self.inner()@, now, later, limit_nanos, turn)
                    && self.inner().clock().shows_since(self.inner()@.seen, now)
                    && self.inner().clock().shows_since(now, later),
    {
        let now = self.runtime.now_since(Instant { nanos: 0 });
        let later = self.runtime.now_since(now);
        self.next_turn_at(now, later, limit_nanos)
    }

    /// What to do where the timers are looked at at `now`, and the wait begins at `later`.
    pub fn next_turn_at(&self, now: Instant, later: Instant, limit_nanos: u64) -> (turn: Turn<Cmd>)
        requires
            self.wf(),
        ensures
            is_turn(self.inner()@, now, later, limit_nanos, turn),
    {
        match self.runtime.poll_timers_at(now) {
            Some(event) => Turn::Handle(event),
            None => Turn::Wait(self.wait_time(later, limit_nanos)),
        }
    }
}

/// The nanoseconds from `now` until the next deadline, but not more than `limit_nanos`.
pub open spec fn time_left<C, S>(runtime: RuntimeView<C, S>, now: Instant, limit_nanos: u64) -> int {
    let deadline = if runtime.node.role is Leader {
        runtime.heartbeat_deadline
    } else {
        runtime.election_deadline
    };
    let left = if deadline.nanos > now.nanos {
        deadline.nanos - now.nanos
    } else {
        0
    };
    if left < limit_nanos {
        left
    } else {
        limit_nanos as int
    }
}

/// Whether `turn` is what to do where the timers are looked at at `now`, and the wait begins at
/// `later`.
pub open spec fn is_turn<Cmd: View, S>(
    runtime: RuntimeView<Cmd::V, S>,
    now: Instant,
    later: Instant,
    limit_nanos: u64,
    turn: Turn<Cmd>,
) -> bool {
    match turn {
        Turn::Handle(event) => runtime::due_event(runtime, now) == Some(event@),
        Turn::Wait(nanos) => {
            &&& runtime::due_event(runtime, now) is None
            &&& nanos == time_left(runtime, later, limit_nanos)
        },
    }
}

/// Whether running `event` through the runtime of `before` asks for `commands` and leads to `mid`.
pub open spec fn ran<Cmd: Clone + View, SM: StateMachine<Cmd>, St: Storage<Cmd>>(
    before: Server<Cmd, SM, St>,
    event: EventView<Cmd::V>,
    commands: Vec<Command<Cmd>>,
    mid: Server<Cmd, SM, St>,
) -> bool {
    &&& mid.routes() == before.routes()
    &&& mid.waiting() == before.waiting()
    &&& mid.waiting_members() == before.waiting_members()
    &&& mid.inner().policy() == before.inner().policy()
    &&& mid.inner().timer_config() == before.inner().timer_config()
    &&& mid.inner().clock() == before.inner().clock()
    &&& exists|now: Instant, jitter_ms: u64| #[trigger]
        runtime::is_reading(before.inner().timer_config(), now, jitter_ms) && runtime::read_from(
            before.inner().clock(),
            before.inner()@.seen,
            before.inner().timer_config(),
            now,
            jitter_ms,
        ) && runtime::handled(
            before.inner(),
            event,
            now,
            jitter_ms,
            Ok(commands),
            mid.inner(),
        )
}

/// Whether the runtime of `before` fails with `e` when it is handed `event`, and nothing else happens.
pub open spec fn failed<Cmd: Clone + View, SM: StateMachine<Cmd>, St: Storage<Cmd>>(
    before: Server<Cmd, SM, St>,
    event: EventView<Cmd::V>,
    e: ServerError<St::Error, SM::SnapshotError>,
    after: Server<Cmd, SM, St>,
) -> bool {
    &&& after.routes() == before.routes()
    &&& after.waiting() == before.waiting()
    &&& after.waiting_members() == before.waiting_members()
    &&& after.inner().policy() == before.inner().policy()
    &&& after.inner().timer_config() == before.inner().timer_config()
    &&& after.inner().clock() == before.inner().clock()
    &&& exists|
        now: Instant,
        jitter_ms: u64,
        error: RuntimeError<St::Error, SM::SnapshotError>,
    | #[trigger]
        runtime::handled(
            before.inner(),
            event,
            now,
            jitter_ms,
            Err(error),
            after.inner(),
        ) && runtime::is_reading(before.inner().timer_config(), now, jitter_ms)
            && runtime::read_from(
            before.inner().clock(),
            before.inner()@.seen,
            before.inner().timer_config(),
            now,
            jitter_ms,
        ) && e
            == server_error(error)
}

/// What handling an event does to a server: the runtime runs it, and what it leaves is settled.
pub open spec fn served<Cmd: Clone + View, SM: StateMachine<Cmd>, St: Storage<Cmd>>(
    before: Server<Cmd, SM, St>,
    event: EventView<Cmd::V>,
    done: Handled<Cmd, SM::Output>,
    after: Server<Cmd, SM, St>,
) -> bool {
    exists|mid: Server<Cmd, SM, St>| #[trigger]
        ran(before, event, done.commands, mid) && settled(mid, done.replies, after)
}

/// What settling does to a server. A node that has stepped down refuses every client; any other
/// answers those whose commands have been applied. Membership callers whose changes have committed are
/// answered, and, if this node has stepped down, the others are left in doubt.
pub open spec fn settled<Cmd: Clone + View, SM: StateMachine<Cmd>, St: Storage<Cmd>>(
    before: Server<Cmd, SM, St>,
    replies: Replies<SM::Output>,
    after: Server<Cmd, SM, St>,
) -> bool {
    let node = before.inner()@.node;
    let purged = before.inner()@.stepped_down;
    let (still, answered) = answer_clients(before.waiting(), before.inner().outputs());
    let (still_members, changed) = answer_members(before.waiting_members(), node.committed_configs);
    &&& after.routes() == routes_through(before.routes(), node.config_changes, node.id)
    &&& after.waiting() == if purged {
        Seq::<Waiting<Ticket>>::empty()
    } else {
        still
    }
    &&& after.waiting_members() == if purged {
        Seq::<Waiting<MembershipWaiter>>::empty()
    } else {
        still_members
    }
    &&& after.inner().outputs() == Seq::<(Term, LogIndex, SM::Output)>::empty()
    &&& after.inner().policy() == before.inner().policy()
    &&& after.inner().timer_config() == before.inner().timer_config()
    &&& after.inner().clock() == before.inner().clock()
    &&& after.inner().storage() == before.inner().storage()
    &&& after.inner().machine() == before.inner().machine()
    &&& after.inner()@ == (RuntimeView {
        node: NodeView {
            config_changes: Seq::empty(),
            committed_configs: Seq::empty(),
            ..node
        },
        stepped_down: false,
        ..before.inner()@
    })
    &&& replies.clients@ == if purged {
        refuse_clients::<SM::Output>(before.waiting(), node.leader_hint())
    } else {
        answered
    }
    &&& replies.members@ == changed + (if purged {
        refuse_members(still_members)
    } else {
        Seq::empty()
    })
}

/// A change is pending exactly where an entry above the commit index holds one.
pub proof fn law_change_is_pending_until_it_commits<C>(node: NodeView<C>)
    requires
        node.persistent.log.boundary + node.persistent.log.entries.len() < u64::MAX,
    ensures
        node.has_pending_config_change() <==> exists|k: int|
            0 <= k < node.persistent.log.entries.len() && node.persistent.log.boundary + 1 + k
                > node.commit.value && (#[trigger] node.persistent.log.entries[k]).payload is ConfigChange,
{
    let log = node.persistent.log;
    let next = if node.commit.value == u64::MAX {
        u64::MAX as int
    } else {
        node.commit.value + 1
    };
    let suffix = log.suffix_from(next);
    let skipped = if next <= log.boundary {
        0
    } else {
        next - log.boundary - 1
    };
    if log::has_config_change(suffix) {
        let i = choose|i: int| 0 <= i < suffix.len() && (#[trigger] suffix[i]).payload is ConfigChange;
        assert(suffix[i] == log.entries[skipped + i]);
    }
    assert forall|k: int|
        0 <= k < log.entries.len() && log.boundary + 1 + k > node.commit.value && (
        #[trigger] log.entries[k]).payload is ConfigChange implies log::has_config_change(suffix) by {
        assert(suffix[k - skipped] == log.entries[k]);
    }
}

/// Proposing a membership does not change who this node is.
proof fn lemma_proposing_keeps_id<C>(node: NodeView<C>, members: Members)
    ensures
        node.propose_config_change(members).id == node.id,
{
}

/// Of the clients that wait at a node that has not stepped down, exactly those still wait after
/// outputs have been put out whose entry is not among them, and every other is told the output of its
/// own entry.
pub proof fn law_clients_of_applied_entries_are_answered<O>(
    waiting: Seq<Waiting<Ticket>>,
    outputs: Seq<(Term, LogIndex, O)>,
)
    requires
        waiters::distinct(waiting),
    ensures
        waiters::distinct(answer_clients(waiting, outputs).0),
        answer_clients(waiting, outputs).0.len() + answer_clients(waiting, outputs).1.len()
            == waiting.len(),
        forall|w: Waiting<Ticket>| #[trigger]
            answer_clients(waiting, outputs).0.contains(w) <==> waiting.contains(w) && forall|i: int|
                0 <= i < outputs.len() ==> !((#[trigger] outputs[i]).0 == w.0 && outputs[i].1
                    == w.1),
        forall|w: Waiting<Ticket>|
            #![trigger waiting.contains(w)]
            waiting.contains(w) && !answer_clients(waiting, outputs).0.contains(w) ==> exists|
                j: int,
                i: int,
            | #[trigger]
                is_answer(answer_clients(waiting, outputs).1, j, w.2, outputs, i) && outputs[i].0
                    == w.0 && outputs[i].1 == w.1,
    decreases outputs.len(),
{
    if outputs.len() > 0 {
        let fewer = outputs.drop_last();
        law_clients_of_applied_entries_are_answered(waiting, fewer);
        let (mid, told) = answer_clients(waiting, fewer);
        let (still, answered) = answer_clients(waiting, outputs);
        let n = fewer.len() as int;
        let (term, index, _) = outputs[n];
        waiters::lemma_without(mid, term, index);
        assert(still == waiters::without(mid, term, index));
        assert forall|w: Waiting<Ticket>| #[trigger] still.contains(w) <==> waiting.contains(w)
            && forall|i: int|
            0 <= i < outputs.len() ==> !((#[trigger] outputs[i]).0 == w.0 && outputs[i].1
                == w.1) by {
            if mid.contains(w) {
                assert forall|i: int| 0 <= i < outputs.len() && still.contains(w) implies !((
                #[trigger] outputs[i]).0 == w.0 && outputs[i].1 == w.1) by {
                    if i < n {
                        assert(fewer[i] == outputs[i]);
                    }
                }
                if !still.contains(w) {
                    assert(outputs[n].0 == w.0 && outputs[n].1 == w.1);
                }
            } else if waiting.contains(w) {
                let i = choose|i: int|
                    0 <= i < fewer.len() && (#[trigger] fewer[i]).0 == w.0 && fewer[i].1 == w.1;
                assert(outputs[i] == fewer[i]);
            }
        }
        assert forall|w: Waiting<Ticket>|
            #![trigger waiting.contains(w)]
            waiting.contains(w) && !still.contains(w) implies exists|j: int, i: int| #[trigger]
            is_answer(answered, j, w.2, outputs, i) && outputs[i].0 == w.0 && outputs[i].1
                == w.1 by {
            if mid.contains(w) {
                let k = choose|k: int| 0 <= k < mid.len() && mid[k] == w;
                assert(waiters::waits_at(mid, term, index, k));
                let p = waiters::place_of(mid, term, index);
                assert(waiters::waits_at(mid, term, index, p));
                assert(k == p);
                assert(is_answer(answered, told.len() as int, w.2, outputs, n));
            } else {
                let (j, i) = choose|j: int, i: int| #[trigger]
                    is_answer(told, j, w.2, fewer, i) && fewer[i].0 == w.0 && fewer[i].1 == w.1;
                assert(fewer[i] == outputs[i]);
                assert(answered[j] == told[j]);
                assert(is_answer(answered, j, w.2, outputs, i));
            }
        }
    }
}

/// Whether answer `j` tells the caller with this ticket the output at `i`.
pub open spec fn is_answer<O>(
    answered: Seq<(Ticket, ApiResponse<O>)>,
    j: int,
    ticket: Ticket,
    outputs: Seq<(Term, LogIndex, O)>,
    i: int,
) -> bool {
    &&& 0 <= j < answered.len()
    &&& 0 <= i < outputs.len()
    &&& answered[j] == (ticket, ApiResponse::Result(outputs[i].2))
}

/// Of the membership callers that wait, exactly those still wait after memberships have committed
/// whose change is not among them, and every other is told what became of it: nobody whose change
/// committed is left in doubt.
pub proof fn law_callers_of_committed_changes_are_answered(
    waiting: Seq<Waiting<MembershipWaiter>>,
    committed: Seq<(Term, LogIndex, Members)>,
)
    requires
        waiters::distinct(waiting),
    ensures
        waiters::distinct(answer_members(waiting, committed).0),
        answer_members(waiting, committed).0.len() + answer_members(waiting, committed).1.len()
            == waiting.len(),
        forall|w: Waiting<MembershipWaiter>| #[trigger]
            answer_members(waiting, committed).0.contains(w) <==> waiting.contains(w) && forall|
                i: int,
            |
                0 <= i < committed.len() ==> !((#[trigger] committed[i]).0 == w.0 && committed[i].1
                    == w.1),
        forall|w: Waiting<MembershipWaiter>|
            #![trigger waiting.contains(w)]
            waiting.contains(w) && !answer_members(waiting, committed).0.contains(w) ==> exists|
                j: int,
                i: int,
            | #[trigger]
                is_outcome(answer_members(waiting, committed).1, j, w.2@, committed, i)
                    && committed[i].0 == w.0 && committed[i].1 == w.1,
    decreases committed.len(),
{
    if committed.len() > 0 {
        let fewer = committed.drop_last();
        law_callers_of_committed_changes_are_answered(waiting, fewer);
        let (mid, told) = answer_members(waiting, fewer);
        let (still, answered) = answer_members(waiting, committed);
        let n = fewer.len() as int;
        let (term, index, _) = committed[n];
        waiters::lemma_without(mid, term, index);
        assert(still == waiters::without(mid, term, index));
        assert forall|w: Waiting<MembershipWaiter>| #[trigger] still.contains(w)
            <==> waiting.contains(w) && forall|i: int|
            0 <= i < committed.len() ==> !((#[trigger] committed[i]).0 == w.0 && committed[i].1
                == w.1) by {
            if mid.contains(w) {
                assert forall|i: int| 0 <= i < committed.len() && still.contains(w) implies !((
                #[trigger] committed[i]).0 == w.0 && committed[i].1 == w.1) by {
                    if i < n {
                        assert(fewer[i] == committed[i]);
                    }
                }
                if !still.contains(w) {
                    assert(committed[n].0 == w.0 && committed[n].1 == w.1);
                }
            } else if waiting.contains(w) {
                let i = choose|i: int|
                    0 <= i < fewer.len() && (#[trigger] fewer[i]).0 == w.0 && fewer[i].1 == w.1;
                assert(committed[i] == fewer[i]);
            }
        }
        assert forall|w: Waiting<MembershipWaiter>|
            #![trigger waiting.contains(w)]
            waiting.contains(w) && !still.contains(w) implies exists|j: int, i: int| #[trigger]
            is_outcome(answered, j, w.2@, committed, i) && committed[i].0 == w.0 && committed[i].1
                == w.1 by {
            if mid.contains(w) {
                let k = choose|k: int| 0 <= k < mid.len() && mid[k] == w;
                assert(waiters::waits_at(mid, term, index, k));
                let p = waiters::place_of(mid, term, index);
                assert(waiters::waits_at(mid, term, index, p));
                assert(k == p);
                assert(is_outcome(answered, told.len() as int, w.2@, committed, n));
            } else {
                let (j, i) = choose|j: int, i: int| #[trigger]
                    is_outcome(told, j, w.2@, fewer, i) && fewer[i].0 == w.0 && fewer[i].1 == w.1;
                assert(fewer[i] == committed[i]);
                assert(answered[j] == told[j]);
                assert(is_outcome(answered, j, w.2@, committed, i));
            }
        }
    }
}

/// Whether answer `j` tells a membership caller what became of the change at `i`.
pub open spec fn is_outcome(
    answered: Seq<(Ticket, MembershipResult)>,
    j: int,
    waiter: (Members, Ticket),
    committed: Seq<(Term, LogIndex, Members)>,
    i: int,
) -> bool {
    &&& 0 <= j < answered.len()
    &&& 0 <= i < committed.len()
    &&& answered[j] == (waiter.1, membership_outcome(waiter.0, committed[i].2))
}

} // verus!
