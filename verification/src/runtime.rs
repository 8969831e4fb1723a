//! A node with a clock, storage, and a state machine.
use vstd::prelude::*;

use crate::command;
use crate::command::Command;
use crate::command::CommandView;
use crate::model;
use crate::model::AppliedView;
use crate::model::NodeView;
use crate::node;
use crate::node::CompactError;
use crate::node::Node;
use crate::node::NotLeaderError;
use crate::node::SubmitError;
use crate::persistent;
use crate::state_machine;
use crate::state_machine::StateMachine;
use crate::storage;
use crate::storage::LoadedState;
use crate::storage::Storage;
use crate::storage::StoredView;
use crate::time;
use crate::time::Clock;
use crate::time::Duration;
use crate::time::Instant;
use crate::types::config::ClusterConfig;
use crate::types::config::Members;
use crate::types::log;
use crate::types::message::Message;
use crate::types::message::MessageView;
use crate::types::primitives::LogIndex;
use crate::types::primitives::NodeId;
use crate::types::primitives::Term;
use crate::types::snapshot::SnapshotData;
use crate::types::snapshot::SnapshotView;

verus! {

/// Something that has happened and requires the node to act.
pub enum Event<Cmd> {
    ElectionTimeout,
    HeartbeatTimeout,
    Message { from: NodeId, message: Message<Cmd> },
}

/// What an event stands for.
#[verifier::ext_equal]
pub enum EventView<C> {
    ElectionTimeout,
    HeartbeatTimeout,
    Message { from: NodeId, message: MessageView<C> },
}

impl<Cmd: View> View for Event<Cmd> {
    type V = EventView<Cmd::V>;

    open spec fn view(&self) -> EventView<Cmd::V> {
        match *self {
            Event::ElectionTimeout => EventView::ElectionTimeout,
            Event::HeartbeatTimeout => EventView::HeartbeatTimeout,
            Event::Message { from, message } => EventView::Message { from, message: message@ },
        }
    }
}

impl<C> EventView<C> {
    /// Whether every index fits that this event leads `node` to.
    pub open spec fn fits(self, node: NodeView<C>) -> bool {
        self matches EventView::Message { message, .. } ==> node.has_room_for(message)
    }

    /// What a node makes of this event.
    pub open spec fn step(self, node: NodeView<C>) -> model::Step<C> {
        match self {
            EventView::ElectionTimeout => node.election_timeout(),
            EventView::HeartbeatTimeout => node.heartbeat_timeout(),
            EventView::Message { from, message } => node.handle_message(from, message),
        }
    }
}

/// Timer durations governing elections and replication.
#[derive(Clone, Copy, Debug, PartialEq, Eq, Structural)]
pub struct TimerConfig {
    /// Base time a follower waits without hearing from a leader before standing for election. The
    /// actual wait is randomized within this value and twice it.
    pub election_timeout: Duration,
    /// How often a leader replicates. Must be comfortably below `election_timeout`, or followers
    /// will time out under a healthy leader.
    pub heartbeat_interval: Duration,
}

impl TimerConfig {
    /// There is a millisecond to choose a random share of.
    pub open spec fn wf(self) -> bool {
        self.election_timeout.millis() > 0
    }
}

impl Default for TimerConfig {
    fn default() -> (config: Self)
        ensures
            config.wf(),
            config.election_timeout.millis() == 300,
            config.heartbeat_interval.millis() == 100,
            config.election_timeout.nanos % time::NANOS_PER_MILLI == 0,
            config.heartbeat_interval.nanos % time::NANOS_PER_MILLI == 0,
            config.election_timeout.nanos == 300_000_000,
            config.heartbeat_interval.nanos == 100_000_000,
    {
        TimerConfig {
            election_timeout: Duration::from_millis(300),
            heartbeat_interval: Duration::from_millis(100),
        }
    }
}

/// A number of entries that is not zero.
#[derive(Clone, Copy, Debug, PartialEq, Eq, Structural)]
pub struct NonZeroUsize {
    value: usize,
}

impl View for NonZeroUsize {
    type V = nat;

    closed spec fn view(&self) -> nat {
        self.value as nat
    }
}

impl NonZeroUsize {
    #[verifier::type_invariant]
    spec fn inv(self) -> bool {
        self.value > 0
    }

    /// `value`, unless it is zero.
    pub fn new(value: usize) -> (number: Option<Self>)
        ensures
            number is Some <==> value > 0,
            number matches Some(n) ==> n@ == value,
    {
        if value == 0 {
            None
        } else {
            Some(NonZeroUsize { value })
        }
    }

    /// The number.
    pub fn get(self) -> (value: usize)
        ensures
            value == self@,
            value > 0,
    {
        proof {
            use_type_invariant(self);
        }
        self.value
    }
}

/// When the runtime compacts the log on its own. Evaluated after every batch of applies.
#[derive(Clone, Copy, Debug, PartialEq, Eq, Structural)]
pub struct SnapshotPolicy {
    /// Compact once this many entries have been applied since the last snapshot. `None` leaves
    /// compaction entirely to the caller.
    pub compact_threshold: Option<NonZeroUsize>,
}

impl SnapshotPolicy {
    /// Whether a node should compact its log.
    pub open spec fn is_due<C>(self, node: NodeView<C>) -> bool {
        self.compact_threshold matches Some(threshold) && node.applied.value > node.log().boundary
            && node.applied.value - node.log().boundary >= threshold@
    }
}

impl Default for SnapshotPolicy {
    fn default() -> (policy: Self)
        ensures
            policy.compact_threshold is None,
    {
        SnapshotPolicy { compact_threshold: None }
    }
}

/// Why a `Runtime` operation failed. The two sources are the durable storage backend and the state
/// machine's own serialization.
#[derive(Debug)]
pub enum RuntimeError<StErr, SmErr> {
    Storage(StErr),
    StateMachine(SmErr),
}

/// Taking entries to apply only moves the applied position and notes membership changes.
pub proof fn lemma_take_entry<C>(node: NodeView<C>)
    ensures
        ({
            let (after, taken) = node.take_entry_to_apply();
            &&& after == (NodeView {
                applied: after.applied,
                committed_configs: after.committed_configs,
                ..node
            })
            &&& after.applied.value >= node.applied.value
            &&& after.applied.value > node.applied.value ==> after.applied.value
                <= node.commit.value
            &&& taken is Some ==> after.applied.value > node.applied.value
            &&& taken matches Some(entry) ==> entry.index == after.applied
        }),
    decreases node.commit.value - node.applied.value,
{
    if node.applied.value < node.commit.value {
        let index = LogIndex { value: (node.applied.value + 1) as u64 };
        let next = NodeView { applied: index, ..node };
        if node.log().retains(index.value as int) {
            let entry = node.log().at(index.value as int);
            match entry.payload {
                log::PayloadView::NoOp => {
                    lemma_take_entry(next);
                },
                log::PayloadView::ConfigChange(config) => {
                    lemma_take_entry(
                        NodeView {
                            committed_configs: node.committed_configs.push(
                                (Term { value: entry.term as u64 }, index, config),
                            ),
                            ..next
                        },
                    );
                },
                log::PayloadView::Command(_) => {},
            }
        }
    }
}

/// The state after taking every entry that is ready to apply, and the entries taken, in order.
pub open spec fn take_all<C>(node: NodeView<C>) -> (NodeView<C>, Seq<AppliedView<C>>)
    decreases node.commit.value - node.applied.value,
{
    proof {
        lemma_take_entry(node);
    }
    let (after, taken) = node.take_entry_to_apply();
    match taken {
        None => (after, Seq::empty()),
        Some(entry) => if after.applied.value > node.applied.value {
            let (end, rest) = take_all(after);
            (end, seq![entry] + rest)
        } else {
            (after, Seq::empty())
        },
    }
}

/// Taking every entry only moves the applied position and notes membership changes.
pub proof fn lemma_take_all<C>(node: NodeView<C>)
    ensures
        take_all(node).0 == (NodeView {
            applied: take_all(node).0.applied,
            committed_configs: take_all(node).0.committed_configs,
            ..node
        }),
    decreases node.commit.value - node.applied.value,
{
    lemma_take_entry(node);
    let (after, taken) = node.take_entry_to_apply();
    if taken is Some {
        lemma_take_all(after);
    }
}

/// The commands of a run of entries.
pub open spec fn commands_of<C>(entries: Seq<AppliedView<C>>) -> Seq<C> {
    Seq::new(entries.len(), |i: int| entries[i].command)
}

/// What a runtime stands for.
#[verifier::ext_equal]
pub struct RuntimeView<C, S> {
    pub node: NodeView<C>,
    pub stored: StoredView<C>,
    pub state: S,
    pub stepped_down: bool,
    pub election_deadline: Instant,
    pub heartbeat_deadline: Instant,
    /// The latest time that this runtime has acted at.
    pub seen: Instant,
}

/// When the election timeout fires if it is armed at `now`: between one and two timeouts later.
pub open spec fn election_deadline(config: TimerConfig, now: Instant, jitter_ms: u64) -> Instant {
    Instant {
        nanos: (now.nanos + config.election_timeout.nanos + jitter_ms
            * time::NANOS_PER_MILLI) as u128,
    }
}

/// When the heartbeat interval fires if it is armed at `now`.
pub open spec fn heartbeat_deadline(config: TimerConfig, now: Instant) -> Instant {
    Instant { nanos: (now.nanos + config.heartbeat_interval.nanos) as u128 }
}

/// The share of the election timeout that may be added to it at random, and a clock reading that
/// leaves room for deadlines.
pub open spec fn is_reading(config: TimerConfig, now: Instant, jitter_ms: u64) -> bool {
    &&& jitter_ms < config.election_timeout.millis()
    &&& now.nanos <= u128::MAX / 2
}

/// Whether a clock that had shown `seen` before showed `now`, and `jitter_ms` was drawn at random.
pub open spec fn read_from(
    clock: Clock,
    seen: Instant,
    config: TimerConfig,
    now: Instant,
    jitter_ms: u64,
) -> bool {
    &&& clock.shows_since(seen, now)
    &&& time::drawn(config.election_timeout.millis() as u64, jitter_ms)
}

impl<C, S> RuntimeView<C, S> {
    /// A runtime that has just been put together.
    pub open spec fn assembled(
        node: NodeView<C>,
        stored: StoredView<C>,
        state: S,
        config: TimerConfig,
        now: Instant,
        jitter_ms: u64,
    ) -> Self {
        RuntimeView {
            node,
            stored,
            state,
            stepped_down: false,
            election_deadline: election_deadline(config, now, jitter_ms),
            heartbeat_deadline: heartbeat_deadline(config, now),
            seen: now,
        }
    }

    /// The state once the node has acted on an event and its timers are armed again as it asked.
    pub open spec fn stepped(
        self,
        event: EventView<C>,
        config: TimerConfig,
        now: Instant,
        jitter_ms: u64,
    ) -> Self {
        let (after, commands) = event.step(self.node);
        RuntimeView {
            node: after,
            stepped_down: self.stepped_down || (self.node.role is Leader && !(
            after.role is Leader)),
            election_deadline: if commands.contains(CommandView::ResetElectionTimer) {
                election_deadline(config, now, jitter_ms)
            } else {
                self.election_deadline
            },
            heartbeat_deadline: if commands.contains(CommandView::ResetHeartbeatTimer) {
                heartbeat_deadline(config, now)
            } else {
                self.heartbeat_deadline
            },
            seen: if now.nanos > self.seen.nanos {
                now
            } else {
                self.seen
            },
            ..self
        }
    }

    /// The state once everything the node has recorded is in storage.
    pub open spec fn saved(self) -> Self {
        RuntimeView {
            node: NodeView { persistent: self.node.persistent.cleared(4), ..self.node },
            stored: self.node.persistent.replay(self.stored),
            ..self
        }
    }

    /// The state once the state machine has been replaced by the snapshot that waits for it.
    pub open spec fn restored(self, state: S) -> Self {
        RuntimeView { node: NodeView { to_restore: None, ..self.node }, state, ..self }
    }

    /// The state once the log has been compacted behind a snapshot with this data.
    pub open spec fn compacted(self, data: Seq<u8>) -> Self {
        RuntimeView { node: self.node.compact_to_snapshot(data), ..self }.saved()
    }
}

/// Drives a `Node`, supplying the three things it deliberately lacks: a clock, durable storage, and
/// a state machine.
///
/// The node decides what should happen; the runtime makes it happen, in the order Raft requires.
/// Sending the resulting messages is still the caller's job, which keeps the transport out of this
/// layer.
pub struct Runtime<Cmd, S, St> where Cmd: Clone + View, S: StateMachine<Cmd>, St: Storage<Cmd> {
    node: Node<Cmd>,
    state_machine: S,
    storage: St,
    config: TimerConfig,
    snapshot_policy: SnapshotPolicy,
    clock: Clock,
    election_deadline: Instant,
    heartbeat_deadline: Instant,
    /// The latest time that this runtime has acted at.
    seen: Instant,
    /// Outputs from applying committed entries, in log order. Drained by `take_outputs`.
    pending_outputs: Vec<(Term, LogIndex, S::Output)>,
    /// Set when the most recent `handle` demoted this node from leader. Drained by
    /// `take_stepped_down`.
    stepped_down: bool,
}

impl<Cmd: Clone + View, S: StateMachine<Cmd>, St: Storage<Cmd>> View for Runtime<Cmd, S, St> {
    type V = RuntimeView<Cmd::V, S::State>;

    closed spec fn view(&self) -> RuntimeView<Cmd::V, S::State> {
        RuntimeView {
            node: self.node@,
            stored: self.storage.stored(),
            state: self.state_machine.state(),
            stepped_down: self.stepped_down,
            election_deadline: self.election_deadline,
            heartbeat_deadline: self.heartbeat_deadline,
            seen: self.seen,
        }
    }
}

/// Whether `outputs` is what applying `entries` to a state machine in `state` puts out.
pub open spec fn are_outputs<Cmd: View, S: StateMachine<Cmd>>(
    state: S::State,
    entries: Seq<AppliedView<Cmd::V>>,
    outputs: Seq<(Term, LogIndex, S::Output)>,
) -> bool {
    &&& outputs.len() == entries.len()
    &&& forall|i: int|
        0 <= i < entries.len() ==> {
            &&& (#[trigger] outputs[i]).0 == entries[i].term
            &&& outputs[i].1 == entries[i].index
            &&& S::answers(
                state_machine::state_after::<Cmd, S>(state, commands_of(entries.take(i))),
                entries[i].command,
                outputs[i].2,
            )
        }
}

impl<Cmd: Clone + View, S: StateMachine<Cmd>, St: Storage<Cmd>> Runtime<Cmd, S, St> {
    /// The timer durations of this runtime.
    pub closed spec fn timer_config(self) -> TimerConfig {
        self.config
    }

    /// When this runtime compacts.
    pub closed spec fn policy(self) -> SnapshotPolicy {
        self.snapshot_policy
    }

    /// The clock that deadlines are measured by.
    pub closed spec fn clock(self) -> Clock {
        self.clock
    }

    /// The storage of this runtime.
    pub closed spec fn storage(self) -> St {
        self.storage
    }

    /// The state machine of this runtime.
    pub closed spec fn machine(self) -> S {
        self.state_machine
    }

    /// The outputs that nobody has taken yet.
    pub closed spec fn outputs(self) -> Seq<(Term, LogIndex, S::Output)> {
        self.pending_outputs@
    }

    /// The node and the timers are well-formed, and there is room for deadlines.
    pub closed spec fn wf(self) -> bool {
        self.node.wf() && self.config.wf() && self.seen.nanos <= u128::MAX / 2
    }

    /// Whether this runtime may be handed `event`: there is an index left for the next entry, and
    /// the event fits.
    pub open spec fn accepts_event(self, event: EventView<Cmd::V>) -> bool {
        self@.node.log().last_index() < u64::MAX && event.fits(self@.node)
    }

    /// Wraps `node` with the clock, storage, and state machine it needs.
    pub fn new(
        node: Node<Cmd>,
        state_machine: S,
        storage: St,
        config: TimerConfig,
        snapshot_policy: SnapshotPolicy,
    ) -> (runtime: Self)
        requires
            node.wf(),
            config.wf(),
        ensures
            runtime.wf(),
            runtime.storage() == storage,
            runtime.machine() == state_machine,
            runtime.timer_config() == config,
            runtime.policy() == snapshot_policy,
            runtime.outputs() == Seq::<(Term, LogIndex, S::Output)>::empty(),
            runtime.clock().started(),
            exists|now: Instant, jitter_ms: u64| #[trigger]
                is_reading(config, now, jitter_ms) && read_from(
                    runtime.clock(),
                    Instant { nanos: 0 },
                    config,
                    now,
                    jitter_ms,
                ) && runtime@ == RuntimeView::assembled(
                    node@,
                    storage.stored(),
                    state_machine.state(),
                    config,
                    now,
                    jitter_ms,
                ),
    {
        let clock = Clock::start();
        let (now, jitter_ms) = read(&clock, config);
        Runtime::assemble(
            node,
            state_machine,
            storage,
            config,
            snapshot_policy,
            clock,
            now,
            jitter_ms,
        )
    }

    /// Puts a runtime together whose timers are armed at `now`.
    ///
    /// The election deadline is randomized between one and two election timeouts, exactly as a
    /// restart of the timer does. A fixed initial deadline would make every node in a fresh cluster
    /// stand for election at the same instant, splitting the first vote every time.
    pub fn assemble(
        node: Node<Cmd>,
        state_machine: S,
        storage: St,
        config: TimerConfig,
        snapshot_policy: SnapshotPolicy,
        clock: Clock,
        now: Instant,
        jitter_ms: u64,
    ) -> (runtime: Self)
        requires
            node.wf(),
            config.wf(),
            is_reading(config, now, jitter_ms),
        ensures
            runtime.wf(),
            runtime.clock() == clock,
            runtime.storage() == storage,
            runtime.machine() == state_machine,
            runtime.timer_config() == config,
            runtime.policy() == snapshot_policy,
            runtime.outputs() == Seq::<(Term, LogIndex, S::Output)>::empty(),
            runtime@ == RuntimeView::assembled(
                node@,
                storage.stored(),
                state_machine.state(),
                config,
                now,
                jitter_ms,
            ),
    {
        Runtime {
            node,
            state_machine,
            storage,
            snapshot_policy,
            election_deadline: election_deadline_at(config, now, jitter_ms),
            heartbeat_deadline: heartbeat_deadline_at(config, now),
            seen: now,
            config,
            clock,
            pending_outputs: Vec::new(),
            stepped_down: false,
        }
    }

    /// Rebuilds a runtime from durable storage, restarting as a follower (section 5.1).
    ///
    /// A persisted snapshot is restored into the state machine before anything else, since the log
    /// no longer contains the entries it covers. Committed entries above the snapshot boundary are
    /// replayed later, as the leader drives this node forward with AppendEntries.
    ///
    /// # Errors
    /// `RuntimeError::Storage` if the persisted state cannot be read.
    /// `RuntimeError::StateMachine` if the snapshot cannot be restored.
    pub fn from_storage(
        id: NodeId,
        initial_config: ClusterConfig,
        state_machine: S,
        storage: St,
        config: TimerConfig,
        snapshot_policy: SnapshotPolicy,
    ) -> (result: Result<Self, RuntimeError<St::Error, S::SnapshotError>>)
        requires
            log::clone_keeps_view::<Cmd>(),
            config.wf(),
            storage::log_after(
                storage.stored().snapshot,
                storage.stored().log.entries,
            ).last_index() <= u64::MAX,
        ensures
            result matches Ok(runtime) ==> {
                &&& runtime.wf()
                &&& runtime.storage() == storage
                &&& exists|loaded: LoadedState<Cmd>| #[trigger]
                    storage::may_load::<Cmd, St>(&storage, Ok(loaded))
                &&& runtime.timer_config() == config
                &&& runtime.policy() == snapshot_policy
                &&& runtime.outputs() == Seq::<(Term, LogIndex, S::Output)>::empty()
                &&& runtime.clock().started()
                &&& exists|now: Instant, jitter_ms: u64| #[trigger]
                    is_reading(config, now, jitter_ms) && read_from(
                        runtime.clock(),
                        Instant { nanos: 0 },
                        config,
                        now,
                        jitter_ms,
                    ) && runtime@ == RuntimeView::assembled(
                        NodeView::restored(id, initial_config@, storage.stored()),
                        storage.stored(),
                        runtime@.state,
                        config,
                        now,
                        jitter_ms,
                    )
                &&& match storage.stored().snapshot {
                    Some(snapshot) => S::decoded(snapshot.data) == Some(runtime@.state),
                    None => runtime@.state == state_machine.state(),
                }
            },
            result matches Err(RuntimeError::Storage(e)) ==> storage::may_load::<Cmd, St>(
                &storage,
                Err(e),
            ),
            result matches Err(RuntimeError::StateMachine(e)) ==> {
                &&& exists|loaded: LoadedState<Cmd>| #[trigger]
                    storage::may_load::<Cmd, St>(&storage, Ok(loaded))
                &&& storage.stored().snapshot matches Some(snapshot) && S::decoded(
                    snapshot.data,
                ) is None && S::refuses(snapshot.data, e)
            },
    {
        let mut state_machine = state_machine;
        let node = match Node::from_storage(id, initial_config, &storage) {
            Ok(node) => node,
            Err(e) => {
                return Err(RuntimeError::Storage(e));
            },
        };
        proof {
            lemma_restored_snapshot::<Cmd::V>(id, initial_config@, storage.stored());
        }
        if let Some(snapshot) = node.persistent().latest_snapshot() {
            match state_machine.restore(&snapshot.data) {
                Ok(()) => {},
                Err(e) => {
                    return Err(RuntimeError::StateMachine(e));
                },
            }
        }
        Ok(Runtime::new(node, state_machine, storage, config, snapshot_policy))
    }

    /// The wrapped node.
    pub fn node(&self) -> (node: &Node<Cmd>)
        requires
            self.wf(),
        ensures
            node.wf(),
            node@ == self@.node,
    {
        &self.node
    }

    /// The state machine, for serving reads.
    pub fn state_machine(&self) -> (machine: &S)
        ensures
            *machine == self.machine(),
            machine.state() == self@.state,
    {
        &self.state_machine
    }

    /// Mutable access to the state machine. Bypassing `apply` with this leaves the replicas
    /// divergent, since the change is in no log.
    pub fn state_machine_mut(&mut self) -> (machine: &mut S)
        ensures
            *machine == old(self).machine(),
            *final(machine) == final(self).machine(),
            machine.state() == old(self)@.state,
            final(self)@ == (RuntimeView { state: final(machine).state(), ..old(self)@ }),
            old(self).wf() ==> final(self).wf(),
            final(self).timer_config() == old(self).timer_config(),
            final(self).clock() == old(self).clock(),
            final(self).policy() == old(self).policy(),
            final(self).storage() == old(self).storage(),
            final(self).outputs() == old(self).outputs(),
    {
        &mut self.state_machine
    }

    /// Consumes the runtime and hands back its storage, so the same storage can be fed to
    /// `from_storage` to simulate a crash and restart.
    pub fn into_storage(self) -> (storage: St)
        ensures
            storage == self.storage(),
            storage.stored() == self@.stored,
    {
        self.storage
    }

    /// Whether `event` may be handed to `handle`. One that may not be would lead to an index that no
    /// correct peer can have reached.
    pub fn accepts(&self, event: &Event<Cmd>) -> (yes: bool)
        requires
            self.wf(),
        ensures
            yes == self.accepts_event(event@),
            !(event is Message) ==> yes == (self@.node.persistent.log.boundary
                + self@.node.persistent.log.entries.len() < u64::MAX),
            event matches Event::Message { message, .. } ==> yes == (
            self@.node.persistent.log.boundary + self@.node.persistent.log.entries.len() < u64::MAX
                && self@.node.has_room_for(message@)),
    {
        let room = self.node.persistent().log().last_index().value < u64::MAX;
        let fits = match event {
            Event::Message { message, .. } => self.node.has_room_for(message),
            _ => true,
        };
        room && fits
    }

    /// Processes one event and returns the messages the caller must send.
    ///
    /// State is durable by the time this returns, and not before. The caller must therefore not
    /// transmit anything until it does, since section 5.1 forbids responding to an RPC ahead of the
    /// state that response promises.
    ///
    /// # Errors
    /// `RuntimeError::Storage` if persisting fails.
    /// `RuntimeError::StateMachine` if restoring a snapshot or taking one fails.
    pub fn handle(&mut self, event: Event<Cmd>) -> (result: Result<
        Vec<Command<Cmd>>,
        RuntimeError<St::Error, S::SnapshotError>,
    >)
        requires
            old(self).wf(),
            old(self).accepts_event(event@),
        ensures
            final(self).wf(),
            final(self).timer_config() == old(self).timer_config(),
            final(self).clock() == old(self).clock(),
            final(self).policy() == old(self).policy(),
            exists|now: Instant, jitter_ms: u64| #[trigger]
                is_reading(old(self).timer_config(), now, jitter_ms) && read_from(
                    old(self).clock(),
                    old(self)@.seen,
                    old(self).timer_config(),
                    now,
                    jitter_ms,
                ) && handled(
                    *old(self),
                    event@,
                    now,
                    jitter_ms,
                    result,
                    *final(self),
                ),
            result is Ok ==> (final(self).policy().compact_threshold matches Some(threshold)
                ==> final(self)@.node.applied.value - final(self)@.node.persistent.log.boundary
                < threshold@),
    {
        let (shown, jitter_ms) = read(&self.clock, self.config);
        let now = if shown.nanos >= self.seen.nanos {
            shown
        } else {
            self.seen
        };
        assert(self.clock().shows(shown));
        assert(self.clock().shows_since(self@.seen, now));
        self.handle_at(event, now, jitter_ms)
    }

    /// Processes one event that happens at `now`. A timer that is to be restarted is armed from
    /// there, the election timeout with `jitter_ms` added to it.
    pub fn handle_at(&mut self, event: Event<Cmd>, now: Instant, jitter_ms: u64) -> (result: Result<
        Vec<Command<Cmd>>,
        RuntimeError<St::Error, S::SnapshotError>,
    >)
        requires
            old(self).wf(),
            old(self).accepts_event(event@),
            is_reading(old(self).timer_config(), now, jitter_ms),
        ensures
            final(self).wf(),
            final(self).timer_config() == old(self).timer_config(),
            final(self).clock() == old(self).clock(),
            final(self).policy() == old(self).policy(),
            handled(*old(self), event@, now, jitter_ms, result, *final(self)),
            result is Ok ==> (final(self).policy().compact_threshold matches Some(threshold)
                ==> final(self)@.node.applied.value - final(self)@.node.persistent.log.boundary
                < threshold@),
    {
        let was_leader = self.node.role().is_leader();
        let commands = match event {
            Event::ElectionTimeout => self.node.election_timeout(),
            Event::HeartbeatTimeout => self.node.heartbeat_timeout(),
            Event::Message { from, message } => self.node.handle_message(from, message),
        };
        if was_leader && !self.node.role().is_leader() {
            self.stepped_down = true;
        }
        self.process_commands(commands.as_slice(), now, jitter_ms);
        if now.nanos > self.seen.nanos {
            self.seen = now;
        }
        let ghost stepped = old(self)@.stepped(event@, old(self).timer_config(), now, jitter_ms);
        assert(self@ =~= stepped);
        match self.node.save(&mut self.storage) {
            Ok(()) => {},
            Err(e) => {
                return Err(RuntimeError::Storage(e));
            },
        }
        assert(self@ =~= stepped.saved());
        let ghost saved = self.storage();
        match self.restore_snapshot_if_pending() {
            Ok(()) => {},
            Err(e) => {
                return Err(RuntimeError::StateMachine(e));
            },
        }
        let ghost restored = self@;
        assert(restored =~= stepped.saved().restored(restored.state));
        assert(is_restored::<Cmd, S>(stepped.node.to_restore, stepped.state, restored.state));
        self.apply_committed();
        assert(self@ == applied_view::<Cmd, S>(restored));
        assert(saved.stored() == self@.stored);
        match self.maybe_compact() {
            Ok(()) => {},
            Err(e) => {
                return Err(e);
            },
        }
        Ok(commands)
    }

    /// Feeds a snapshot accepted by `handle_install_snapshot` to the state machine.
    ///
    /// A failed restore propagates rather than being retried quietly. The state machine may be half
    /// replaced at that point, and continuing to apply entries on top of it would diverge from the
    /// rest of the cluster.
    fn restore_snapshot_if_pending(&mut self) -> (result: Result<(), S::SnapshotError>)
        requires
            old(self).wf(),
        ensures
            final(self).wf(),
            final(self).timer_config() == old(self).timer_config(),
            final(self).clock() == old(self).clock(),
            final(self).policy() == old(self).policy(),
            final(self).outputs() == old(self).outputs(),
            result is Ok <==> (old(self)@.node.to_restore matches Some(snapshot) ==> S::decoded(
                snapshot.data,
            ) is Some),
            final(self)@ == old(self)@.restored(final(self)@.state),
            result is Ok ==> match old(self)@.node.to_restore {
                Some(snapshot) => S::decoded(snapshot.data) == Some(final(self)@.state),
                None => final(self)@.state == old(self)@.state,
            },
            result matches Err(e) ==> (old(self)@.node.to_restore matches Some(snapshot)
                && S::refuses(snapshot.data, e)),
            final(self).storage() == old(self).storage(),
    {
        if let Some(snapshot) = self.node.take_snapshot_to_restore() {
            return self.state_machine.restore(&snapshot.data);
        }
        Ok(())
    }

    /// Snapshots the state machine and compacts the log once the number of applied but uncompacted
    /// entries reaches the configured threshold.
    ///
    /// A failed snapshot surfaces to the caller, which decides whether to retry. Swallowing it
    /// would let the log grow without bound behind a policy that silently never fires.
    fn maybe_compact(&mut self) -> (result: Result<(), RuntimeError<St::Error, S::SnapshotError>>)
        requires
            old(self).wf(),
        ensures
            final(self).wf(),
            final(self).timer_config() == old(self).timer_config(),
            final(self).clock() == old(self).clock(),
            final(self).policy() == old(self).policy(),
            final(self).outputs() == old(self).outputs(),
            final(self).machine() == old(self).machine(),
            !old(self).policy().is_due(old(self)@.node) ==> result is Ok && final(self)@ == old(
                self,
            )@ && final(self).storage() == old(self).storage(),
            result is Ok ==> (final(self).policy().compact_threshold matches Some(threshold)
                ==> final(self)@.node.applied.value - final(self)@.node.persistent.log.boundary
                < threshold@),
            old(self).policy().is_due(old(self)@.node) ==> match result {
                Ok(()) => compacted(old(self)@, old(self).storage(), *final(self)),
                Err(RuntimeError::StateMachine(e)) => {
                    &&& state_machine::may_snapshot::<Cmd, S>(&old(self).machine(), Err(e))
                    &&& final(self)@ == old(self)@
                    &&& final(self).storage() == old(self).storage()
                },
                Err(RuntimeError::Storage(e)) => compaction_failed(
                    old(self)@,
                    old(self).storage(),
                    e,
                    *final(self),
                ),
            },
    {
        let threshold = match self.snapshot_policy.compact_threshold {
            Some(threshold) => threshold.get(),
            None => {
                return Ok(());
            },
        };
        let boundary = self.node.persistent().log().snapshot_last_index();
        let due = match self.node.volatile().last_applied.value_since(boundary) {
            Some(count) => count >= threshold as u64,
            None => false,
        };
        if !due {
            return Ok(());
        }
        let data = match self.state_machine.snapshot() {
            Ok(data) => data,
            Err(e) => {
                return Err(RuntimeError::StateMachine(e));
            },
        };
        let ghost taken = data;
        match self.node.compact_to_snapshot(data) {
            Ok(_) => {},
            Err(CompactError::NothingToCompact) => {
                return Ok(());
            },
        }
        match self.node.save(&mut self.storage) {
            Ok(()) => {},
            Err(e) => {
                proof {
                    assert(state_machine::may_snapshot::<Cmd, S>(&self.machine(), Ok(taken)));
                }
                return Err(RuntimeError::Storage(e));
            },
        }
        proof {
            assert(self@ =~= old(self)@.compacted(taken@));
            assert(state_machine::may_snapshot::<Cmd, S>(&self.machine(), Ok(taken)));
        }
        Ok(())
    }

    /// Whether the most recent `handle` demoted this node from leader, clearing the flag.
    ///
    /// On a true result the caller must fail every client it has waiting. An uncommitted entry
    /// submitted to this node can still be overwritten by the next leader, so waiting for it to
    /// commit may never terminate.
    pub fn take_stepped_down(&mut self) -> (stepped_down: bool)
        ensures
            stepped_down == old(self)@.stepped_down,
            final(self)@ == (RuntimeView { stepped_down: false, ..old(self)@ }),
            old(self).wf() ==> final(self).wf(),
            final(self).timer_config() == old(self).timer_config(),
            final(self).clock() == old(self).clock(),
            final(self).policy() == old(self).policy(),
            final(self).storage() == old(self).storage(),
            final(self).machine() == old(self).machine(),
            final(self).outputs() == old(self).outputs(),
    {
        let stepped_down = self.stepped_down;
        self.stepped_down = false;
        stepped_down
    }

    /// The event whose deadline has passed, if any. A leader watches the heartbeat interval; every
    /// other role watches the election timeout (section 5.2).
    ///
    /// The time it goes by is what the clock shows during the call, and is no earlier than any at
    /// which this runtime has acted, nor than any that `observe` has given.
    pub fn poll_timers(&self) -> (event: Option<Event<Cmd>>)
        requires
            self.wf(),
        ensures
            exists|now: Instant| #[trigger]
                self.clock().shows_since(self@.seen, now) && event_view(event) == due_event(
                    self@,
                    now,
                ),
            self@.node.role is Leader && self@.seen.nanos >= self@.heartbeat_deadline.nanos ==> event
                == Some(Event::<Cmd>::HeartbeatTimeout),
            !(self@.node.role is Leader) && self@.seen.nanos >= self@.election_deadline.nanos
                ==> event == Some(Event::<Cmd>::ElectionTimeout),
    {
        let now = self.clock.now_since(self.seen);
        assert(self.clock().shows_since(self@.seen, now));
        self.poll_timers_at(now)
    }

    /// The event whose deadline has passed at `now`, if any.
    pub fn poll_timers_at(&self, now: Instant) -> (event: Option<Event<Cmd>>)
        requires
            self.wf(),
        ensures
            event_view(event) == due_event(self@, now),
            self@.node.role is Leader ==> {
                &&& event is Some <==> now.nanos >= self@.heartbeat_deadline.nanos
                &&& event matches Some(e) ==> e is HeartbeatTimeout
            },
            !(self@.node.role is Leader) ==> {
                &&& event is Some <==> now.nanos >= self@.election_deadline.nanos
                &&& event matches Some(e) ==> e is ElectionTimeout
            },
    {
        if self.node.role().is_leader() {
            if now.nanos >= self.heartbeat_deadline.nanos {
                return Some(Event::HeartbeatTimeout);
            }
            return None;
        }
        if now.nanos >= self.election_deadline.nanos {
            return Some(Event::ElectionTimeout);
        }
        None
    }

    /// The next instant at which `poll_timers` can return an event. Sleep until then instead of
    /// polling in a loop.
    pub fn next_deadline(&self) -> (deadline: Instant)
        ensures
            deadline == if self@.node.role is Leader {
                self@.heartbeat_deadline
            } else {
                self@.election_deadline
            },
    {
        if self.node.role().is_leader() {
            self.heartbeat_deadline
        } else {
            self.election_deadline
        }
    }

    /// The reading of the clock that deadlines are measured by.
    pub fn now(&self) -> (now: Instant)
        ensures
            now.nanos <= time::longest(),
            self.clock().shows(now),
    {
        self.clock.now()
    }

    /// The reading of the clock that deadlines are measured by, noted: no later call goes by an
    /// earlier time.
    pub fn observe(&mut self) -> (now: Instant)
        requires
            old(self).wf(),
        ensures
            final(self).wf(),
            old(self).clock().shows_since(old(self)@.seen, now),
            final(self)@ == (RuntimeView { seen: now, ..old(self)@ }),
            final(self).timer_config() == old(self).timer_config(),
            final(self).clock() == old(self).clock(),
            final(self).policy() == old(self).policy(),
            final(self).storage() == old(self).storage(),
            final(self).machine() == old(self).machine(),
            final(self).outputs() == old(self).outputs(),
    {
        self.seen = self.clock.now_since(self.seen);
        self.seen
    }

    /// The reading of the clock that deadlines are measured by, and no earlier than `seen` or any
    /// time at which this runtime has acted.
    pub fn now_since(&self, seen: Instant) -> (now: Instant)
        ensures
            now.nanos >= seen.nanos,
            exists|later: Instant| #[trigger]
                self.clock().shows_since(later, now) && later.nanos >= seen.nanos && later.nanos
                    >= self@.seen.nanos && (later == seen || later == self@.seen),
    {
        let later = if seen.nanos >= self.seen.nanos {
            seen
        } else {
            self.seen
        };
        let now = self.clock.now_since(later);
        assert(self.clock().shows_since(later, now));
        now
    }

    /// Appends a client command and returns the index it landed at. The command is not committed
    /// yet; the caller learns that from `take_outputs`.
    ///
    /// # Errors
    /// `NotLeaderError` when this node is not the leader, carrying the leader to retry against.
    pub fn submit(&mut self, command: Cmd) -> (result: Result<LogIndex, NotLeaderError>)
        requires
            old(self).wf(),
            old(self)@.node.log().last_index() < u64::MAX,
        ensures
            final(self).wf(),
            final(self).timer_config() == old(self).timer_config(),
            final(self).clock() == old(self).clock(),
            final(self).policy() == old(self).policy(),
            final(self).storage() == old(self).storage(),
            final(self).machine() == old(self).machine(),
            final(self).outputs() == old(self).outputs(),
            final(self)@ == (RuntimeView { node: final(self)@.node, ..old(self)@ }),
            match result {
                Ok(index) => {
                    &&& old(self)@.node.role is Leader
                    &&& index.value == old(self)@.node.log().last_index() + 1
                    &&& final(self)@.node == old(self)@.node.submit_command(command@)
                },
                Err(e) => {
                    &&& !(old(self)@.node.role is Leader)
                    &&& e.leader_hint == old(self)@.node.leader_hint()
                    &&& final(self)@.node == old(self)@.node
                },
            },
    {
        self.node.submit_command(command)
    }

    /// Proposes a membership change and returns the index it landed at.
    ///
    /// # Errors
    /// `SubmitError::NotLeader` when this node is not the leader.
    /// `SubmitError::ConfigChangePending` when an earlier change is uncommitted.
    pub fn submit_config_change(&mut self, config: ClusterConfig) -> (result: Result<
        LogIndex,
        SubmitError,
    >)
        requires
            old(self).wf(),
            old(self)@.node.log().last_index() < u64::MAX,
        ensures
            final(self).wf(),
            final(self).timer_config() == old(self).timer_config(),
            final(self).clock() == old(self).clock(),
            final(self).policy() == old(self).policy(),
            final(self).storage() == old(self).storage(),
            final(self).machine() == old(self).machine(),
            final(self).outputs() == old(self).outputs(),
            final(self)@ == (RuntimeView { node: final(self)@.node, ..old(self)@ }),
            match result {
                Ok(index) => {
                    &&& old(self)@.node.role is Leader
                    &&& !old(self)@.node.has_pending_config_change()
                    &&& index.value == old(self)@.node.log().last_index() + 1
                    &&& final(self)@.node == old(self)@.node.propose_config_change(config@)
                },
                Err(SubmitError::NotLeader { leader_hint }) => {
                    &&& !(old(self)@.node.role is Leader)
                    &&& leader_hint == old(self)@.node.leader_hint()
                    &&& final(self)@.node == old(self)@.node
                },
                Err(SubmitError::ConfigChangePending) => {
                    &&& old(self)@.node.role is Leader
                    &&& old(self)@.node.has_pending_config_change()
                    &&& final(self)@.node == old(self)@.node
                },
            },
    {
        self.node.propose_config_change(config)
    }

    /// Drains the configurations that took effect on append. The caller passes these to the
    /// transport so a newly added peer becomes reachable at once.
    pub fn take_config_changes(&mut self) -> (changes: Vec<ClusterConfig>)
        ensures
            node::config_views(changes@) == old(self)@.node.config_changes,
            final(self)@ == (RuntimeView {
                node: NodeView { config_changes: Seq::empty(), ..old(self)@.node },
                ..old(self)@
            }),
            old(self).wf() ==> final(self).wf(),
            final(self).timer_config() == old(self).timer_config(),
            final(self).clock() == old(self).clock(),
            final(self).policy() == old(self).policy(),
            final(self).storage() == old(self).storage(),
            final(self).machine() == old(self).machine(),
            final(self).outputs() == old(self).outputs(),
    {
        self.node.take_config_changes()
    }

    /// Drains the configurations that have committed, with the term and index of the entry that
    /// carried each. The caller resolves the membership requests waiting on them.
    pub fn take_committed_config_changes(&mut self) -> (changes: Vec<
        (Term, LogIndex, ClusterConfig),
    >)
        ensures
            node::committed_views(changes@) == old(self)@.node.committed_configs,
            final(self)@ == (RuntimeView {
                node: NodeView { committed_configs: Seq::empty(), ..old(self)@.node },
                ..old(self)@
            }),
            old(self).wf() ==> final(self).wf(),
            final(self).timer_config() == old(self).timer_config(),
            final(self).clock() == old(self).clock(),
            final(self).policy() == old(self).policy(),
            final(self).storage() == old(self).storage(),
            final(self).machine() == old(self).machine(),
            final(self).outputs() == old(self).outputs(),
    {
        self.node.take_committed_config_entries()
    }

    /// Restarts the timers that `commands` asks to restart.
    fn process_commands(&mut self, commands: &[Command<Cmd>], now: Instant, jitter_ms: u64)
        requires
            old(self).wf(),
            is_reading(old(self).timer_config(), now, jitter_ms),
        ensures
            final(self).wf(),
            final(self).timer_config() == old(self).timer_config(),
            final(self).clock() == old(self).clock(),
            final(self).policy() == old(self).policy(),
            final(self).outputs() == old(self).outputs(),
            final(self).storage() == old(self).storage(),
            final(self)@ == (RuntimeView {
                election_deadline: if command::command_views(commands@).contains(
                    CommandView::ResetElectionTimer,
                ) {
                    election_deadline(old(self).timer_config(), now, jitter_ms)
                } else {
                    old(self)@.election_deadline
                },
                heartbeat_deadline: if command::command_views(commands@).contains(
                    CommandView::ResetHeartbeatTimer,
                ) {
                    heartbeat_deadline(old(self).timer_config(), now)
                } else {
                    old(self)@.heartbeat_deadline
                },
                ..old(self)@
            }),
    {
        let ghost views = command::command_views(commands@);
        let mut election = false;
        let mut heartbeat = false;
        let mut i: usize = 0;
        while i < commands.len()
            invariant
                i <= commands.len(),
                views == command::command_views(commands@),
                election == (exists|k: int|
                    0 <= k < i && #[trigger] views[k] == CommandView::<
                        Cmd::V,
                    >::ResetElectionTimer),
                heartbeat == (exists|k: int|
                    0 <= k < i && #[trigger] views[k] == CommandView::<
                        Cmd::V,
                    >::ResetHeartbeatTimer),
            decreases commands.len() - i,
        {
            assert(views[i as int] == commands@[i as int]@);
            match &commands[i] {
                // Randomized between one and two election timeouts, so that nodes stand for
                // election at different moments (section 5.2). Identical deadlines produce split
                // votes that repeat indefinitely, since every retry collides again.
                Command::ResetElectionTimer => {
                    election = true;
                },
                Command::ResetHeartbeatTimer => {
                    heartbeat = true;
                },
                // Returned to the caller, which owns the transport.
                Command::Send { .. } => {},
            }
            i = i + 1;
        }
        if election {
            self.election_deadline = election_deadline_at(self.config, now, jitter_ms);
        }
        if heartbeat {
            self.heartbeat_deadline = heartbeat_deadline_at(self.config, now);
        }
    }

    /// Drains the outputs applied since the last call, in commit order, as triples of term, index,
    /// and output.
    ///
    /// The term is part of the key because an index alone does not identify a submission: a later
    /// leader can write an unrelated entry at the same index. See `Applied::term`.
    pub fn take_outputs(&mut self) -> (outputs: Vec<(Term, LogIndex, S::Output)>)
        ensures
            outputs@ == old(self).outputs(),
            final(self).outputs() == Seq::<(Term, LogIndex, S::Output)>::empty(),
            final(self)@ == old(self)@,
            old(self).wf() ==> final(self).wf(),
            final(self).timer_config() == old(self).timer_config(),
            final(self).clock() == old(self).clock(),
            final(self).policy() == old(self).policy(),
            final(self).storage() == old(self).storage(),
            final(self).machine() == old(self).machine(),
    {
        let mut outputs: Vec<(Term, LogIndex, S::Output)> = Vec::new();
        std::mem::swap(&mut outputs, &mut self.pending_outputs);
        outputs
    }

    /// Applies every committed entry that has not been applied yet.
    fn apply_committed(&mut self)
        requires
            old(self).wf(),
        ensures
            final(self).wf(),
            final(self).timer_config() == old(self).timer_config(),
            final(self).clock() == old(self).clock(),
            final(self).policy() == old(self).policy(),
            final(self).storage() == old(self).storage(),
            applied_all(*old(self), *final(self)),
    {
        let ghost before = *self;
        let ghost all = take_all(self@.node);
        let ghost mut done: Seq<AppliedView<Cmd::V>> = Seq::empty();
        let ghost mut added: Seq<(Term, LogIndex, S::Output)> = Seq::empty();
        proof {
            assert(done + all.1 =~= all.1);
            assert(before.outputs() + added =~= before.outputs());
        }
        let mut more = true;
        while more
            invariant
                self.wf(),
                self.timer_config() == before.timer_config(),
                self.clock() == before.clock(),
                self.policy() == before.policy(),
                self.storage() == before.storage(),
                all == take_all(before@.node),
                self@ == (RuntimeView { node: self@.node, state: self@.state, ..before@ }),
                self@.state == state_machine::state_after::<Cmd, S>(
                    before@.state,
                    commands_of(done),
                ),
                self.outputs() == before.outputs() + added,
                are_outputs::<Cmd, S>(before@.state, done, added),
                more ==> all == (take_all(self@.node).0, done + take_all(self@.node).1),
                !more ==> all == (self@.node, done),
            decreases
                self@.node.commit.value - self@.node.applied.value,
                if more {
                    1int
                } else {
                    0int
                },
        {
            let ghost node = self@.node;
            let ghost state = self@.state;
            proof {
                lemma_take_entry(node);
            }
            let next = match self.node.take_entry_to_apply() {
                Some(applied) => {
                    let copy = applied.command.clone();
                    assert(cloned(*applied.command, copy));
                    Some((applied.term, applied.index, copy))
                },
                None => None,
            };
            match next {
                Some((term, index, command)) => {
                    let ghost entry = AppliedView { index, term, command: command@ };
                    let output = self.state_machine.apply(command);
                    self.pending_outputs.push((term, index, output));
                    proof {
                        let rest = take_all(self@.node).1;
                        assert(take_all(node).1 =~= seq![entry] + rest);
                        let next_done = done.push(entry);
                        assert(done + (seq![entry] + rest) =~= next_done + rest);
                        assert(commands_of(next_done).drop_last() =~= commands_of(done));
                        let next_added = added.push((term, index, output));
                        assert(before.outputs() + next_added =~= (before.outputs() + added).push(
                            (term, index, output),
                        ));
                        assert forall|i: int| 0 <= i < next_done.len() implies {
                            &&& (#[trigger] next_added[i]).0 == next_done[i].term
                            &&& next_added[i].1 == next_done[i].index
                            &&& S::answers(
                                state_machine::state_after::<Cmd, S>(
                                    before@.state,
                                    commands_of(next_done.take(i)),
                                ),
                                next_done[i].command,
                                next_added[i].2,
                            )
                        } by {
                            if i < done.len() {
                                assert(next_done.take(i) =~= done.take(i));
                                assert(added[i] == next_added[i]);
                            } else {
                                assert(next_done.take(i) =~= done);
                            }
                        }
                        done = next_done;
                        added = next_added;
                    }
                },
                None => {
                    more = false;
                    proof {
                        assert(done + Seq::<AppliedView<Cmd::V>>::empty() =~= done);
                    }
                },
            }
        }
        proof {
            assert(self.outputs().skip(before.outputs().len() as int) =~= added);
            assert(self.outputs().take(before.outputs().len() as int) =~= before.outputs());
        }
    }
}

/// What an optional event stands for.
pub open spec fn event_view<Cmd: View>(event: Option<Event<Cmd>>) -> Option<EventView<Cmd::V>> {
    match event {
        Some(e) => Some(e@),
        None => None,
    }
}

/// The event whose deadline has passed at `now`, if any.
pub open spec fn due_event<C, S>(runtime: RuntimeView<C, S>, now: Instant) -> Option<EventView<C>> {
    if runtime.node.role is Leader {
        if now.nanos >= runtime.heartbeat_deadline.nanos {
            Some(EventView::HeartbeatTimeout)
        } else {
            None
        }
    } else if now.nanos >= runtime.election_deadline.nanos {
        Some(EventView::ElectionTimeout)
    } else {
        None
    }
}

/// Whether `after` is `before` with every committed entry applied.
pub open spec fn applied_all<Cmd: Clone + View, S: StateMachine<Cmd>, St: Storage<Cmd>>(
    before: Runtime<Cmd, S, St>,
    after: Runtime<Cmd, S, St>,
) -> bool {
    let (node, entries) = take_all(before@.node);
    let taken = before.outputs().len() as int;
    &&& after@ == (RuntimeView {
        node,
        state: state_machine::state_after::<Cmd, S>(before@.state, commands_of(entries)),
        ..before@
    })
    &&& after.outputs().len() >= taken
    &&& after.outputs().take(taken) == before.outputs()
    &&& are_outputs::<Cmd, S>(before@.state, entries, after.outputs().skip(taken))
}

/// What handling `event` at `now` does to a runtime.
pub open spec fn handled<Cmd: Clone + View, S: StateMachine<Cmd>, St: Storage<Cmd>>(
    before: Runtime<Cmd, S, St>,
    event: EventView<Cmd::V>,
    now: Instant,
    jitter_ms: u64,
    result: Result<Vec<Command<Cmd>>, RuntimeError<St::Error, S::SnapshotError>>,
    after: Runtime<Cmd, S, St>,
) -> bool {
    let stepped = before@.stepped(event, before.timer_config(), now, jitter_ms);
    let commands = event.step(before@.node).1;
    match result {
        Ok(sent) => {
            &&& command::command_views(sent@) == commands
            &&& carried_through(before, stepped, after)
        },
        Err(RuntimeError::StateMachine(e)) => {
            ||| stepped.node.to_restore matches Some(snapshot) && S::decoded(snapshot.data) is None
                && S::refuses(snapshot.data, e) && after@ == stepped.saved().restored(after@.state)
                && after.outputs() == before.outputs() && storage::wrote::<Cmd, St>(
                before.storage(),
                stepped.node.persistent.calls(),
                after.storage(),
            )
            ||| exists|restored: S::State| #[trigger]
                is_restored::<Cmd, S>(stepped.node.to_restore, stepped.state, restored) && {
                    let applied = applied_view::<Cmd, S>(stepped.saved().restored(restored));
                    &&& before.policy().is_due(applied.node)
                    &&& state_machine::may_snapshot::<Cmd, S>(&after.machine(), Err(e))
                    &&& after@ == applied
                    &&& puts_out(before, stepped, restored, after)
                    &&& storage::wrote::<Cmd, St>(
                        before.storage(),
                        stepped.node.persistent.calls(),
                        after.storage(),
                    )
                }
        },
        Err(RuntimeError::Storage(e)) => {
            ||| persistent::save_failed::<Cmd, St>(
                stepped.node.persistent,
                before.storage(),
                e,
                after@.node.persistent,
                after.storage(),
            ) && after@ == (RuntimeView {
                node: NodeView { persistent: after@.node.persistent, ..stepped.node },
                stored: after@.stored,
                ..stepped
            }) && after.outputs() == before.outputs()
            ||| exists|restored: S::State, saved: St|
                #![trigger is_restored::<Cmd, S>(stepped.node.to_restore, stepped.state, restored), saved.stored()]
                {
                    let applied = applied_view::<Cmd, S>(stepped.saved().restored(restored));
                    &&& is_restored::<Cmd, S>(stepped.node.to_restore, stepped.state, restored)
                    &&& storage::wrote::<Cmd, St>(
                        before.storage(),
                        stepped.node.persistent.calls(),
                        saved,
                    )
                    &&& saved.stored() == applied.stored
                    &&& before.policy().is_due(applied.node)
                    &&& compaction_failed(applied, saved, e, after)
                    &&& puts_out(before, stepped, restored, after)
                }
        },
    }
}

/// Whether `after` is a runtime that was in the state `applied`, with its log now compacted behind a
/// snapshot of the state machine, and that on storage, which was `saved`.
pub open spec fn compacted<Cmd: Clone + View, S: StateMachine<Cmd>, St: Storage<Cmd>>(
    applied: RuntimeView<Cmd::V, S::State>,
    saved: St,
    after: Runtime<Cmd, S, St>,
) -> bool {
    exists|data: SnapshotData|
        #![trigger data@]
        {
            &&& state_machine::may_snapshot::<Cmd, S>(&after.machine(), Ok(data))
            &&& S::decoded(data@) == Some(applied.state)
            &&& after@ == applied.compacted(data@)
            &&& storage::wrote::<Cmd, St>(
                saved,
                applied.node.compact_to_snapshot(data@).persistent.calls(),
                after.storage(),
            )
        }
}

/// Whether `after` is a runtime that was in the state `applied`, compacted its log behind a snapshot
/// of the state machine, and then failed with `e` to save that to storage, which was `saved`.
pub open spec fn compaction_failed<Cmd: Clone + View, S: StateMachine<Cmd>, St: Storage<Cmd>>(
    applied: RuntimeView<Cmd::V, S::State>,
    saved: St,
    e: St::Error,
    after: Runtime<Cmd, S, St>,
) -> bool {
    exists|data: SnapshotData|
        #![trigger data@]
        {
            let node = applied.node.compact_to_snapshot(data@);
            &&& state_machine::may_snapshot::<Cmd, S>(&after.machine(), Ok(data))
            &&& S::decoded(data@) == Some(applied.state)
            &&& persistent::save_failed::<Cmd, St>(
                node.persistent,
                saved,
                e,
                after@.node.persistent,
                after.storage(),
            )
            &&& after@ == (RuntimeView {
                node: NodeView { persistent: after@.node.persistent, ..node },
                stored: after@.stored,
                ..applied
            })
        }
}

/// Whether a state machine in `state` is in `restored` once the snapshot that waits for it, if any,
/// has replaced its state.
pub open spec fn is_restored<Cmd: View, S: StateMachine<Cmd>>(
    snapshot: Option<SnapshotView>,
    state: S::State,
    restored: S::State,
) -> bool {
    match snapshot {
        Some(s) => S::decoded(s.data) == Some(restored),
        None => restored == state,
    }
}

/// A runtime once every committed entry is applied.
pub open spec fn applied_view<Cmd: View, S: StateMachine<Cmd>>(
    runtime: RuntimeView<Cmd::V, S::State>,
) -> RuntimeView<Cmd::V, S::State> {
    let (node, entries) = take_all(runtime.node);
    RuntimeView {
        node,
        state: state_machine::state_after::<Cmd, S>(runtime.state, commands_of(entries)),
        ..runtime
    }
}

/// What becomes of a runtime once its node has acted on an event: what the node recorded is saved,
/// the state machine is in `restored`, committed entries are applied, and the log is compacted when
/// that is due.
pub open spec fn finished<Cmd: View, S: StateMachine<Cmd>>(
    policy: SnapshotPolicy,
    stepped: RuntimeView<Cmd::V, S::State>,
    restored: S::State,
    after: RuntimeView<Cmd::V, S::State>,
) -> bool {
    let applied = applied_view::<Cmd, S>(stepped.saved().restored(restored));
    if policy.is_due(applied.node) {
        exists|data: Seq<u8>|
            S::decoded(data) == Some(applied.state) && after == #[trigger] applied.compacted(data)
    } else {
        after == applied
    }
}

/// Whether the outputs of `after` are those of `before` and those of applying what is ready to be
/// applied to a state machine in `restored`.
pub open spec fn puts_out<Cmd: Clone + View, S: StateMachine<Cmd>, St: Storage<Cmd>>(
    before: Runtime<Cmd, S, St>,
    stepped: RuntimeView<Cmd::V, S::State>,
    restored: S::State,
    after: Runtime<Cmd, S, St>,
) -> bool {
    let taken = before.outputs().len() as int;
    &&& after.outputs().len() >= taken
    &&& after.outputs().take(taken) == before.outputs()
    &&& are_outputs::<Cmd, S>(
        restored,
        take_all(stepped.saved().restored(restored).node).1,
        after.outputs().skip(taken),
    )
}

/// What happens once a node has acted on an event, with what that puts out and what storage is asked
/// for.
pub open spec fn carried_through<Cmd: Clone + View, S: StateMachine<Cmd>, St: Storage<Cmd>>(
    before: Runtime<Cmd, S, St>,
    stepped: RuntimeView<Cmd::V, S::State>,
    after: Runtime<Cmd, S, St>,
) -> bool {
    exists|restored: S::State, saved: St|
        #![trigger is_restored::<Cmd, S>(stepped.node.to_restore, stepped.state, restored), saved.stored()]
        {
            let applied = applied_view::<Cmd, S>(stepped.saved().restored(restored));
            &&& is_restored::<Cmd, S>(stepped.node.to_restore, stepped.state, restored)
            &&& puts_out(before, stepped, restored, after)
            &&& finished::<Cmd, S>(before.policy(), stepped, restored, after@)
            &&& storage::wrote::<Cmd, St>(
                before.storage(),
                stepped.node.persistent.calls(),
                saved,
            )
            &&& saved.stored() == applied.stored
            &&& if before.policy().is_due(applied.node) {
                compacted(applied, saved, after)
            } else {
                after.storage() == saved
            }
        }
}

/// Reading back a snapshot and deriving the membership leaves the snapshot alone.
proof fn lemma_restored_snapshot<C>(id: NodeId, config: Members, stored: StoredView<C>)
    ensures
        NodeView::restored(id, config, stored).persistent.latest_snapshot == stored.snapshot,
{
}

/// A reading of the clock, and a random share of the election timeout in milliseconds.
fn read(clock: &Clock, config: TimerConfig) -> (reading: (Instant, u64))
    requires
        config.wf(),
    ensures
        is_reading(config, reading.0, reading.1),
        reading.0.nanos <= time::longest(),
        clock.shows(reading.0),
        time::drawn(config.election_timeout.millis() as u64, reading.1),
{
    let now = clock.now();
    (now, time::draw_below(config.election_timeout.as_millis()))
}

fn election_deadline_at(config: TimerConfig, now: Instant, jitter_ms: u64) -> (deadline: Instant)
    requires
        is_reading(config, now, jitter_ms),
    ensures
        deadline == election_deadline(config, now, jitter_ms),
{
    let jitter: u128 = jitter_ms as u128 * time::NANOS_PER_MILLI as u128;
    Instant { nanos: now.nanos + config.election_timeout.nanos as u128 + jitter }
}

fn heartbeat_deadline_at(config: TimerConfig, now: Instant) -> (deadline: Instant)
    requires
        now.nanos <= u128::MAX / 2,
    ensures
        deadline == heartbeat_deadline(config, now),
{
    Instant { nanos: now.nanos + config.heartbeat_interval.nanos as u128 }
}

} // verus!
