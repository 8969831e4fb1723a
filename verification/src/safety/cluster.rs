//! Clusters of servers that run this library, and what is promised of them.
//!
//! A cluster is a number of runtimes and everything they ever sent. A message may be delivered late,
//! more than once, in any order, or never, so what was sent is never taken away. A server may crash
//! at any time, also with only a part of an event in storage, and comes back with what is there.
//!
//! The membership may change, by one server at a time, under the conditions of `may_reconfigure`. A
//! server that is to be added later may be started with any membership at all. Until the cluster has
//! told it better, it does not stand for election and does not compact its log.
//!
//! The one crash that is left out is that of a lone member between taking a command and handling its
//! next event: it has then committed what it has not stored.
use vstd::prelude::*;

use super::applying;
use super::crash;
use super::durable;
use super::protocol;
use super::protocol::Entries;
use super::protocol::World;
use super::refine;
use super::refine::Setting;
use super::steps;
use crate::command;
use crate::command::Command;
use crate::command::CommandView;
use crate::model::NodeView;
use crate::runtime;
use crate::runtime::EventView;
use crate::runtime::Runtime;
use crate::runtime::RuntimeError;
use crate::runtime::RuntimeView;
use crate::runtime::SnapshotPolicy;
use crate::runtime::TimerConfig;
use crate::state_machine;
use crate::state_machine::StateMachine;
use crate::storage::Storage;
use crate::storage::StoredView;
use crate::time::Instant;
use crate::types::config::Members;
use crate::types::log;
use crate::types::log::EntryView;
use crate::types::log::LogView;
use crate::types::message::MessageView;
use crate::types::primitives::NodeId;
use crate::types::snapshot::SnapshotView;

verus! {

/// A message on its way.
#[verifier::ext_equal]
pub struct Packet<C> {
    pub from: NodeId,
    pub to: NodeId,
    pub message: MessageView<C>,
}

/// The servers of a cluster, and everything they have sent.
#[verifier::ext_equal]
#[verifier::reject_recursive_types(C)]
pub struct Cluster<C, S> {
    pub servers: Map<NodeId, RuntimeView<C, S>>,
    pub packets: Set<Packet<C>>,
}

/// How a cluster is started: who the servers are, which of them are members, what the others are told
/// instead, and the state that their state machines are in.
pub struct Boot<S> {
    pub servers: Set<NodeId>,
    pub members: Members,
    pub others: Map<NodeId, Members>,
    pub state: S,
}

impl<S> Boot<S> {
    /// The membership that a server is started with.
    pub open spec fn config_of(self, id: NodeId) -> Members {
        if self.members.dom().contains(id) {
            self.members
        } else {
            self.others[id]
        }
    }

    /// Whether a server knows the membership of the cluster: it was started with it, or has a
    /// snapshot, or an entry that changes it.
    pub open spec fn tells<C>(
        self,
        id: NodeId,
        snapshot: Option<SnapshotView>,
        entries: Entries<C>,
    ) -> bool {
        self.config_of(id) == self.members || snapshot is Some || log::latest_config(
            entries,
        ) is Some
    }

    /// There are members, and they are among the servers.
    pub open spec fn wf(self) -> bool {
        &&& self.members.dom().finite()
        &&& self.members.dom().len() >= 1
        &&& self.members.dom().subset_of(self.servers)
    }
}

/// Something that happens to one server.
pub enum Action<C> {
    /// A timeout fires, or a message arrives.
    Handle(EventView<C>),
    /// A client submits a command.
    Submit(C),
    /// Somebody asks for another membership.
    Reconfigure(Members),
    /// The driver takes what the server has to tell it.
    Drain,
    /// The server crashes and starts again from its storage.
    Restart,
    /// The server crashes while it handles an event, with a part of what that changes in storage, and
    /// starts again.
    Interrupt(EventView<C>, nat),
}

/// What a server sends.
pub open spec fn sent<C>(from: NodeId, commands: Seq<CommandView<C>>) -> Set<Packet<C>> {
    Set::new(
        |packet: Packet<C>|
            packet.from == from && commands.contains(
                CommandView::Send { to: packet.to, message: packet.message },
            ),
    )
}

/// Whether handling `event` at `now` may turn a runtime into `after`.
pub open spec fn outcome<Cmd: View, S: StateMachine<Cmd>>(
    before: RuntimeView<Cmd::V, S::State>,
    event: EventView<Cmd::V>,
    policy: SnapshotPolicy,
    config: TimerConfig,
    now: Instant,
    jitter_ms: u64,
    after: RuntimeView<Cmd::V, S::State>,
) -> bool {
    let stepped = before.stepped(event, config, now, jitter_ms);
    exists|restored: S::State| #[trigger]
        runtime::is_restored::<Cmd, S>(stepped.node.to_restore, stepped.state, restored)
            && runtime::finished::<Cmd, S>(policy, stepped, restored, after)
}

/// Whether a server that has carried `stepped` through compacts its log where it does not know what
/// the membership was. Its snapshot would then name the membership it was started with.
pub open spec fn compacts_untold<Cmd: View, S: StateMachine<Cmd>>(
    boot: Boot<S::State>,
    id: NodeId,
    policy: SnapshotPolicy,
    stepped: RuntimeView<Cmd::V, S::State>,
) -> bool {
    let node = runtime::take_all(NodeView { to_restore: None, ..stepped.saved().node }).0;
    policy.is_due(node) && !boot.tells(
        id,
        node.persistent.latest_snapshot,
        node.log().through(node.applied.value as int),
    )
}

/// Whether handling `event` may turn the runtime of a server into `after`, whatever the time and the
/// settings.
pub open spec fn may_become<Cmd: View, S: StateMachine<Cmd>>(
    boot: Boot<S::State>,
    id: NodeId,
    before: RuntimeView<Cmd::V, S::State>,
    event: EventView<Cmd::V>,
    after: RuntimeView<Cmd::V, S::State>,
) -> bool {
    exists|policy: SnapshotPolicy, config: TimerConfig, now: Instant, jitter_ms: u64| #[trigger]
        outcome::<Cmd, S>(before, event, policy, config, now, jitter_ms, after)
            && !compacts_untold::<Cmd, S>(
            boot,
            id,
            policy,
            before.stepped(event, config, now, jitter_ms),
        )
}

/// Whether a cluster can be started like this: every server is fresh, its storage is empty, and its
/// state machine is in the initial state.
pub open spec fn starts<Cmd: View, S: StateMachine<Cmd>>(
    boot: Boot<S::State>,
    cluster: Cluster<Cmd::V, S::State>,
) -> bool {
    &&& cluster.servers.dom() == boot.servers
    &&& forall|id: NodeId| #[trigger]
        boot.servers.contains(id) ==> {
            &&& cluster.servers[id].node == NodeView::<Cmd::V>::fresh(
                id,
                boot.config_of(id),
            )
            &&& cluster.servers[id].stored == StoredView::<Cmd::V>::empty()
            &&& cluster.servers[id].state == boot.state
        }
    &&& cluster.packets == Set::<Packet<Cmd::V>>::empty()
}

/// Whether a leader may put a membership in force. It differs from the one in force by at most one
/// server, and no change is pending. The leader has committed an entry of its own term: without
/// that, two leaders could each add a server of their own and commit without hearing of each other.
pub open spec fn may_reconfigure<C>(
    servers: Set<NodeId>,
    node: NodeView<C>,
    members: Members,
) -> bool {
    &&& node.role is Leader
    &&& !node.has_pending_config_change()
    &&& node.log().last_index() < u64::MAX
    &&& node.log().knows(node.commit.value as int)
    &&& node.log().term_of(node.commit.value as int) == node.term().value
    &&& protocol::near(node.config.dom(), members.dom())
    &&& members.dom().finite()
    &&& members.dom().len() >= 1
    &&& members.dom().subset_of(servers)
}

/// Whether an event can happen to a server: there is an index, and for a candidate a term, left to
/// use, only a server that knows itself to be a member stands for election, and a message was sent to
/// it.
pub open spec fn can_happen<C, S>(
    boot: Boot<S>,
    cluster: Cluster<C, S>,
    id: NodeId,
    event: EventView<C>,
) -> bool {
    let node = cluster.servers[id].node;
    &&& node.log().last_index() < u64::MAX
    &&& event.fits(node)
    &&& match event {
        EventView::ElectionTimeout => {
            &&& node.term().value < u64::MAX
            &&& boot.tells(id, node.persistent.latest_snapshot, node.log().entries)
            &&& node.config.dom().contains(id)
        },
        EventView::HeartbeatTimeout => true,
        EventView::Message { from, message } => cluster.packets.contains(
            Packet { from, to: id, message },
        ),
    }
}

/// Whether `action` on the server `id` may turn one cluster into the other.
pub open spec fn acted<Cmd: View, S: StateMachine<Cmd>>(
    boot: Boot<S::State>,
    before: Cluster<Cmd::V, S::State>,
    id: NodeId,
    action: Action<Cmd::V>,
    after: Cluster<Cmd::V, S::State>,
) -> bool {
    let server = before.servers[id];
    let next = after.servers[id];
    &&& before.servers.dom().contains(id)
    &&& after.servers == before.servers.insert(id, next)
    &&& match action {
        Action::Handle(event) => {
            &&& can_happen(boot, before, id, event)
            &&& may_become::<Cmd, S>(boot, id, server, event, next)
            &&& after.packets == before.packets.union(sent(id, event.step(server.node).1))
        },
        Action::Submit(command) => {
            &&& server.node.role is Leader
            &&& server.node.log().last_index() < u64::MAX
            &&& next == (RuntimeView { node: server.node.submit_command(command), ..server })
            &&& after.packets == before.packets
        },
        Action::Reconfigure(members) => {
            &&& may_reconfigure(boot.servers, server.node, members)
            &&& next == (RuntimeView {
                node: server.node.propose_config_change(members),
                ..server
            })
            &&& after.packets == before.packets
        },
        Action::Drain => {
            &&& next.node == (NodeView {
                config_changes: next.node.config_changes,
                committed_configs: next.node.committed_configs,
                ..server.node
            })
            &&& next.stored == server.stored
            &&& next.state == server.state
            &&& after.packets == before.packets
        },
        Action::Restart => {
            &&& server.node.commit.value <= server.stored.log.last_index()
            &&& restarted::<Cmd, S>(boot, id, server.stored, next)
            &&& after.packets == before.packets
        },
        Action::Interrupt(event, steps) => {
            let state = event.step(server.node).0.persistent;
            &&& can_happen(boot, before, id, event)
            &&& server.node.commit.value <= server.stored.log.last_index()
            &&& restarted::<Cmd, S>(boot, id, state.replay_part(server.stored, steps), next)
            &&& after.packets == before.packets
        },
    }
}

/// Whether a runtime may be started like this from what it finds in storage.
pub open spec fn restarted<Cmd: View, S: StateMachine<Cmd>>(
    boot: Boot<S::State>,
    id: NodeId,
    stored: StoredView<Cmd::V>,
    runtime: RuntimeView<Cmd::V, S::State>,
) -> bool {
    &&& runtime.node == NodeView::restored(id, boot.config_of(id), stored)
    &&& runtime.stored == stored
    &&& match stored.snapshot {
        Some(snapshot) => S::decoded(snapshot.data) == Some(runtime.state),
        None => runtime.state == boot.state,
    }
}

/// Whether something may turn one cluster into the other.
pub open spec fn may_follow<Cmd: View, S: StateMachine<Cmd>>(
    boot: Boot<S::State>,
    before: Cluster<Cmd::V, S::State>,
    after: Cluster<Cmd::V, S::State>,
) -> bool {
    exists|id: NodeId, action: Action<Cmd::V>| #[trigger]
        acted::<Cmd, S>(boot, before, id, action, after)
}

/// Whether a cluster may go through these states, from its start on.
pub open spec fn is_history<Cmd: View, S: StateMachine<Cmd>>(
    boot: Boot<S::State>,
    history: Seq<Cluster<Cmd::V, S::State>>,
) -> bool {
    &&& boot.wf()
    &&& history.len() > 0
    &&& starts::<Cmd, S>(boot, history[0])
    &&& forall|i: int|
        0 < i < history.len() ==> #[trigger] goes_on::<Cmd, S>(boot, history, i)
}

/// Whether something may have led to the `i`-th of these states.
pub open spec fn goes_on<Cmd: View, S: StateMachine<Cmd>>(
    boot: Boot<S::State>,
    history: Seq<Cluster<Cmd::V, S::State>>,
    i: int,
) -> bool {
    may_follow::<Cmd, S>(boot, history[i - 1], history[i])
}

// ---- The invariant ----
/// The state that a log leads to.
pub open spec fn state_of<Cmd: View, S: StateMachine<Cmd>>(
    boot: Boot<S::State>,
    entries: Entries<Cmd::V>,
) -> S::State {
    state_machine::state_after::<Cmd, S>(boot.state, applying::commands_in(entries))
}

/// A snapshot is faithful if it holds the state that the entries it stands for lead to.
pub open spec fn setting<Cmd: View, S: StateMachine<Cmd>>(
    boot: Boot<S::State>,
) -> Setting<Cmd::V> {
    Setting {
        servers: boot.servers,
        initial: boot.members,
        boots: Map::new(
            |id: NodeId| boot.servers.contains(id),
            |id: NodeId| boot.config_of(id),
        ),
        faithful: |data: Seq<u8>, entries: Entries<Cmd::V>|
            S::decoded(data) == Some(state_of::<Cmd, S>(boot, entries)),
    }
}

/// Whether a server is what the protocol says it is.
pub open spec fn server_ok<Cmd: View, S: StateMachine<Cmd>>(
    boot: Boot<S::State>,
    w: World<Cmd::V>,
    id: NodeId,
    server: RuntimeView<Cmd::V, S::State>,
) -> bool {
    &&& refine::placed(setting::<Cmd, S>(boot), w, id, server.node)
    &&& durable::backed(w, id, server.node, server.stored)
    &&& server.node.to_restore is None
    &&& server.state == state_of::<Cmd, S>(
        boot,
        w.peers[id].log.take(server.node.applied.value as int),
    )
}

/// Whether a cluster is what the protocol says it is.
pub open spec fn explains<Cmd: View, S: StateMachine<Cmd>>(
    boot: Boot<S::State>,
    w: World<Cmd::V>,
    cluster: Cluster<Cmd::V, S::State>,
) -> bool {
    &&& w.inv()
    &&& w.servers == boot.servers
    &&& w.initial == boot.members
    &&& cluster.servers.dom() == boot.servers
    &&& forall|id: NodeId| #[trigger]
        boot.servers.contains(id) ==> server_ok::<Cmd, S>(
            boot,
            w,
            id,
            cluster.servers[id],
        )
    &&& forall|packet: Packet<Cmd::V>| #[trigger]
        cluster.packets.contains(packet) ==> refine::heard(
            setting::<Cmd, S>(boot),
            w,
            packet.from,
            packet.to,
            packet.message,
        )
}

/// Whether no server is in an earlier term than it was.
pub open spec fn no_term_falls<C>(w: World<C>, x: World<C>) -> bool {
    forall|id: NodeId| #[trigger]
        w.servers.contains(id) ==> x.peers[id].term >= w.peers[id].term
}

proof fn lemma_start<Cmd: View, S: StateMachine<Cmd>>(
    boot: Boot<S::State>,
    cluster: Cluster<Cmd::V, S::State>,
)
    requires
        boot.wf(),
        starts::<Cmd, S>(boot, cluster),
    ensures
        explains::<Cmd, S>(
            boot,
            steps::beginning::<Cmd::V>(boot.servers, boot.members),
            cluster,
        ),
{
    let w = steps::beginning::<Cmd::V>(boot.servers, boot.members);
    steps::lemma_beginning::<Cmd::V>(boot.servers, boot.members);
    let nothing = Seq::<EntryView<Cmd::V>>::empty();
    assert forall|id: NodeId| #[trigger] boot.servers.contains(id) implies server_ok::<Cmd, S>(
        boot,
        w,
        id,
        cluster.servers[id],
    ) by {
        assert(nothing.take(0) =~= nothing);
        assert(nothing.skip(0) =~= nothing);
        assert(applying::commands_in(nothing) =~= Seq::<Cmd::V>::empty());
    }
}

/// What one server does keeps the cluster explained, if that server and what was newly sent are.
proof fn lemma_server_acted<Cmd: View, S: StateMachine<Cmd>>(
    boot: Boot<S::State>,
    w: World<Cmd::V>,
    x: World<Cmd::V>,
    before: Cluster<Cmd::V, S::State>,
    id: NodeId,
    after: Cluster<Cmd::V, S::State>,
)
    requires
        explains::<Cmd, S>(boot, w, before),
        boot.servers.contains(id),
        steps::follows(w, x, id),
        after.servers == before.servers.insert(id, after.servers[id]),
        server_ok::<Cmd, S>(boot, x, id, after.servers[id]),
        forall|packet: Packet<Cmd::V>| #[trigger]
            after.packets.contains(packet) && !before.packets.contains(packet) ==> refine::heard(
                setting::<Cmd, S>(boot),
                x,
                packet.from,
                packet.to,
                packet.message,
            ),
    ensures
        explains::<Cmd, S>(boot, x, after),
{
    let set = setting::<Cmd, S>(boot);
    assert(after.servers.dom() =~= boot.servers);
    assert forall|i: NodeId| #[trigger] boot.servers.contains(i) implies server_ok::<Cmd, S>(
        boot,
        x,
        i,
        after.servers[i],
    ) by {
        if i != id {
            assert(server_ok::<Cmd, S>(boot, w, i, before.servers[i]));
            assert(x.peers[i] == w.peers[i]);
            let t = w.peers[i].term;
            if x.elected(i) {
                assert(x.led(t) && x.leaders[t] != id);
            }
            if w.elected(i) {
                assert(w.led(t));
                assert(x.led(t) && x.leaders[t] != id);
            }
        }
    }
    assert forall|packet: Packet<Cmd::V>| #[trigger]
        after.packets.contains(packet) implies refine::heard(
        set,
        x,
        packet.from,
        packet.to,
        packet.message,
    ) by {
        if before.packets.contains(packet) {
            refine::lemma_heard_grows(set, w, x, packet.from, packet.to, packet.message);
        }
    }
}

/// A server once it has carried an event through.
proof fn lemma_finished<Cmd: View, S: StateMachine<Cmd>>(
    boot: Boot<S::State>,
    w: World<Cmd::V>,
    id: NodeId,
    policy: SnapshotPolicy,
    stepped: RuntimeView<Cmd::V, S::State>,
    restored: S::State,
    after: RuntimeView<Cmd::V, S::State>,
)
    requires
        refine::ready(setting::<Cmd, S>(boot), w, id, stepped.saved().node),
        durable::backed(w, id, stepped.saved().node, stepped.saved().stored),
        restored == state_of::<Cmd, S>(
            boot,
            w.peers[id].log.take(stepped.node.applied.value as int),
        ),
        runtime::finished::<Cmd, S>(policy, stepped, restored, after),
        !compacts_untold::<Cmd, S>(boot, id, policy, stepped),
    ensures
        server_ok::<Cmd, S>(boot, w, id, after),
{
    let set = setting::<Cmd, S>(boot);
    let p = w.peers[id];
    let base = stepped.saved().restored(restored);
    let applied = runtime::applied_view::<Cmd, S>(base);
    protocol::lemma_peer(w, id);
    applying::lemma_apply_all::<Cmd, S>(boot.state, base.node, p.log);
    assert(refine::ready(set, w, id, applied.node));
    assert(durable::backed(w, id, applied.node, applied.stored));
    assert(server_ok::<Cmd, S>(boot, w, id, applied));
    if policy.is_due(applied.node) {
        let data = choose|data: Seq<u8>|
            S::decoded(data) == Some(applied.state) && after == #[trigger] applied.compacted(data);
        durable::lemma_compaction(set, w, id, applied.node, applied.stored, data);
    }
}

/// A server that handles an event.
proof fn lemma_handle<Cmd: View, S: StateMachine<Cmd>>(
    boot: Boot<S::State>,
    w: World<Cmd::V>,
    before: Cluster<Cmd::V, S::State>,
    id: NodeId,
    event: EventView<Cmd::V>,
    after: Cluster<Cmd::V, S::State>,
) -> (x: World<Cmd::V>)
    requires
        explains::<Cmd, S>(boot, w, before),
        acted::<Cmd, S>(boot, before, id, Action::Handle(event), after),
    ensures
        explains::<Cmd, S>(boot, x, after),
        steps::grows(w, x),
        no_term_falls(w, x),
{
    let set = setting::<Cmd, S>(boot);
    let server = before.servers[id];
    let next = after.servers[id];
    assert(server_ok::<Cmd, S>(boot, w, id, server));
    let (policy, config, now, jitter_ms) = choose|
        policy: SnapshotPolicy,
        config: TimerConfig,
        now: Instant,
        jitter_ms: u64,
    | #[trigger]
        outcome::<Cmd, S>(server, event, policy, config, now, jitter_ms, next)
            && !compacts_untold::<Cmd, S>(
            boot,
            id,
            policy,
            server.stepped(event, config, now, jitter_ms),
        );
    let stepped = server.stepped(event, config, now, jitter_ms);
    let restored = choose|restored: S::State| #[trigger]
        runtime::is_restored::<Cmd, S>(stepped.node.to_restore, stepped.state, restored)
            && runtime::finished::<Cmd, S>(policy, stepped, restored, next);
    if let EventView::Message { from, message } = event {
        assert(before.packets.contains(Packet { from, to: id, message }));
    }
    assert(durable::reaches(set, w, id, server.node, event));
    let x = durable::lemma_event(set, w, id, server.node, server.stored, event);
    let commands = event.step(server.node).1;
    let applied = stepped.node.applied.value as int;
    protocol::lemma_peer(w, id);
    assert(restored == state_of::<Cmd, S>(boot, x.peers[id].log.take(applied))) by {
        if stepped.node.to_restore is None {
            protocol::lemma_agree_shorter(
                x.peers[id].log,
                w.peers[id].log,
                w.peers[id].commit,
                applied as nat,
            );
        }
    }
    lemma_finished::<Cmd, S>(boot, x, id, policy, stepped, restored, next);
    assert forall|packet: Packet<Cmd::V>| #[trigger]
        after.packets.contains(packet) && !before.packets.contains(packet) implies refine::heard(
        set,
        x,
        packet.from,
        packet.to,
        packet.message,
    ) by {
        assert(sent(id, commands).contains(packet));
        let send = CommandView::Send { to: packet.to, message: packet.message };
        let i = choose|i: int| 0 <= i < commands.len() && commands[i] == send;
        assert(commands[i] == send);
    }
    lemma_server_acted::<Cmd, S>(boot, w, x, before, id, after);
    x
}

/// A leader that may put a membership in force may do so by the protocol.
proof fn lemma_may_change<Cmd: View, S: StateMachine<Cmd>>(
    boot: Boot<S::State>,
    w: World<Cmd::V>,
    id: NodeId,
    server: RuntimeView<Cmd::V, S::State>,
    config: Members,
)
    requires
        server_ok::<Cmd, S>(boot, w, id, server),
        may_reconfigure(boot.servers, server.node, config),
    ensures
        steps::may_change(w, id, config.dom()),
{
    let p = w.peers[id];
    let node = server.node;
    protocol::lemma_peer(w, id);
    protocol::lemma_leader(w, p.term);
    refine::lemma_tail(node.log(), p.log);
    let rest = node.log().suffix_from(node.commit.value + 1);
    assert(rest == p.log.skip(node.commit.value as int));
    assert forall|k: int| p.commit <= k < p.log.len() implies !((
    #[trigger] p.log[k]).payload is ConfigChange) by {
        assert(rest[k - p.commit] == p.log[k]);
    }
}

/// Whatever happens, the protocol explains it.
proof fn lemma_acted<Cmd: View, S: StateMachine<Cmd>>(
    boot: Boot<S::State>,
    w: World<Cmd::V>,
    before: Cluster<Cmd::V, S::State>,
    id: NodeId,
    action: Action<Cmd::V>,
    after: Cluster<Cmd::V, S::State>,
) -> (x: World<Cmd::V>)
    requires
        explains::<Cmd, S>(boot, w, before),
        acted::<Cmd, S>(boot, before, id, action, after),
    ensures
        explains::<Cmd, S>(boot, x, after),
        steps::grows(w, x),
        no_term_falls(w, x),
{
    let set = setting::<Cmd, S>(boot);
    let server = before.servers[id];
    let next = after.servers[id];
    let applied = server.node.applied.value as int;
    assert(server_ok::<Cmd, S>(boot, w, id, server));
    protocol::lemma_peer(w, id);
    match action {
        Action::Handle(event) => lemma_handle::<Cmd, S>(
            boot,
            w,
            before,
            id,
            event,
            after,
        ),
        Action::Submit(command) => {
            let x = durable::lemma_submitted(set, w, id, server.node, server.stored, command);
            protocol::lemma_agree_shorter(
                x.peers[id].log,
                w.peers[id].log,
                w.peers[id].log.len(),
                applied as nat,
            );
            lemma_server_acted::<Cmd, S>(boot, w, x, before, id, after);
            x
        },
        Action::Reconfigure(config) => {
            lemma_may_change::<Cmd, S>(boot, w, id, server, config);
            let x = durable::lemma_reconfigured(
                set,
                w,
                id,
                server.node,
                server.stored,
                config,
            );
            protocol::lemma_agree_shorter(
                x.peers[id].log,
                w.peers[id].log,
                w.peers[id].log.len(),
                applied as nat,
            );
            lemma_server_acted::<Cmd, S>(boot, w, x, before, id, after);
            x
        },
        Action::Drain => {
            steps::lemma_follows_self(w, id);
            lemma_server_acted::<Cmd, S>(boot, w, w, before, id, after);
            w
        },
        Action::Restart => {
            let x = crash::lemma_restart(set, w, id, server.node, server.stored, 0);
            let none = server.node.persistent.pending_append.take(0);
            assert(server.stored.append(none) =~= server.stored);
            lemma_restarted::<Cmd, S>(boot, x, id, server.stored, next);
            lemma_server_acted::<Cmd, S>(boot, w, x, before, id, after);
            x
        },
        Action::Interrupt(event, steps) => {
            if let EventView::Message { from, message } = event {
                assert(before.packets.contains(Packet { from, to: id, message }));
            }
            let found = event.step(server.node).0.persistent.replay_part(server.stored, steps);
            let x = crash::lemma_interrupted(
                set,
                w,
                id,
                server.node,
                server.stored,
                event,
                steps,
            );
            lemma_restarted::<Cmd, S>(boot, x, id, found, next);
            lemma_server_acted::<Cmd, S>(boot, w, x, before, id, after);
            x
        },
    }
}

/// A server that has come back.
proof fn lemma_restarted<Cmd: View, S: StateMachine<Cmd>>(
    boot: Boot<S::State>,
    w: World<Cmd::V>,
    id: NodeId,
    stored: StoredView<Cmd::V>,
    server: RuntimeView<Cmd::V, S::State>,
)
    requires
        crash::comes_back(setting::<Cmd, S>(boot), w, id, stored),
        restarted::<Cmd, S>(boot, id, stored, server),
    ensures
        server_ok::<Cmd, S>(boot, w, id, server),
{
    let set = setting::<Cmd, S>(boot);
    crash::lemma_comes_back(set, w, id, stored);
    let b = stored.log.boundary as int;
    assert(server.node.applied.value == b);
    if stored.snapshot is None {
        assert(applying::commands_in(w.peers[id].log.take(b)) =~= Seq::<Cmd::V>::empty());
    }
}

/// From any point of a history on, the protocol explains it.
proof fn lemma_onward<Cmd: View, S: StateMachine<Cmd>>(
    boot: Boot<S::State>,
    history: Seq<Cluster<Cmd::V, S::State>>,
    i: int,
    w: World<Cmd::V>,
    j: int,
) -> (x: World<Cmd::V>)
    requires
        is_history::<Cmd, S>(boot, history),
        0 <= i <= j < history.len(),
        explains::<Cmd, S>(boot, w, history[i]),
    ensures
        explains::<Cmd, S>(boot, x, history[j]),
        steps::grows(w, x),
        no_term_falls(w, x),
    decreases j - i,
{
    if i == j {
        assert forall|t: nat| #[trigger] w.led(t) implies steps::extends(
            w.leader_logs[t],
            w.leader_logs[t],
            t,
        ) by {
            assert(w.leader_logs[t].take(w.leader_logs[t].len() as int) =~= w.leader_logs[t]);
        }
        w
    } else {
        let y = lemma_onward::<Cmd, S>(boot, history, i, w, j - 1);
        assert(goes_on::<Cmd, S>(boot, history, j));
        let (id, action) = choose|id: NodeId, action: Action<Cmd::V>| #[trigger]
            acted::<Cmd, S>(boot, history[j - 1], id, action, history[j]);
        let x = lemma_acted::<Cmd, S>(
            boot,
            y,
            history[j - 1],
            id,
            action,
            history[j],
        );
        steps::lemma_grows_trans(w, y, x);
        x
    }
}

/// Two points of a history, and how the protocol explains them.
proof fn lemma_two_points<Cmd: View, S: StateMachine<Cmd>>(
    boot: Boot<S::State>,
    history: Seq<Cluster<Cmd::V, S::State>>,
    i: int,
    j: int,
) -> (worlds: (World<Cmd::V>, World<Cmd::V>))
    requires
        is_history::<Cmd, S>(boot, history),
        0 <= i <= j < history.len(),
    ensures
        explains::<Cmd, S>(boot, worlds.0, history[i]),
        explains::<Cmd, S>(boot, worlds.1, history[j]),
        steps::grows(worlds.0, worlds.1),
        no_term_falls(worlds.0, worlds.1),
{
    lemma_start::<Cmd, S>(boot, history[0]);
    let first = steps::beginning::<Cmd::V>(boot.servers, boot.members);
    let w = lemma_onward::<Cmd, S>(boot, history, 0, first, i);
    let x = lemma_onward::<Cmd, S>(boot, history, i, w, j);
    (w, x)
}

/// A server at one point of a history, seen from a later point: its log is still grounded, and what
/// it knew to be committed is still committed.
proof fn lemma_seen_later<Cmd: View, S: StateMachine<Cmd>>(
    boot: Boot<S::State>,
    w: World<Cmd::V>,
    x: World<Cmd::V>,
    cluster: Cluster<Cmd::V, S::State>,
    id: NodeId,
)
    requires
        explains::<Cmd, S>(boot, w, cluster),
        steps::grows(w, x),
        boot.servers.contains(id),
    ensures
        ({
            let p = w.peers[id];
            let server = cluster.servers[id];
            &&& server_ok::<Cmd, S>(boot, w, id, server)
            &&& w.peer_ok(id)
            &&& x.all_grounded(p.log, w.exempt(id))
            &&& x.settled(p.log, p.commit, p.term)
            &&& server.node.commit.value <= p.log.len()
            &&& server.node.log().last_index() == p.log.len()
            &&& forall|n: int|
                server.node.log().retains(n) ==> #[trigger] server.node.log().at(n) == p.log[n - 1]
        }),
{
    let p = w.peers[id];
    let server = cluster.servers[id];
    assert(server_ok::<Cmd, S>(boot, w, id, server));
    protocol::lemma_peer(w, id);
    steps::lemma_grounded_grows(w, x, p.log, w.exempt(id));
    protocol::lemma_leaders(w);
    steps::lemma_settled_grows(w, x, p.log, p.commit, p.term, p.term);
    refine::lemma_tail(server.node.log(), p.log);
}

// ---- The laws ----
/// Whether two logs hold the same entry wherever both retain one, and know the same term wherever
/// both know one, through `last`.
pub open spec fn same_through<C>(a: LogView<C>, b: LogView<C>, last: int) -> bool {
    &&& forall|n: int|
        n <= last && #[trigger] a.retains(n) && #[trigger] b.retains(n) ==> a.at(n) == b.at(n)
    &&& forall|n: int|
        n <= last && #[trigger] a.knows(n) && #[trigger] b.knows(n) ==> a.term_of(n) == b.term_of(
            n,
        )
}

/// What compaction has left of two logs that agree is the same.
proof fn lemma_same_through<C>(
    a: LogView<C>,
    p: Entries<C>,
    b: LogView<C>,
    q: Entries<C>,
    n: nat,
)
    requires
        refine::is_tail(a, p),
        refine::is_tail(b, q),
        protocol::agree(p, q, n),
    ensures
        same_through(a, b, n as int),
{
    refine::lemma_tail(a, p);
    refine::lemma_tail(b, q);
    assert forall|k: int| 0 <= k < n implies p[k] == q[k] by {
        protocol::lemma_agree_at(p, q, n, k);
    }
}

/// Election Safety: at most one leader is ever elected in a term.
pub proof fn law_election_safety<Cmd: View, S: StateMachine<Cmd>>(
    boot: Boot<S::State>,
    history: Seq<Cluster<Cmd::V, S::State>>,
    i: int,
    a: NodeId,
    j: int,
    b: NodeId,
)
    requires
        is_history::<Cmd, S>(boot, history),
        0 <= i < history.len(),
        0 <= j < history.len(),
        boot.servers.contains(a),
        boot.servers.contains(b),
        history[i].servers[a].node.role is Leader,
        history[j].servers[b].node.role is Leader,
        history[i].servers[a].node.term() == history[j].servers[b].node.term(),
    ensures
        a == b,
    decreases
        if i > j {
            1int
        } else {
            0int
        },
{
    if i > j {
        law_election_safety::<Cmd, S>(boot, history, j, b, i, a);
    } else {
        let (w, x) = lemma_two_points::<Cmd, S>(boot, history, i, j);
        assert(server_ok::<Cmd, S>(boot, w, a, history[i].servers[a]));
        assert(server_ok::<Cmd, S>(boot, x, b, history[j].servers[b]));
        protocol::lemma_peer(w, a);
        protocol::lemma_peer(x, b);
        assert(w.led(w.peers[a].term));
    }
}

/// Leader Append-Only: for as long as it leads a term, a leader never removes or overwrites an entry
/// of its log.
pub proof fn law_leader_append_only<Cmd: View, S: StateMachine<Cmd>>(
    boot: Boot<S::State>,
    history: Seq<Cluster<Cmd::V, S::State>>,
    i: int,
    j: int,
    a: NodeId,
)
    requires
        is_history::<Cmd, S>(boot, history),
        0 <= i <= j < history.len(),
        boot.servers.contains(a),
        history[i].servers[a].node.role is Leader,
        history[j].servers[a].node.role is Leader,
        history[i].servers[a].node.term() == history[j].servers[a].node.term(),
    ensures
        ({
            let before = history[i].servers[a].node.log();
            let after = history[j].servers[a].node.log();
            &&& before.last_index() <= after.last_index()
            &&& same_through(before, after, before.last_index() as int)
        }),
{
    let (w, x) = lemma_two_points::<Cmd, S>(boot, history, i, j);
    lemma_seen_later::<Cmd, S>(boot, w, x, history[i], a);
    lemma_self_grows::<Cmd, S>(boot, x, history[j], a);
    let t = w.peers[a].term;
    assert(w.led(t));
    let (old, new) = (w.leader_logs[t], x.leader_logs[t]);
    assert(old.take(old.len() as int) =~= old);
    lemma_same_through(
        history[i].servers[a].node.log(),
        old,
        history[j].servers[a].node.log(),
        new,
        old.len(),
    );
}

/// A server at the point it is seen from.
proof fn lemma_self_grows<Cmd: View, S: StateMachine<Cmd>>(
    boot: Boot<S::State>,
    w: World<Cmd::V>,
    cluster: Cluster<Cmd::V, S::State>,
    id: NodeId,
)
    requires
        explains::<Cmd, S>(boot, w, cluster),
        boot.servers.contains(id),
    ensures
        ({
            let p = w.peers[id];
            let server = cluster.servers[id];
            &&& server_ok::<Cmd, S>(boot, w, id, server)
            &&& w.peer_ok(id)
            &&& server.node.log().last_index() == p.log.len()
            &&& forall|n: int|
                server.node.log().retains(n) ==> #[trigger] server.node.log().at(n) == p.log[n - 1]
        }),
{
    steps::lemma_follows_self(w, id);
    lemma_seen_later::<Cmd, S>(boot, w, w, cluster, id);
}

/// Log Matching: if two logs hold an entry of the same term at the same index, they are the same up
/// to there.
pub proof fn law_log_matching<Cmd: View, S: StateMachine<Cmd>>(
    boot: Boot<S::State>,
    history: Seq<Cluster<Cmd::V, S::State>>,
    i: int,
    a: NodeId,
    j: int,
    b: NodeId,
    index: int,
)
    requires
        is_history::<Cmd, S>(boot, history),
        0 <= i < history.len(),
        0 <= j < history.len(),
        boot.servers.contains(a),
        boot.servers.contains(b),
        history[i].servers[a].node.log().retains(index),
        history[j].servers[b].node.log().retains(index),
        history[i].servers[a].node.log().at(index).term == history[j].servers[b].node.log().at(
            index,
        ).term,
    ensures
        same_through(
            history[i].servers[a].node.log(),
            history[j].servers[b].node.log(),
            index,
        ),
    decreases
        if i > j {
            1int
        } else {
            0int
        },
{
    if i > j {
        law_log_matching::<Cmd, S>(boot, history, j, b, i, a, index);
    } else {
        let (p, q) = lemma_matching_prefix::<Cmd, S>(
            boot,
            history,
            i,
            a,
            j,
            b,
            index,
        );
        lemma_same_through(
            history[i].servers[a].node.log(),
            p,
            history[j].servers[b].node.log(),
            q,
            index as nat,
        );
    }
}

/// Two servers, at two points of a history, have the same log through an index at which they have an
/// entry of the same term.
proof fn lemma_matching_prefix<Cmd: View, S: StateMachine<Cmd>>(
    boot: Boot<S::State>,
    history: Seq<Cluster<Cmd::V, S::State>>,
    i: int,
    a: NodeId,
    j: int,
    b: NodeId,
    index: int,
) -> (logs: (Entries<Cmd::V>, Entries<Cmd::V>))
    requires
        is_history::<Cmd, S>(boot, history),
        0 <= i <= j < history.len(),
        boot.servers.contains(a),
        boot.servers.contains(b),
        history[i].servers[a].node.log().retains(index),
        history[j].servers[b].node.log().retains(index),
        history[i].servers[a].node.log().at(index).term == history[j].servers[b].node.log().at(
            index,
        ).term,
    ensures
        protocol::agree(logs.0, logs.1, index as nat),
        refine::is_tail(history[i].servers[a].node.log(), logs.0),
        refine::is_tail(history[j].servers[b].node.log(), logs.1),
{
    let (w, x) = lemma_two_points::<Cmd, S>(boot, history, i, j);
    lemma_seen_later::<Cmd, S>(boot, w, x, history[i], a);
    lemma_self_grows::<Cmd, S>(boot, x, history[j], b);
    let (p, q) = (w.peers[a], x.peers[b]);
    protocol::lemma_log_matching(x, p.log, w.exempt(a), q.log, x.exempt(b), index - 1);
    (p.log, q.log)
}

/// Leader Completeness: what a server knows to be committed is in the log of every leader from then
/// on.
pub proof fn law_leader_completeness<Cmd: View, S: StateMachine<Cmd>>(
    boot: Boot<S::State>,
    history: Seq<Cluster<Cmd::V, S::State>>,
    i: int,
    a: NodeId,
    j: int,
    b: NodeId,
)
    requires
        is_history::<Cmd, S>(boot, history),
        0 <= i <= j < history.len(),
        boot.servers.contains(a),
        boot.servers.contains(b),
        history[j].servers[b].node.role is Leader,
        history[j].servers[b].node.term().value >= history[i].servers[a].node.term().value,
    ensures
        ({
            let server = history[i].servers[a].node;
            let leader = history[j].servers[b].node;
            &&& server.commit.value <= leader.log().last_index()
            &&& same_through(server.log(), leader.log(), server.commit.value as int)
        }),
{
    let (w, x) = lemma_two_points::<Cmd, S>(boot, history, i, j);
    lemma_seen_later::<Cmd, S>(boot, w, x, history[i], a);
    lemma_self_grows::<Cmd, S>(boot, x, history[j], b);
    let (p, q) = (w.peers[a], x.peers[b]);
    protocol::lemma_settled_in_leader(x, p.log, p.commit, p.term, q.term);
    lemma_same_through(
        history[i].servers[a].node.log(),
        p.log,
        history[j].servers[b].node.log(),
        q.log,
        p.commit,
    );
}

/// Two servers, at two points of a history, have the same log through the lower of their commit
/// indexes.
proof fn lemma_same_prefix<Cmd: View, S: StateMachine<Cmd>>(
    boot: Boot<S::State>,
    history: Seq<Cluster<Cmd::V, S::State>>,
    i: int,
    a: NodeId,
    j: int,
    b: NodeId,
    n: nat,
) -> (logs: (Entries<Cmd::V>, Entries<Cmd::V>))
    requires
        is_history::<Cmd, S>(boot, history),
        0 <= i <= j < history.len(),
        boot.servers.contains(a),
        boot.servers.contains(b),
        n <= history[i].servers[a].node.commit.value,
        n <= history[j].servers[b].node.commit.value,
    ensures
        protocol::agree(logs.0, logs.1, n),
        refine::is_tail(history[i].servers[a].node.log(), logs.0),
        refine::is_tail(history[j].servers[b].node.log(), logs.1),
        history[i].servers[a].node.applied.value <= history[i].servers[a].node.commit.value,
        history[j].servers[b].node.applied.value <= history[j].servers[b].node.commit.value,
        history[i].servers[a].node.commit.value <= logs.0.len(),
        history[j].servers[b].node.commit.value <= logs.1.len(),
        history[i].servers[a].state == state_of::<Cmd, S>(
            boot,
            logs.0.take(history[i].servers[a].node.applied.value as int),
        ),
        history[j].servers[b].state == state_of::<Cmd, S>(
            boot,
            logs.1.take(history[j].servers[b].node.applied.value as int),
        ),
{
    let (w, x) = lemma_two_points::<Cmd, S>(boot, history, i, j);
    lemma_seen_later::<Cmd, S>(boot, w, x, history[i], a);
    lemma_self_grows::<Cmd, S>(boot, x, history[j], b);
    let (p, q) = (w.peers[a], x.peers[b]);
    if p.commit <= q.commit {
        protocol::lemma_settled_agree(x, p.log, p.commit, p.term, q.log, q.commit, q.term);
        protocol::lemma_agree_shorter(p.log, q.log, p.commit, n);
    } else {
        protocol::lemma_settled_agree(x, q.log, q.commit, q.term, p.log, p.commit, p.term);
        protocol::lemma_agree_shorter(q.log, p.log, q.commit, n);
    }
    (p.log, q.log)
}

/// State Machine Safety: no two servers ever commit different entries at the same index.
pub proof fn law_state_machine_safety<Cmd: View, S: StateMachine<Cmd>>(
    boot: Boot<S::State>,
    history: Seq<Cluster<Cmd::V, S::State>>,
    i: int,
    a: NodeId,
    j: int,
    b: NodeId,
    index: int,
)
    requires
        is_history::<Cmd, S>(boot, history),
        0 <= i < history.len(),
        0 <= j < history.len(),
        boot.servers.contains(a),
        boot.servers.contains(b),
        index <= history[i].servers[a].node.commit.value,
        index <= history[j].servers[b].node.commit.value,
    ensures
        same_through(
            history[i].servers[a].node.log(),
            history[j].servers[b].node.log(),
            index,
        ),
    decreases
        if i > j {
            1int
        } else {
            0int
        },
{
    if i > j {
        law_state_machine_safety::<Cmd, S>(boot, history, j, b, i, a, index);
    } else if index >= 0 {
        let (p, q) = lemma_same_prefix::<Cmd, S>(
            boot,
            history,
            i,
            a,
            j,
            b,
            index as nat,
        );
        lemma_same_through(
            history[i].servers[a].node.log(),
            p,
            history[j].servers[b].node.log(),
            q,
            index as nat,
        );
    }
}

/// Replicas do not diverge: a state machine that has applied the log up to some index is in the same
/// state as any other that has, however either of them got there, and one that has applied more is in
/// the state that further commands lead to from there.
pub proof fn law_replicas_agree<Cmd: View, S: StateMachine<Cmd>>(
    boot: Boot<S::State>,
    history: Seq<Cluster<Cmd::V, S::State>>,
    i: int,
    a: NodeId,
    j: int,
    b: NodeId,
)
    requires
        is_history::<Cmd, S>(boot, history),
        0 <= i < history.len(),
        0 <= j < history.len(),
        boot.servers.contains(a),
        boot.servers.contains(b),
        history[i].servers[a].node.applied.value <= history[j].servers[b].node.applied.value,
    ensures
        exists|commands: Seq<Cmd::V>|
            history[j].servers[b].state == #[trigger] state_machine::state_after::<Cmd, S>(
                history[i].servers[a].state,
                commands,
            ),
        history[i].servers[a].node.applied == history[j].servers[b].node.applied
            ==> history[i].servers[a].state == history[j].servers[b].state,
{
    let m = history[i].servers[a].node.applied.value as nat;
    let n = history[j].servers[b].node.applied.value as nat;
    lemma_within_commit::<Cmd, S>(boot, history, i, a);
    lemma_within_commit::<Cmd, S>(boot, history, j, b);
    let (p, q) = if i <= j {
        lemma_same_prefix::<Cmd, S>(boot, history, i, a, j, b, m)
    } else {
        let (q, p) = lemma_same_prefix::<Cmd, S>(boot, history, j, b, i, a, m);
        (p, q)
    };
    lemma_state_goes_on::<Cmd, S>(boot, p, m, q, n);
}

/// A log that goes on where another ends leads on from the state that the other leads to.
proof fn lemma_state_goes_on<Cmd: View, S: StateMachine<Cmd>>(
    boot: Boot<S::State>,
    p: Entries<Cmd::V>,
    m: nat,
    q: Entries<Cmd::V>,
    n: nat,
)
    requires
        protocol::agree(p, q, m),
        m <= n <= q.len(),
    ensures
        exists|commands: Seq<Cmd::V>|
            state_of::<Cmd, S>(boot, q.take(n as int))
                == #[trigger] state_machine::state_after::<Cmd, S>(
                state_of::<Cmd, S>(boot, p.take(m as int)),
                commands,
            ),
        m == n ==> state_of::<Cmd, S>(boot, q.take(n as int)) == state_of::<Cmd, S>(
            boot,
            p.take(m as int),
        ),
{
    let rest = q.subrange(m as int, n as int);
    let more = applying::commands_in(rest);
    assert(q.take(n as int) =~= q.take(m as int) + rest);
    applying::lemma_commands_in_concat(q.take(m as int), rest);
    applying::lemma_state_after_concat::<Cmd, S>(
        boot.state,
        applying::commands_in(q.take(m as int)),
        more,
    );
    assert(state_of::<Cmd, S>(boot, q.take(n as int)) == state_machine::state_after::<Cmd, S>(
        state_of::<Cmd, S>(boot, p.take(m as int)),
        more,
    ));
}

/// A server never applies more than it knows to be committed.
proof fn lemma_within_commit<Cmd: View, S: StateMachine<Cmd>>(
    boot: Boot<S::State>,
    history: Seq<Cluster<Cmd::V, S::State>>,
    i: int,
    a: NodeId,
)
    requires
        is_history::<Cmd, S>(boot, history),
        0 <= i < history.len(),
        boot.servers.contains(a),
    ensures
        history[i].servers[a].node.applied.value <= history[i].servers[a].node.commit.value,
{
    let (w, x) = lemma_two_points::<Cmd, S>(boot, history, i, i);
    assert(server_ok::<Cmd, S>(boot, w, a, history[i].servers[a]));
}

/// A server never goes back to an earlier term, whether it crashes or not.
pub proof fn law_terms_never_decrease<Cmd: View, S: StateMachine<Cmd>>(
    boot: Boot<S::State>,
    history: Seq<Cluster<Cmd::V, S::State>>,
    i: int,
    j: int,
    a: NodeId,
)
    requires
        is_history::<Cmd, S>(boot, history),
        0 <= i <= j < history.len(),
        boot.servers.contains(a),
    ensures
        history[i].servers[a].node.term().value <= history[j].servers[a].node.term().value,
{
    let (w, x) = lemma_two_points::<Cmd, S>(boot, history, i, j);
    assert(server_ok::<Cmd, S>(boot, w, a, history[i].servers[a]));
    assert(server_ok::<Cmd, S>(boot, x, a, history[j].servers[a]));
}

/// A server votes for at most one candidate in a term, whether it crashes in between or not.
pub proof fn law_one_vote_per_term<Cmd: View, S: StateMachine<Cmd>>(
    boot: Boot<S::State>,
    history: Seq<Cluster<Cmd::V, S::State>>,
    i: int,
    j: int,
    a: NodeId,
)
    requires
        is_history::<Cmd, S>(boot, history),
        0 <= i <= j < history.len(),
        boot.servers.contains(a),
        history[i].servers[a].node.term() == history[j].servers[a].node.term(),
        history[i].servers[a].node.persistent.voted_for is Some,
    ensures
        history[j].servers[a].node.persistent.voted_for
            == history[i].servers[a].node.persistent.voted_for,
{
    let (w, x) = lemma_two_points::<Cmd, S>(boot, history, i, j);
    assert(server_ok::<Cmd, S>(boot, w, a, history[i].servers[a]));
    assert(server_ok::<Cmd, S>(boot, x, a, history[j].servers[a]));
    protocol::lemma_peer(w, a);
    protocol::lemma_peer(x, a);
    assert(w.voted(a, w.peers[a].term));
}

/// What a server has done is in its storage, apart from entries that it has appended as a leader and
/// is going to store with its next event.
pub proof fn law_storage_keeps_up<Cmd: View, S: StateMachine<Cmd>>(
    boot: Boot<S::State>,
    history: Seq<Cluster<Cmd::V, S::State>>,
    i: int,
    a: NodeId,
)
    requires
        is_history::<Cmd, S>(boot, history),
        0 <= i < history.len(),
        boot.servers.contains(a),
    ensures
        ({
            let server = history[i].servers[a];
            let state = server.node.persistent;
            &&& server.stored.term == state.term
            &&& server.stored.voted_for == state.voted_for
            &&& server.stored.snapshot == state.latest_snapshot
            &&& state.log == server.stored.log.extend(state.pending_append)
            &&& state.in_sync(server.stored)
        }),
{
    let (w, x) = lemma_two_points::<Cmd, S>(boot, history, i, i);
    let server = history[i].servers[a];
    assert(server_ok::<Cmd, S>(boot, w, a, server));
    durable::lemma_backed_in_sync(setting::<Cmd, S>(boot), w, a, server.node, server.stored);
    let state = server.node.persistent;
    assert(server.stored.log.extend(state.pending_append) =~= state.log);
}

/// A server has applied no more than is committed, and nothing is committed that it does not have.
/// What it has compacted away, it has applied.
pub proof fn law_indexes_are_in_order<Cmd: View, S: StateMachine<Cmd>>(
    boot: Boot<S::State>,
    history: Seq<Cluster<Cmd::V, S::State>>,
    i: int,
    a: NodeId,
)
    requires
        is_history::<Cmd, S>(boot, history),
        0 <= i < history.len(),
        boot.servers.contains(a),
    ensures
        ({
            let node = history[i].servers[a].node;
            &&& node.log().boundary <= node.applied.value
            &&& node.applied.value <= node.commit.value
            &&& node.commit.value <= node.log().last_index()
        }),
{
    let (w, x) = lemma_two_points::<Cmd, S>(boot, history, i, i);
    lemma_seen_later::<Cmd, S>(boot, w, x, history[i], a);
}

/// A runtime that handles an event without failing takes a step that its server may take in a cluster.
pub proof fn law_handling_is_a_step<Cmd: Clone + View, S: StateMachine<Cmd>, St: Storage<Cmd>>(
    boot: Boot<S::State>,
    id: NodeId,
    before: Runtime<Cmd, S, St>,
    event: EventView<Cmd::V>,
    now: Instant,
    jitter_ms: u64,
    result: Result<Vec<Command<Cmd>>, RuntimeError<St::Error, S::SnapshotError>>,
    after: Runtime<Cmd, S, St>,
)
    requires
        runtime::handled(before, event, now, jitter_ms, result, after),
        result is Ok,
        !compacts_untold::<Cmd, S>(
            boot,
            id,
            before.policy(),
            before@.stepped(event, before.timer_config(), now, jitter_ms),
        ),
    ensures
        may_become::<Cmd, S>(boot, id, before@, event, after@),
        command::command_views(result->Ok_0@) == event.step(before@.node).1,
{
    assert(outcome::<Cmd, S>(
        before@,
        event,
        before.policy(),
        before.timer_config(),
        now,
        jitter_ms,
        after@,
    ));
}

} // verus!
