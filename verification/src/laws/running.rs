//! What a runtime and a server do with events: when timeouts fire, what is durable, when the log is
//! compacted, and who is told what.
use vstd::prelude::*;

use crate::command::Command;
use crate::command::CommandView;
use crate::model::NodeView;
use crate::model::RoleView;
use crate::persistent;
use crate::persistent::PersistentView;
use crate::runtime;
use crate::runtime::EventView;
use crate::runtime::Runtime;
use crate::runtime::RuntimeError;
use crate::runtime::RuntimeView;
use crate::runtime::TimerConfig;
use crate::server;
use crate::server::ApiResponse;
use crate::server::MembershipResult;
use crate::server::MembershipWaiter;
use crate::server::Replies;
use crate::server::Server;
use crate::server::Ticket;
use crate::server::Turn;
use crate::state_machine;
use crate::state_machine::StateMachine;
use crate::storage::Storage;
use crate::storage::StorageCallOf;
use crate::storage::StoredView;
use crate::time;
use crate::time::Clock;
use crate::time::Instant;
use crate::types::config::Members;
use crate::types::log::SuffixDisposition;
use crate::types::message::MessageView;
use crate::types::primitives::LogIndex;
use crate::types::primitives::NodeId;
use crate::types::primitives::Term;
use crate::types::snapshot::SnapshotData;
use crate::waiters::Waiting;

verus! {

/// A timeout fires once its deadline has come, the heartbeat's for a leader and the election's for
/// anybody else, and not before. One that is due stays due.
pub proof fn law_timeout_fires_once_its_deadline_has_come<C, S>(
    runtime: RuntimeView<C, S>,
    now: Instant,
    later: Instant,
)
    requires
        later.nanos >= now.nanos,
    ensures
        runtime.node.role is Leader ==> runtime::due_event(runtime, now) == if now.nanos
            >= runtime.heartbeat_deadline.nanos {
            Some(EventView::<C>::HeartbeatTimeout)
        } else {
            None
        },
        !(runtime.node.role is Leader) ==> runtime::due_event(runtime, now) == if now.nanos
            >= runtime.election_deadline.nanos {
            Some(EventView::<C>::ElectionTimeout)
        } else {
            None
        },
        runtime::due_event(runtime, now) is Some ==> runtime::due_event(runtime, later)
            == runtime::due_event(runtime, now),
{
}

/// The time that a runtime goes by is never earlier than one that it has gone by before, and never
/// earlier than what its clock shows when it is asked. So a timeout that was due at a time already seen
/// is due whenever the timers are looked at.
pub proof fn law_time_already_seen_counts<C, S>(
    runtime: RuntimeView<C, S>,
    clock: Clock,
    now: Instant,
)
    requires
        clock.shows_since(runtime.seen, now),
    ensures
        now.nanos >= runtime.seen.nanos,
        exists|shown: Instant| #[trigger] clock.shows(shown) && now.nanos >= shown.nanos,
        now == runtime.seen || clock.shows(now),
        runtime::due_event(runtime, runtime.seen) is Some ==> runtime::due_event(runtime, now)
            == runtime::due_event(runtime, runtime.seen),
{
    let shown = choose|shown: Instant| #[trigger]
        clock.shows(shown) && now.nanos >= shown.nanos && now.nanos >= runtime.seen.nanos && (now
            == shown || now == runtime.seen) && shown.nanos <= time::longest();
    assert(clock.shows(shown));
}

/// What happens to a node is what the event is, and a timer that the node asks to restart runs out
/// between one and two election timeouts later, or one heartbeat interval later. A timer that it does
/// not ask to restart is left alone. Losing the leadership is noted.
pub proof fn law_timers_restart_as_the_node_asks<C, S>(
    before: RuntimeView<C, S>,
    event: EventView<C>,
    config: TimerConfig,
    now: Instant,
    jitter_ms: u64,
)
    requires
        jitter_ms < config.election_timeout.nanos / 1_000_000,
        now.nanos <= u128::MAX / 2,
    ensures
        ({
            let (node, commands) = match event {
                EventView::ElectionTimeout => before.node.election_timeout(),
                EventView::HeartbeatTimeout => before.node.heartbeat_timeout(),
                EventView::Message { from, message } => before.node.handle_message(from, message),
            };
            let after = before.stepped(event, config, now, jitter_ms);
            &&& after.node == node
            &&& after.stored == before.stored
            &&& after.state == before.state
            &&& after.stepped_down <==> before.stepped_down || (before.node.role is Leader && !(
            node.role is Leader))
            &&& commands.contains(CommandView::ResetElectionTimer) ==> {
                &&& now.nanos + config.election_timeout.nanos <= after.election_deadline.nanos
                &&& after.election_deadline.nanos < now.nanos + 2 * config.election_timeout.nanos
                &&& after.election_deadline.nanos == now.nanos + config.election_timeout.nanos
                    + jitter_ms * 1_000_000
            }
            &&& !commands.contains(CommandView::ResetElectionTimer) ==> after.election_deadline
                == before.election_deadline
            &&& commands.contains(CommandView::ResetHeartbeatTimer) ==> after.heartbeat_deadline.nanos
                == now.nanos + config.heartbeat_interval.nanos
            &&& !commands.contains(CommandView::ResetHeartbeatTimer) ==> after.heartbeat_deadline
                == before.heartbeat_deadline
            &&& after.seen.nanos >= now.nanos
            &&& after.seen.nanos >= before.seen.nanos
            &&& after.seen == now || after.seen == before.seen
        }),
{
    let millis = (config.election_timeout.nanos / 1_000_000) as int;
    assert(millis * 1_000_000 <= config.election_timeout.nanos);
    assert(jitter_ms * 1_000_000 < millis * 1_000_000) by (nonlinear_arith)
        requires
            jitter_ms < millis,
    ;
}

/// A runtime that has just been put together waits between one and two election timeouts before it
/// stands for election, and one interval before a heartbeat.
pub proof fn law_first_deadlines<C, S>(
    node: NodeView<C>,
    stored: StoredView<C>,
    state: S,
    config: TimerConfig,
    now: Instant,
    jitter_ms: u64,
)
    requires
        jitter_ms < config.election_timeout.nanos / 1_000_000,
        now.nanos <= u128::MAX / 2,
    ensures
        ({
            let fresh = RuntimeView::assembled(node, stored, state, config, now, jitter_ms);
            &&& now.nanos + config.election_timeout.nanos <= fresh.election_deadline.nanos
            &&& fresh.election_deadline.nanos < now.nanos + 2 * config.election_timeout.nanos
            &&& fresh.election_deadline.nanos == now.nanos + config.election_timeout.nanos
                + jitter_ms * 1_000_000
            &&& fresh.heartbeat_deadline.nanos == now.nanos + config.heartbeat_interval.nanos
            &&& fresh.node == node
            &&& fresh.stored == stored
            &&& fresh.state == state
            &&& !fresh.stepped_down
            &&& fresh.seen == now
        }),
{
    let millis = (config.election_timeout.nanos / 1_000_000) as int;
    assert(millis * 1_000_000 <= config.election_timeout.nanos);
    assert(jitter_ms * 1_000_000 < millis * 1_000_000) by (nonlinear_arith)
        requires
            jitter_ms < millis,
    ;
}

/// Whether an event that was handled was handled without a failure.
pub open spec fn succeeds<Cmd: Clone + View, S: StateMachine<Cmd>, St: Storage<Cmd>>(
    before: Runtime<Cmd, S, St>,
    event: EventView<Cmd::V>,
    now: Instant,
    jitter_ms: u64,
    sent: Vec<Command<Cmd>>,
    after: Runtime<Cmd, S, St>,
) -> bool {
    runtime::handled(before, event, now, jitter_ms, Ok(sent), after)
}

/// After every event that is handled, fewer entries are applied above the snapshot boundary than the
/// policy's threshold, whatever else is in the log. Where as many were, the log is compacted through
/// the last of them, and the snapshot is in storage. Where fewer were, or there is no threshold, the log
/// is left as the node made it.
pub proof fn law_log_is_compacted_exactly_when_due<
    Cmd: Clone + View,
    S: StateMachine<Cmd>,
    St: Storage<Cmd>,
>(
    before: Runtime<Cmd, S, St>,
    event: EventView<Cmd::V>,
    now: Instant,
    jitter_ms: u64,
    sent: Vec<Command<Cmd>>,
    after: Runtime<Cmd, S, St>,
)
    requires
        succeeds(before, event, now, jitter_ms, sent, after),
    ensures
        ({
            let log = event.step(before@.node).0.persistent.log;
            let left = after@.node.persistent.log;
            let applied = after@.node.applied.value;
            match before.policy().compact_threshold {
                None => left == log,
                Some(threshold) => {
                    &&& threshold@ > 0 ==> applied - left.boundary < threshold@
                    &&& threshold@ > 0 && applied - log.boundary >= threshold@ ==> {
                        &&& left.boundary == applied
                        &&& after@.stored.snapshot matches Some(snapshot) && snapshot.last_index
                            == applied && S::decoded(snapshot.data) == Some(after@.state)
                    }
                    &&& applied - log.boundary < threshold@ ==> left == log
                },
            }
        }),
{
    let stepped = before@.stepped(event, before.timer_config(), now, jitter_ms);
    assert(runtime::carried_through(before, stepped, after));
    let (restored, saved) = choose|restored: S::State, saved: St|
        #![trigger runtime::is_restored::<Cmd, S>(stepped.node.to_restore, stepped.state, restored), saved.stored()]
        runtime::is_restored::<Cmd, S>(stepped.node.to_restore, stepped.state, restored)
            && runtime::finished::<Cmd, S>(before.policy(), stepped, restored, after@);
    let base = stepped.saved().restored(restored);
    runtime::lemma_take_all(base.node);
}

/// When an event has been handled, storage holds the term, the vote, the snapshot, and the log of the
/// node, provided that what the node had on record completes what was stored. So nothing is sent that a
/// crash could make the node forget.
pub proof fn law_handled_event_is_durable<
    Cmd: Clone + View,
    S: StateMachine<Cmd>,
    St: Storage<Cmd>,
>(
    before: Runtime<Cmd, S, St>,
    event: EventView<Cmd::V>,
    now: Instant,
    jitter_ms: u64,
    sent: Vec<Command<Cmd>>,
    after: Runtime<Cmd, S, St>,
)
    requires
        succeeds(before, event, now, jitter_ms, sent, after),
        event.step(before@.node).0.persistent.in_sync(before@.stored),
    ensures
        after@.stored.term == after@.node.persistent.term,
        after@.stored.voted_for == after@.node.persistent.voted_for,
        after@.stored.snapshot == after@.node.persistent.latest_snapshot,
        after@.stored.log == after@.node.persistent.log,
        !after@.node.persistent.meta_dirty,
        after@.node.persistent.pending_install is None,
        after@.node.persistent.truncated_from is None,
        after@.node.persistent.pending_append.len() == 0,
        after@.node.to_restore is None,
{
    let stepped = before@.stepped(event, before.timer_config(), now, jitter_ms);
    assert(runtime::carried_through(before, stepped, after));
    let (restored, saved) = choose|restored: S::State, saved: St|
        #![trigger runtime::is_restored::<Cmd, S>(stepped.node.to_restore, stepped.state, restored), saved.stored()]
        runtime::is_restored::<Cmd, S>(stepped.node.to_restore, stepped.state, restored)
            && runtime::finished::<Cmd, S>(before.policy(), stepped, restored, after@);
    let base = stepped.saved().restored(restored);
    runtime::lemma_take_all(base.node);
    let applied = runtime::applied_view::<Cmd, S>(base);
    persistent::law_saved_state_is_in_sync(stepped.node.persistent, stepped.stored);
    if before.policy().is_due(applied.node) {
        let data = choose|data: Seq<u8>|
            S::decoded(data) == Some(applied.state) && after@ == #[trigger] applied.compacted(data);
        persistent::law_retain_stays_in_sync(
            applied.node.persistent,
            applied.stored,
            applied.node.snapshot_of(data),
        );
        let compacted = applied.node.compact_to_snapshot(data);
        assert(compacted.persistent == applied.node.persistent.install_snapshot(
            applied.node.snapshot_of(data),
            SuffixDisposition::Retain,
        ));
        persistent::law_saved_state_is_in_sync(compacted.persistent, applied.stored);
    }
}

/// The state machine of a runtime that has handled an event holds what applying the newly committed
/// commands, one after another, to what it held before gives, or to the snapshot that came in its place.
pub proof fn law_committed_commands_reach_the_state_machine<
    Cmd: Clone + View,
    S: StateMachine<Cmd>,
    St: Storage<Cmd>,
>(
    before: Runtime<Cmd, S, St>,
    event: EventView<Cmd::V>,
    now: Instant,
    jitter_ms: u64,
    sent: Vec<Command<Cmd>>,
    after: Runtime<Cmd, S, St>,
)
    requires
        succeeds(before, event, now, jitter_ms, sent, after),
    ensures
        ({
            let node = event.step(before@.node).0;
            exists|start: S::State| #[trigger]
                starts_from::<Cmd, S>(before@, node, start) && {
                    let entries = runtime::take_all(
                        NodeView { persistent: node.persistent.cleared(4), to_restore: None, ..node },
                    ).1;
                    &&& after@.state == state_machine::state_after::<Cmd, S>(
                        start,
                        runtime::commands_of(entries),
                    )
                    &&& after.outputs().len() == before.outputs().len() + entries.len()
                    &&& forall|i: int|
                        0 <= i < before.outputs().len() ==> #[trigger] after.outputs()[i]
                            == before.outputs()[i]
                    &&& forall|i: int|
                        #![trigger entries[i]]
                        0 <= i < entries.len() ==> {
                            let output = after.outputs()[before.outputs().len() + i];
                            &&& output.0 == entries[i].term
                            &&& output.1 == entries[i].index
                            &&& S::answers(
                                state_machine::state_after::<Cmd, S>(
                                    start,
                                    runtime::commands_of(entries.take(i)),
                                ),
                                entries[i].command,
                                output.2,
                            )
                        }
                }
        }),
{
    let stepped = before@.stepped(event, before.timer_config(), now, jitter_ms);
    assert(runtime::carried_through(before, stepped, after));
    let (restored, saved) = choose|restored: S::State, saved: St|
        #![trigger runtime::is_restored::<Cmd, S>(stepped.node.to_restore, stepped.state, restored), saved.stored()]
        runtime::is_restored::<Cmd, S>(stepped.node.to_restore, stepped.state, restored)
            && runtime::puts_out(before, stepped, restored, after)
            && runtime::finished::<Cmd, S>(before.policy(), stepped, restored, after@);
    let node = event.step(before@.node).0;
    assert(starts_from::<Cmd, S>(before@, node, restored));
    let entries = runtime::take_all(stepped.saved().restored(restored).node).1;
    let n = before.outputs().len() as int;
    assert forall|i: int| 0 <= i < n implies #[trigger] after.outputs()[i] == before.outputs()[i] by {
        assert(after.outputs().take(n)[i] == after.outputs()[i]);
    }
    assert forall|i: int| #![trigger entries[i]] 0 <= i < entries.len() implies {
        let output = after.outputs()[n + i];
        &&& output.0 == entries[i].term
        &&& output.1 == entries[i].index
        &&& S::answers(
            state_machine::state_after::<Cmd, S>(
                restored,
                runtime::commands_of(entries.take(i)),
            ),
            entries[i].command,
            output.2,
        )
    } by {
        assert(after.outputs().skip(n)[i] == after.outputs()[n + i]);
    }
}

/// Whether the state machine is in `start` before newly committed commands are applied: as it was, or
/// as a snapshot has it that the node took over.
pub open spec fn starts_from<Cmd: View, S: StateMachine<Cmd>>(
    before: RuntimeView<Cmd::V, S::State>,
    node: NodeView<Cmd::V>,
    start: S::State,
) -> bool {
    match node.to_restore {
        Some(snapshot) => S::decoded(snapshot.data) == Some(start),
        None => start == before.state,
    }
}

/// Applying commands is applying them one by one.
pub proof fn law_commands_are_applied_one_by_one<Cmd: View, S: StateMachine<Cmd>>(
    state: S::State,
    commands: Seq<Cmd::V>,
    command: Cmd::V,
)
    ensures
        state_machine::state_after::<Cmd, S>(state, Seq::empty()) == state,
        state_machine::state_after::<Cmd, S>(state, commands.push(command)) == S::next_state(
            state_machine::state_after::<Cmd, S>(state, commands),
            command,
        ),
{
    assert(commands.push(command).drop_last() =~= commands);
}

/// A server whose timeout has not fired waits for a message until the next deadline, and no longer than
/// it is told to. It handles a timeout that has fired before it waits again.
pub proof fn law_server_waits_no_longer_than_the_deadline<Cmd: View, S>(
    runtime: RuntimeView<Cmd::V, S>,
    now: Instant,
    later: Instant,
    limit_nanos: u64,
    turn: Turn<Cmd>,
)
    requires
        server::is_turn(runtime, now, later, limit_nanos, turn),
    ensures
        ({
            let deadline = if runtime.node.role is Leader {
                runtime.heartbeat_deadline.nanos
            } else {
                runtime.election_deadline.nanos
            };
            &&& turn is Handle <==> now.nanos >= deadline
            &&& turn matches Turn::Handle(event) ==> event@ == if runtime.node.role is Leader {
                EventView::<Cmd::V>::HeartbeatTimeout
            } else {
                EventView::ElectionTimeout
            }
            &&& turn matches Turn::Wait(nanos) ==> {
                &&& nanos <= limit_nanos
                &&& nanos < limit_nanos ==> later.nanos + nanos == deadline || (nanos == 0
                    && later.nanos >= deadline)
                &&& later.nanos < deadline ==> later.nanos + nanos <= deadline
                &&& later.nanos >= deadline ==> nanos == 0
            }
        }),
{
}

/// A node that has stepped down tells every client that waits that it is not the leader, and who is as
/// far as it knows. Nobody waits any more. The membership callers are told too.
pub proof fn law_stepping_down_leaves_nobody_waiting<
    Cmd: Clone + View,
    SM: StateMachine<Cmd>,
    St: Storage<Cmd>,
>(before: Server<Cmd, SM, St>, replies: Replies<SM::Output>, after: Server<Cmd, SM, St>)
    requires
        server::settled(before, replies, after),
        before.inner()@.stepped_down,
    ensures
        ({
            let hint = match before.inner()@.node.role {
                RoleView::Follower(leader) => leader,
                _ => None,
            };
            &&& replies.clients@.len() == before.waiting().len()
            &&& forall|i: int|
                0 <= i < before.waiting().len() ==> #[trigger] replies.clients@[i] == (
                    before.waiting()[i].2,
                    ApiResponse::<SM::Output>::NotLeader { leader_hint: hint },
                )
            &&& after.waiting().len() == 0
            &&& after.waiting_members().len() == 0
            &&& !after.inner()@.stepped_down
        }),
{
}

/// A membership caller whose entry has committed is told that its change committed exactly where what
/// committed is what it asked for.
pub proof fn law_committed_means_what_was_asked_for(expected: Members, committed: Members)
    ensures
        server::membership_outcome(expected, committed) == MembershipResult::Committed
            <==> expected == committed,
        server::membership_outcome(expected, committed) == MembershipResult::Indeterminate
            <==> expected != committed,
{
}

/// Everybody in doubt is told so, by the ticket they are known by.
pub proof fn law_refusals_go_to_whoever_waits<O>(
    waiting: Seq<Waiting<Ticket>>,
    members: Seq<Waiting<MembershipWaiter>>,
    hint: Option<NodeId>,
)
    ensures
        server::refuse_clients::<O>(waiting, hint).len() == waiting.len(),
        forall|i: int|
            0 <= i < waiting.len() ==> #[trigger] server::refuse_clients::<O>(waiting, hint)[i] == (
                waiting[i].2,
                ApiResponse::<O>::NotLeader { leader_hint: hint },
            ),
        server::refuse_members(members).len() == members.len(),
        forall|i: int|
            0 <= i < members.len() ==> #[trigger] server::refuse_members(members)[i] == (
                members[i].2@.1,
                MembershipResult::Indeterminate,
            ),
{
}

/// A client is sent to the leader that this node follows, if it knows one; a candidate and a leader
/// know of none.
pub proof fn law_hint_names_the_leader_followed<C>(node: NodeView<C>)
    ensures
        node.leader_hint() == match node.role {
            RoleView::Follower(leader) => leader,
            RoleView::Candidate(_) => None,
            RoleView::Leader(_) => None,
        },
{
}

/// There is room for a message unless taking it up would lead past the last index. A message that is
/// turned down, or brings what is known, always has room.
pub proof fn law_room_is_asked_for_what_is_taken_up<C>(node: NodeView<C>, message: MessageView<C>)
    ensures
        message matches MessageView::AppendEntries(m) ==> {
            &&& m.term.value < node.persistent.term.value ==> node.has_room_for(message)
            &&& m.prev_log_index.value + m.entries.len() < u64::MAX ==> node.has_room_for(message)
        },
        message matches MessageView::InstallSnapshot(m) ==> (m.snapshot.last_index < u64::MAX
            ==> node.has_room_for(message)),
        !(message is AppendEntries) && !(message is InstallSnapshot) ==> node.has_room_for(message),
{
}

/// A node that has not stepped down answers exactly the clients whose commands have been applied, each
/// with the output of its own command, and keeps the others waiting. Whether it has stepped down or not,
/// every membership caller whose change has committed is told what became of it.
pub proof fn law_whoever_waited_for_what_happened_is_answered<
    Cmd: Clone + View,
    SM: StateMachine<Cmd>,
    St: Storage<Cmd>,
>(before: Server<Cmd, SM, St>, replies: Replies<SM::Output>, after: Server<Cmd, SM, St>)
    requires
        server::settled(before, replies, after),
        before.wf(),
    ensures
        ({
            let outputs = before.inner().outputs();
            let committed = before.inner()@.node.committed_configs;
            &&& !before.inner()@.stepped_down ==> {
                &&& replies.clients@.len() + after.waiting().len() == before.waiting().len()
                &&& forall|w: Waiting<Ticket>| #[trigger]
                    after.waiting().contains(w) <==> before.waiting().contains(w) && forall|i: int|
                        0 <= i < outputs.len() ==> !((#[trigger] outputs[i]).0 == w.0
                            && outputs[i].1 == w.1)
                &&& forall|w: Waiting<Ticket>|
                    #![trigger before.waiting().contains(w)]
                    before.waiting().contains(w) && !after.waiting().contains(w) ==> exists|
                        j: int,
                        i: int,
                    | #[trigger]
                        server::is_answer(replies.clients@, j, w.2, outputs, i) && outputs[i].0
                            == w.0 && outputs[i].1 == w.1
                &&& replies.members@.len() + after.waiting_members().len()
                    == before.waiting_members().len()
                &&& forall|w: Waiting<MembershipWaiter>| #[trigger]
                    after.waiting_members().contains(w) <==> before.waiting_members().contains(w)
                        && forall|i: int|
                        0 <= i < committed.len() ==> !((#[trigger] committed[i]).0 == w.0
                            && committed[i].1 == w.1)
            }
            &&& forall|w: Waiting<MembershipWaiter>, k: int|
                #![trigger before.waiting_members().contains(w), committed[k]]
                before.waiting_members().contains(w) && 0 <= k < committed.len() && committed[k].0
                    == w.0 && committed[k].1 == w.1 ==> exists|j: int, i: int| #[trigger]
                    server::is_outcome(replies.members@, j, w.2@, committed, i) && committed[i].0
                        == w.0 && committed[i].1 == w.1
        }),
{
    let outputs = before.inner().outputs();
    let committed = before.inner()@.node.committed_configs;
    server::law_clients_of_applied_entries_are_answered(before.waiting(), outputs);
    server::law_callers_of_committed_changes_are_answered(before.waiting_members(), committed);
    let (still, changed) = server::answer_members(before.waiting_members(), committed);
    if !before.inner()@.stepped_down {
        assert(changed + Seq::<(Ticket, MembershipResult)>::empty() =~= changed);
    }
    assert forall|w: Waiting<MembershipWaiter>, k: int|
        #![trigger before.waiting_members().contains(w), committed[k]]
        before.waiting_members().contains(w) && 0 <= k < committed.len() && committed[k].0 == w.0
            && committed[k].1 == w.1 implies exists|j: int, i: int| #[trigger]
        server::is_outcome(replies.members@, j, w.2@, committed, i) && committed[i].0 == w.0
            && committed[i].1 == w.1 by {
        assert(!still.contains(w));
        let (j, i) = choose|j: int, i: int| #[trigger]
            server::is_outcome(changed, j, w.2@, committed, i) && committed[i].0 == w.0
                && committed[i].1 == w.1;
        assert(replies.members@[j] == changed[j]);
        assert(server::is_outcome(replies.members@, j, w.2@, committed, i));
    }
}

/// Whom an answer goes to, and what it says.
pub proof fn law_answers_say_what_happened<O>(
    answered: Seq<(Ticket, ApiResponse<O>)>,
    told: Seq<(Ticket, MembershipResult)>,
    j: int,
    ticket: Ticket,
    expected: Members,
    outputs: Seq<(Term, LogIndex, O)>,
    committed: Seq<(Term, LogIndex, Members)>,
    i: int,
)
    ensures
        server::is_answer(answered, j, ticket, outputs, i) ==> {
            &&& answered[j].0 == ticket
            &&& answered[j].1 == ApiResponse::Result(outputs[i].2)
        },
        server::is_outcome(told, j, (expected, ticket), committed, i) ==> {
            &&& told[j].0 == ticket
            &&& told[j].1 == MembershipResult::Committed <==> committed[i].2 == expected
        },
{
}

/// Whether `e` is what a write to storage came back with, which left it as `after`.
pub open spec fn came_from_storage<Cmd: Clone + View, St: Storage<Cmd>>(
    e: St::Error,
    after: St,
) -> bool {
    exists|mid: St, call: StorageCallOf<Cmd>| #[trigger] mid.may_answer(call, Err(e), after)
}

/// A failure is reported as what it was: one of storage is the error that a write came back with, and
/// one of the state machine is its refusal of a snapshot that it was to be replaced by, or its failure
/// to take one that was due.
pub proof fn law_failures_are_reported_as_what_they_were<
    Cmd: Clone + View,
    S: StateMachine<Cmd>,
    St: Storage<Cmd>,
>(
    before: Runtime<Cmd, S, St>,
    event: EventView<Cmd::V>,
    now: Instant,
    jitter_ms: u64,
    error: RuntimeError<St::Error, S::SnapshotError>,
    after: Runtime<Cmd, S, St>,
)
    requires
        runtime::handled(before, event, now, jitter_ms, Err(error), after),
    ensures
        error matches RuntimeError::Storage(e) ==> came_from_storage::<Cmd, St>(e, after.storage()),
        error matches RuntimeError::StateMachine(e) ==> {
            ||| call_ensures(S::snapshot, (&after.machine(),), Err(e))
            ||| event.step(before@.node).0.to_restore matches Some(snapshot) && S::decoded(
                snapshot.data,
            ) is None && S::refuses(snapshot.data, e)
        },
{
    let stepped = before@.stepped(event, before.timer_config(), now, jitter_ms);
    if let RuntimeError::Storage(e) = error {
        if persistent::save_failed::<Cmd, St>(
            stepped.node.persistent,
            before.storage(),
            e,
            after@.node.persistent,
            after.storage(),
        ) {
            lemma_came_from_storage::<Cmd, St>(
                stepped.node.persistent,
                before.storage(),
                e,
                after@.node.persistent,
                after.storage(),
            );
        } else {
            let (restored, saved) = choose|restored: S::State, saved: St|
                #![trigger runtime::is_restored::<Cmd, S>(stepped.node.to_restore, stepped.state, restored), saved.stored()]
                {
                    let applied = runtime::applied_view::<Cmd, S>(
                        stepped.saved().restored(restored),
                    );
                    &&& runtime::is_restored::<Cmd, S>(
                        stepped.node.to_restore,
                        stepped.state,
                        restored,
                    )
                    &&& runtime::compaction_failed(applied, saved, e, after)
                };
            let applied = runtime::applied_view::<Cmd, S>(stepped.saved().restored(restored));
            let data = choose|data: SnapshotData|
                #![trigger data@]
                persistent::save_failed::<Cmd, St>(
                    applied.node.compact_to_snapshot(data@).persistent,
                    saved,
                    e,
                    after@.node.persistent,
                    after.storage(),
                );
            lemma_came_from_storage::<Cmd, St>(
                applied.node.compact_to_snapshot(data@).persistent,
                saved,
                e,
                after@.node.persistent,
                after.storage(),
            );
        }
    }
}

proof fn lemma_came_from_storage<Cmd: Clone + View, St: Storage<Cmd>>(
    state: PersistentView<Cmd::V>,
    before: St,
    e: St::Error,
    left: PersistentView<Cmd::V>,
    after: St,
)
    requires
        persistent::save_failed::<Cmd, St>(state, before, e, left, after),
    ensures
        came_from_storage::<Cmd, St>(e, after),
{
    persistent::law_failed_save_keeps_what_was_not_written::<Cmd, St>(state, before, e, left, after);
}

} // verus!
