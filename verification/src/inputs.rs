//! Everything a node can be told, and what follows from that alone.
use vstd::prelude::*;

use crate::command::CommandView;
use crate::model::AppliedView;
use crate::model::NodeView;
use crate::model::RoleView;
use crate::node::SubmitError;
use crate::persistent;
use crate::persistent::PersistentView;
use crate::storage::StoredView;
use crate::types::config::Members;
use crate::types::log::EntryView;
use crate::types::log::PayloadView;
use crate::types::message::AppendEntriesResponse;
use crate::types::message::AppendEntriesView;
use crate::types::message::InstallSnapshotResponse;
use crate::types::message::InstallSnapshotView;
use crate::types::message::MessageView;
use crate::types::primitives;
use crate::types::primitives::LogIndex;
use crate::types::primitives::NodeId;
use crate::types::primitives::Term;
use crate::types::snapshot::SnapshotView;

verus! {

/// Something a node is told, with everything it is handed.
pub enum Input<C> {
    ElectionTimeout,
    HeartbeatTimeout,
    Message { from: NodeId, message: MessageView<C> },
    Submit { command: C },
    Propose { config: Members },
    SetConfig { config: Members },
    Compact { data: Seq<u8> },
    /// The record was replayed to storage, which took so many of its four kinds.
    Save { steps: nat },
    TakeEntryToApply,
    TakeConfigChanges,
    TakeCommittedConfigChanges,
    TakeSnapshotToRestore,
}

/// What a node answers.
pub enum Answer<C> {
    Nothing,
    Commands(Seq<CommandView<C>>),
    Submitted(Result<LogIndex, Option<NodeId>>),
    Proposed(Result<LogIndex, SubmitError>),
    Compacted(Option<SnapshotView>),
    Entry(Option<AppliedView<C>>),
    ConfigChanges(Seq<Members>),
    CommittedConfigChanges(Seq<(Term, LogIndex, Members)>),
    Snapshot(Option<SnapshotView>),
}

/// The index that the next entry of a log gets.
pub open spec fn next_index<C>(node: NodeView<C>) -> LogIndex {
    LogIndex { value: (node.log().last_index() + 1) as u64 }
}

/// What a node does when it is told something, and what it answers.
pub open spec fn respond<C>(node: NodeView<C>, input: Input<C>) -> (NodeView<C>, Answer<C>) {
    match input {
        Input::ElectionTimeout => {
            let (after, commands) = node.election_timeout();
            (after, Answer::Commands(commands))
        },
        Input::HeartbeatTimeout => {
            let (after, commands) = node.heartbeat_timeout();
            (after, Answer::Commands(commands))
        },
        Input::Message { from, message } => {
            let (after, commands) = node.handle_message(from, message);
            (after, Answer::Commands(commands))
        },
        Input::Submit { command } => if node.role is Leader {
            (node.submit_command(command), Answer::Submitted(Ok(next_index(node))))
        } else {
            (node, Answer::Submitted(Err(node.leader_hint())))
        },
        Input::Propose { config } => if !(node.role is Leader) {
            (
                node,
                Answer::Proposed(Err(SubmitError::NotLeader { leader_hint: node.leader_hint() })),
            )
        } else if node.has_pending_config_change() {
            (node, Answer::Proposed(Err(SubmitError::ConfigChangePending)))
        } else {
            (node.propose_config_change(config), Answer::Proposed(Ok(next_index(node))))
        },
        Input::SetConfig { config } => (node.set_config(config), Answer::Nothing),
        Input::Compact { data } => if node.applied.value <= node.log().boundary {
            (node, Answer::Compacted(None))
        } else {
            (node.compact_to_snapshot(data), Answer::Compacted(Some(node.snapshot_of(data))))
        },
        Input::Save { steps } => (
            NodeView { persistent: node.persistent.cleared(steps), ..node },
            Answer::Nothing,
        ),
        Input::TakeEntryToApply => {
            let (after, entry) = node.take_entry_to_apply();
            (after, Answer::Entry(entry))
        },
        Input::TakeConfigChanges => (
            NodeView { config_changes: Seq::empty(), ..node },
            Answer::ConfigChanges(node.config_changes),
        ),
        Input::TakeCommittedConfigChanges => (
            NodeView { committed_configs: Seq::empty(), ..node },
            Answer::CommittedConfigChanges(node.committed_configs),
        ),
        Input::TakeSnapshotToRestore => (
            NodeView { to_restore: None, ..node },
            Answer::Snapshot(node.to_restore),
        ),
    }
}

/// Whether a node that starts in `start` and is told `inputs`, one after another, goes through
/// `states` and answers with `answers`.
pub open spec fn is_run<C>(
    start: NodeView<C>,
    inputs: Seq<Input<C>>,
    states: Seq<NodeView<C>>,
    answers: Seq<Answer<C>>,
) -> bool {
    &&& states.len() == inputs.len() + 1
    &&& answers.len() == inputs.len()
    &&& states[0] == start
    &&& forall|i: int|
        #![trigger answers[i]]
        0 <= i < inputs.len() ==> respond(states[i], inputs[i]) == (states[i + 1], answers[i])
}

/// Every decision of a node follows from the sequence of its inputs: two nodes that start alike and
/// are told the same go through the same states and answer the same.
pub proof fn law_decisions_follow_from_the_inputs<C>(
    start: NodeView<C>,
    inputs: Seq<Input<C>>,
    states: Seq<NodeView<C>>,
    answers: Seq<Answer<C>>,
    other_states: Seq<NodeView<C>>,
    other_answers: Seq<Answer<C>>,
)
    requires
        is_run(start, inputs, states, answers),
        is_run(start, inputs, other_states, other_answers),
    ensures
        states == other_states,
        answers == other_answers,
{
    lemma_same_states(start, inputs, states, answers, other_states, other_answers, inputs.len());
    assert forall|i: int| 0 <= i < answers.len() implies answers[i] == other_answers[i] by {
        assert(states[i] == other_states[i]);
    }
    assert(states =~= other_states);
    assert(answers =~= other_answers);
}

proof fn lemma_same_states<C>(
    start: NodeView<C>,
    inputs: Seq<Input<C>>,
    states: Seq<NodeView<C>>,
    answers: Seq<Answer<C>>,
    other_states: Seq<NodeView<C>>,
    other_answers: Seq<Answer<C>>,
    count: nat,
)
    requires
        is_run(start, inputs, states, answers),
        is_run(start, inputs, other_states, other_answers),
        count <= inputs.len(),
    ensures
        forall|i: int| 0 <= i <= count ==> #[trigger] states[i] == other_states[i],
    decreases count,
{
    if count > 0 {
        let last = count - 1;
        lemma_same_states(
            start,
            inputs,
            states,
            answers,
            other_states,
            other_answers,
            last as nat,
        );
        assert(states[last] == other_states[last]);
        assert(respond(states[last], inputs[last]) == (states[last + 1], answers[last]));
        assert(respond(other_states[last], inputs[last]) == (
            other_states[last + 1],
            other_answers[last],
        ));
    }
}

/// Whether every index that a node may come to by this input fits.
pub open spec fn fits<C>(node: NodeView<C>, input: Input<C>) -> bool {
    &&& node.log().last_index() <= u64::MAX
    &&& input matches Input::Message { message, .. } ==> node.has_room_for(message)
}

/// What a node has to remember of an input survives a restart: where storage held exactly the
/// state of the node, and the node is then told one thing and saved, loading gives back the
/// node's term, vote, log, and snapshot.
///
/// That includes a conflict that overwrites entries without changing the length of the log, one that
/// also makes it longer, and an append above a compacted prefix.
pub proof fn law_saved_input_is_loaded<C>(node: NodeView<C>, stored: StoredView<C>, input: Input<C>)
    requires
        node.persistent.mirrored_by(stored),
        node.persistent.is_clean(),
        node.persistent.consistent(),
        fits(node, input),
    ensures
        ({
            let after = respond(node, input).0.persistent;
            let loaded = PersistentView::restored(after.replay(stored));
            &&& loaded == after.cleared(4)
            &&& loaded.term == after.term
            &&& loaded.voted_for == after.voted_for
            &&& loaded.log == after.log
            &&& loaded.latest_snapshot == after.latest_snapshot
        }),
{
    lemma_saved(node.persistent, stored);
    let after = respond(node, input).0;
    let state = node.persistent;
    match input {
        Input::ElectionTimeout => {
            if !(node.role is Leader) {
                lemma_election(node, stored);
            }
        },
        Input::HeartbeatTimeout => {},
        Input::Message { from, message } => lemma_message(node, stored, from, message),
        Input::Submit { command } => {
            let entry = EntryView {
                term: node.term().value as nat,
                payload: PayloadView::Command(command),
            };
            persistent::law_append_stays_in_sync(state, stored, entry);
            lemma_volatile(node.propose(PayloadView::Command(command)));
        },
        Input::Propose { config } => {
            let entry = EntryView {
                term: node.term().value as nat,
                payload: PayloadView::ConfigChange(config),
            };
            persistent::law_append_stays_in_sync(state, stored, entry);
            assert(node.propose_config_change(config).persistent == state.append_entry(entry));
        },
        Input::SetConfig { config } => {
            assert(node.set_config(config).persistent == state);
        },
        Input::Compact { data } => {
            persistent::law_retain_stays_in_sync(state, stored, node.snapshot_of(data));
        },
        Input::Save { steps } => {
            assert(after.persistent =~= state);
        },
        Input::TakeEntryToApply => {
            lemma_taking_keeps_persistent(node);
        },
        _ => {},
    }
    persistent::law_load_gives_back_what_was_saved(after.persistent, stored);
}

/// A state that storage mirrors needs no replay.
proof fn lemma_saved<C>(state: PersistentView<C>, stored: StoredView<C>)
    requires
        state.mirrored_by(stored),
        state.is_clean(),
    ensures
        state.replay(stored) == stored,
        state.in_sync(stored),
        state.meta_dirty == false,
        state.pending_install is None,
        state.truncated_from is None,
        state.pending_append.len() == 0,
{
}

/// Neither committing nor adopting a membership changes anything that is stored.
proof fn lemma_volatile<C>(node: NodeView<C>)
    ensures
        node.advance_commit().persistent == node.persistent,
        node.adopt_latest_config().persistent == node.persistent,
{
}

proof fn lemma_taking_keeps_persistent<C>(node: NodeView<C>)
    ensures
        node.take_entry_to_apply().0.persistent == node.persistent,
    decreases node.commit.value - node.applied.value,
{
    if node.applied.value < node.commit.value {
        let index = LogIndex { value: (node.applied.value + 1) as u64 };
        let next = NodeView { applied: index, ..node };
        if node.log().retains(index.value as int) {
            let entry = node.log().at(index.value as int);
            match entry.payload {
                PayloadView::NoOp => lemma_taking_keeps_persistent(next),
                PayloadView::ConfigChange(config) => lemma_taking_keeps_persistent(
                    NodeView {
                        committed_configs: node.committed_configs.push(
                            (Term { value: entry.term as u64 }, index, config),
                        ),
                        ..next
                    },
                ),
                PayloadView::Command(_) => {},
            }
        }
    }
}

proof fn lemma_election<C>(node: NodeView<C>, stored: StoredView<C>)
    requires
        node.persistent.in_sync(stored),
        node.persistent.consistent(),
    ensures
        node.start_election().0.persistent.in_sync(stored),
        node.start_election().0.persistent.consistent(),
{
    let state = node.persistent;
    let next = primitives::next_term(node.term());
    persistent::law_metadata_changes_stay_in_sync(state, stored, next, None);
    persistent::law_metadata_changes_stay_in_sync(
        state.set_term(next),
        stored,
        next,
        Some(node.id),
    );
    lemma_lead(node.stand(), stored);
}

proof fn lemma_lead<C>(node: NodeView<C>, stored: StoredView<C>)
    requires
        node.persistent.in_sync(stored),
        node.persistent.consistent(),
    ensures
        node.lead().persistent.in_sync(stored),
        node.lead().persistent.consistent(),
{
    let entry = EntryView { term: node.term().value as nat, payload: PayloadView::NoOp };
    persistent::law_append_stays_in_sync(node.persistent, stored, entry);
    assert(node.lead().persistent == node.persistent.append_entry(entry));
}

proof fn lemma_become_follower<C>(
    node: NodeView<C>,
    stored: StoredView<C>,
    term: Term,
    leader: Option<NodeId>,
)
    requires
        node.persistent.in_sync(stored),
        node.persistent.consistent(),
    ensures
        ({
            let after = node.become_follower(term, leader).persistent;
            &&& after.in_sync(stored)
            &&& after.consistent()
            &&& after.log == node.persistent.log
            &&& after.pending_install == node.persistent.pending_install
            &&& after.truncated_from == node.persistent.truncated_from
            &&& after.pending_append == node.persistent.pending_append
        }),
{
    persistent::law_metadata_changes_stay_in_sync(node.persistent, stored, term, None);
    persistent::law_metadata_changes_stay_in_sync(
        node.persistent.set_term(term),
        stored,
        term,
        None,
    );
}

proof fn lemma_message<C>(
    node: NodeView<C>,
    stored: StoredView<C>,
    from: NodeId,
    message: MessageView<C>,
)
    requires
        node.persistent.mirrored_by(stored),
        node.persistent.is_clean(),
        node.persistent.consistent(),
        node.log().last_index() <= u64::MAX,
        node.has_room_for(message),
    ensures
        node.handle_message(from, message).0.persistent.in_sync(stored),
        node.handle_message(from, message).0.persistent.consistent(),
{
    lemma_saved(node.persistent, stored);
    match message {
        MessageView::RequestVote(m) => {
            lemma_become_follower(node, stored, m.term, None);
            let voter = if m.term.value > node.term().value {
                node.become_follower(m.term, None)
            } else {
                node
            };
            persistent::law_metadata_changes_stay_in_sync(
                voter.persistent,
                stored,
                m.term,
                Some(m.candidate_id),
            );
        },
        MessageView::RequestVoteResponse(m) => {
            lemma_become_follower(node, stored, m.term, None);
            if let RoleView::Candidate(votes) = node.role {
                let counted = NodeView {
                    role: RoleView::Candidate(votes.insert(from)),
                    ..node
                };
                lemma_lead(counted, stored);
            }
            lemma_lead(node, stored);
        },
        MessageView::AppendEntries(m) => lemma_append_entries(node, stored, from, m),
        MessageView::AppendEntriesResponse(m) => {
            let term = match m {
                AppendEntriesResponse::Accepted { term, .. } => term,
                AppendEntriesResponse::Rejected { term } => term,
            };
            lemma_become_follower(node, stored, term, None);
        },
        MessageView::InstallSnapshot(m) => lemma_install_snapshot(node, stored, from, m),
        MessageView::InstallSnapshotResponse(m) => {
            let term = match m {
                InstallSnapshotResponse::Installed { term, .. } => term,
                InstallSnapshotResponse::Rejected { term } => term,
            };
            lemma_become_follower(node, stored, term, None);
        },
    }
}

proof fn lemma_append_entries<C>(
    node: NodeView<C>,
    stored: StoredView<C>,
    from: NodeId,
    req: AppendEntriesView<C>,
)
    requires
        node.persistent.mirrored_by(stored),
        node.persistent.is_clean(),
        node.persistent.consistent(),
        node.log().last_index() <= u64::MAX,
        node.has_room_for(MessageView::AppendEntries(req)),
    ensures
        node.handle_append_entries(from, req).0.persistent.in_sync(stored),
        node.handle_append_entries(from, req).0.persistent.consistent(),
{
    lemma_saved(node.persistent, stored);
    if req.term.value >= node.term().value {
        lemma_become_follower(node, stored, req.term, Some(req.leader_id));
        let follower = node.follow(req.term, req.leader_id);
        let prev = req.prev_log_index;
        if follower.log().matches(prev.value as int, req.prev_log_term.value as nat) {
            persistent::law_merge_stays_in_sync(
                follower.persistent,
                stored,
                prev.value as nat,
                req.entries,
            );
            let merged = NodeView {
                persistent: follower.persistent.merge_entries(prev.value as nat, req.entries),
                ..follower
            };
            lemma_volatile(merged);
        }
    }
}

proof fn lemma_install_snapshot<C>(
    node: NodeView<C>,
    stored: StoredView<C>,
    from: NodeId,
    req: InstallSnapshotView,
)
    requires
        node.persistent.mirrored_by(stored),
        node.persistent.is_clean(),
        node.persistent.consistent(),
    ensures
        node.handle_install_snapshot(from, req).0.persistent.in_sync(stored),
        node.handle_install_snapshot(from, req).0.persistent.consistent(),
{
    lemma_saved(node.persistent, stored);
    if req.term.value >= node.term().value {
        lemma_become_follower(node, stored, req.term, Some(req.leader_id));
        let follower = node.follow(req.term, req.leader_id);
        if req.snapshot.last_index > follower.commit.value {
            let disposition = follower.disposition_for(req.snapshot);
            persistent::law_discard_stays_in_sync(follower.persistent, stored, req.snapshot);
            persistent::law_retain_stays_in_sync(follower.persistent, stored, req.snapshot);
            let state = follower.persistent.install_snapshot(req.snapshot, disposition);
            let index = LogIndex { value: req.snapshot.last_index as u64 };
            lemma_volatile(
                NodeView { persistent: state, commit: index, applied: index, ..follower },
            );
            assert(follower.install_snapshot(req.snapshot).persistent == state);
        }
    }
}

} // verus!
