//! What a server has stored, and what it comes back with after a crash.
use vstd::prelude::*;

use super::handlers;
use super::protocol;
use super::protocol::World;
use super::refine;
use super::refine::Setting;
use super::steps;
use crate::model::NodeView;
use crate::persistent;
use crate::persistent::PersistentView;
use crate::runtime::EventView;
use crate::storage::StoredView;
use crate::types::config::Members;
use crate::types::log;
use crate::types::log::EntryView;
use crate::types::log::SuffixDisposition;
use crate::types::message::AppendEntriesResponse;
use crate::types::message::AppendEntriesView;
use crate::types::message::InstallSnapshotResponse;
use crate::types::message::InstallSnapshotView;
use crate::types::message::MessageView;
use crate::types::primitives;
use crate::types::primitives::LogIndex;
use crate::types::primitives::NodeId;
use crate::types::primitives::Term;
use crate::types::snapshot::SnapshotView;

verus! {

/// Whether storage holds what the protocol says a server has stored, and the rest is recorded as
/// entries to append. A lone member that has committed something it has not stored yet counts it as
/// stored.
pub open spec fn backed<C>(
    w: World<C>,
    id: NodeId,
    node: NodeView<C>,
    stored: StoredView<C>,
) -> bool {
    let p = w.peers[id];
    let state = node.persistent;
    let kept = stored.log.entries.len() as int;
    let written = stored.log.last_index();
    &&& stored.term == state.term
    &&& stored.voted_for == state.voted_for
    &&& stored.snapshot == state.latest_snapshot
    &&& stored.log.boundary == state.log.boundary
    &&& stored.log.boundary_term == state.log.boundary_term
    &&& written <= p.log.len()
    &&& stored.log.entries == state.log.entries.take(kept)
    &&& state.pending_append == state.log.entries.skip(kept)
    &&& !state.meta_dirty
    &&& state.pending_install is None
    &&& state.truncated_from is None
    &&& if w.elected(id) {
        &&& w.shown[p.term] <= written
        &&& p.durable == written || written < node.commit.value && written <= p.durable
    } else {
        p.durable == written && written == p.log.len()
    }
}

/// What is recorded completes what is stored.
pub proof fn lemma_backed_in_sync<C>(
    set: Setting<C>,
    w: World<C>,
    id: NodeId,
    node: NodeView<C>,
    stored: StoredView<C>,
)
    requires
        refine::placed(set, w, id, node),
        backed(w, id, node, stored),
    ensures
        node.persistent.in_sync(stored),
        node.persistent.durable_last(stored) == stored.log.last_index(),
{
    let p = w.peers[id];
    let state = node.persistent;
    refine::lemma_tail(state.log, p.log);
    assert(stored.log.extend(state.pending_append) =~= state.log);
    assert(state.replay(stored).log =~= state.log);
}

/// Once everything recorded is stored, storage holds what the server is.
pub proof fn lemma_saved_is_backed<C>(
    set: Setting<C>,
    w: World<C>,
    id: NodeId,
    node: NodeView<C>,
    stored: StoredView<C>,
)
    requires
        refine::ready(set, w, id, node),
        node.persistent.in_sync(stored),
    ensures
        ({
            let saved = NodeView { persistent: node.persistent.cleared(4), ..node };
            &&& refine::ready(set, w, id, saved)
            &&& backed(w, id, saved, node.persistent.replay(stored))
        }),
{
    let state = node.persistent;
    refine::lemma_tail(state.log, w.peers[id].log);
    let kept = state.log.entries.len() as int;
    assert(state.log.entries.take(kept) =~= state.log.entries);
    assert(state.log.entries.skip(kept) =~= Seq::<EntryView<C>>::empty());
}

// ---- What nobody else can have ----
/// What a leader has not shown, the leader of another term does not have.
pub proof fn lemma_unsaved_is_unknown<C>(w: World<C>, id: NodeId, t: nat, k: int)
    requires
        w.inv(),
        w.servers.contains(id),
        w.elected(id),
        w.led(t),
        t != w.peers[id].term,
        0 <= k < w.peers[id].log.len(),
        k < w.leader_logs[t].len(),
        w.peers[id].log[k].term == w.leader_logs[t][k].term,
    ensures
        k < w.shown[w.peers[id].term],
{
    let p = w.peers[id];
    protocol::lemma_peer(w, id);
    protocol::lemma_leader(w, p.term);
    protocol::lemma_leader(w, t);
    assert(w.grounded(w.leader_logs[t], k, t));
    if k >= w.shown[p.term] {
        protocol::lemma_agree_at(p.log, w.leader_logs[p.term], p.log.len(), k);
        assert(p.log[k].term == p.term);
    }
}

/// Entries from another leader never overwrite anything behind entries that are not stored.
pub proof fn lemma_conflict_is_stored<C>(
    set: Setting<C>,
    w: World<C>,
    id: NodeId,
    node: NodeView<C>,
    stored: StoredView<C>,
    from: NodeId,
    req: AppendEntriesView<C>,
)
    requires
        refine::placed(set, w, id, node),
        backed(w, id, node, stored),
        refine::heard(set, w, from, id, MessageView::AppendEntries(req)),
        req.term.value >= node.term().value,
        node.log().matches(req.prev_log_index.value as int, req.prev_log_term.value as nat),
    ensures
        node.log().conflict(req.prev_log_index.value as nat, req.entries) matches Some(index)
            ==> index <= stored.log.last_index() + 1,
        req.prev_log_index.value <= node.log().last_index(),
{
    let p = w.peers[id];
    let prev = req.prev_log_index.value as nat;
    refine::lemma_tail(node.log(), p.log);
    protocol::lemma_peer(w, id);
    if let Some(index) = node.log().conflict(prev, req.entries) {
        if w.elected(id) && index > stored.log.last_index() + 1 {
            let t = req.term.value as nat;
            let theirs = w.leader_logs[t];
            protocol::lemma_note(w, refine::append_note(req));
            protocol::lemma_leader(w, t);
            log::lemma_held(node.log(), prev, req.entries);
            let n = node.log().held(prev, req.entries);
            let k = prev + n - 1;
            if n > 0 {
                assert(node.log().holds(prev, req.entries, n - 1));
                assert(req.entries[n - 1] == theirs[k]);
                assert(node.log().at(k + 1) == p.log[k]);
            } else {
                assert(node.log().knows(prev as int));
            }
            lemma_unsaved_is_unknown(w, id, t, k);
        }
    }
}

/// Compacting behind a snapshot keeps the record complete where everything the snapshot covers is
/// stored.
proof fn lemma_retain_in_sync<C>(
    state: PersistentView<C>,
    stored: StoredView<C>,
    snapshot: SnapshotView,
)
    requires
        state.in_sync(stored),
        state.truncated_from is None,
        state.pending_install is None,
        state.log.boundary < snapshot.last_index <= stored.log.last_index(),
    ensures
        state.install_snapshot(snapshot, SuffixDisposition::Retain).in_sync(stored),
{
    let after = state.install_snapshot(snapshot, SuffixDisposition::Retain);
    assert(state.replay(stored).log =~= stored.log.extend(state.pending_append));
    let cut = stored.log.compact_through(snapshot.last_index, snapshot.last_term);
    assert(cut.extend(state.pending_append) =~= state.log.compact_through(
        snapshot.last_index,
        snapshot.last_term,
    ));
    assert(after.replay(stored).log =~= cut.extend(state.pending_append));
}

// ---- Events ----
/// Neither committing nor adopting a membership changes anything that is stored.
pub proof fn lemma_volatile<C>(node: NodeView<C>)
    ensures
        node.advance_commit().persistent == node.persistent,
        node.adopt_latest_config().persistent == node.persistent,
{
}

/// Learning of a higher term keeps the record complete.
proof fn lemma_become_follower_in_sync<C>(
    node: NodeView<C>,
    stored: StoredView<C>,
    term: Term,
    leader: Option<NodeId>,
)
    requires
        node.persistent.in_sync(stored),
    ensures
        node.become_follower(term, leader).persistent.in_sync(stored),
{
    persistent::law_metadata_changes_stay_in_sync(node.persistent, stored, term, None);
    persistent::law_metadata_changes_stay_in_sync(
        node.persistent.set_term(term),
        stored,
        term,
        None,
    );
}

/// Whether an event can reach a server.
pub open spec fn reaches<C>(
    set: Setting<C>,
    w: World<C>,
    id: NodeId,
    node: NodeView<C>,
    event: EventView<C>,
) -> bool {
    &&& node.log().last_index() < u64::MAX
    &&& event.fits(node)
    &&& match event {
        EventView::ElectionTimeout => {
            &&& node.term().value < u64::MAX
            &&& refine::informed(set, id, node)
            &&& node.config.dom().contains(id)
        },
        EventView::HeartbeatTimeout => true,
        EventView::Message { from, message } => refine::heard(set, w, from, id, message),
    }
}

/// Accepting or refusing entries keeps the record complete.
proof fn lemma_append_entries_in_sync<C>(
    set: Setting<C>,
    w: World<C>,
    id: NodeId,
    node: NodeView<C>,
    stored: StoredView<C>,
    from: NodeId,
    req: AppendEntriesView<C>,
)
    requires
        refine::placed(set, w, id, node),
        backed(w, id, node, stored),
        refine::heard(set, w, from, id, MessageView::AppendEntries(req)),
        node.has_room_for(MessageView::AppendEntries(req)),
    ensures
        node.handle_append_entries(from, req).0.persistent.in_sync(stored),
{
    lemma_backed_in_sync(set, w, id, node, stored);
    if req.term.value >= node.term().value {
        let follower = node.follow(req.term, req.leader_id);
        let prev = req.prev_log_index;
        lemma_become_follower_in_sync(node, stored, req.term, Some(req.leader_id));
        assert(follower.persistent.in_sync(stored));
        assert(follower.persistent.durable_last(stored) == stored.log.last_index());
        if follower.log().matches(prev.value as int, req.prev_log_term.value as nat) {
            lemma_conflict_is_stored(set, w, id, node, stored, from, req);
            persistent::law_merge_stays_in_sync(
                follower.persistent,
                stored,
                prev.value as nat,
                req.entries,
            );
            let merged = NodeView {
                persistent: follower.persistent.merge_entries(prev.value as nat, req.entries),
                ..follower
            };
            lemma_volatile(merged);
        }
    }
}

/// Installing or skipping a snapshot keeps the record complete.
proof fn lemma_install_snapshot_in_sync<C>(
    set: Setting<C>,
    w: World<C>,
    id: NodeId,
    node: NodeView<C>,
    stored: StoredView<C>,
    from: NodeId,
    req: InstallSnapshotView,
)
    requires
        refine::placed(set, w, id, node),
        backed(w, id, node, stored),
        refine::heard(set, w, from, id, MessageView::InstallSnapshot(req)),
    ensures
        node.handle_install_snapshot(from, req).0.persistent.in_sync(stored),
{
    let p = w.peers[id];
    lemma_backed_in_sync(set, w, id, node, stored);
    if req.term.value >= node.term().value {
        let follower = node.follow(req.term, req.leader_id);
        lemma_become_follower_in_sync(node, stored, req.term, Some(req.leader_id));
        assert(follower.persistent.in_sync(stored));
        let n = req.snapshot.last_index;
        if n > follower.commit.value {
            refine::lemma_tail(node.log(), p.log);
            protocol::lemma_peer(w, id);
            if follower.disposition_for(req.snapshot) == SuffixDisposition::Retain {
                let t = req.term.value as nat;
                protocol::lemma_note(w, refine::snap_note(req));
                protocol::lemma_leader(w, t);
                if w.elected(id) {
                    lemma_unsaved_is_unknown(w, id, t, n - 1);
                }
                lemma_retain_in_sync(follower.persistent, stored, req.snapshot);
            } else {
                persistent::law_discard_stays_in_sync(follower.persistent, stored, req.snapshot);
            }
            let after = follower.install_snapshot(req.snapshot);
            let disposition = follower.disposition_for(req.snapshot);
            let state = follower.persistent.install_snapshot(req.snapshot, disposition);
            let index = LogIndex { value: n as u64 };
            lemma_volatile(
                NodeView { persistent: state, commit: index, applied: index, ..follower },
            );
            assert(after.persistent == state);
        }
    }
}

/// Whatever reaches a server, what it then has recorded completes what it has stored.
pub proof fn lemma_event_in_sync<C>(
    set: Setting<C>,
    w: World<C>,
    id: NodeId,
    node: NodeView<C>,
    stored: StoredView<C>,
    event: EventView<C>,
)
    requires
        refine::placed(set, w, id, node),
        backed(w, id, node, stored),
        reaches(set, w, id, node, event),
    ensures
        event.step(node).0.persistent.in_sync(stored),
{
    let state = node.persistent;
    lemma_backed_in_sync(set, w, id, node, stored);
    match event {
        EventView::ElectionTimeout => {
            if !(node.role is Leader) {
                let next = primitives::next_term(node.term());
                persistent::law_metadata_changes_stay_in_sync(state, stored, next, None);
                persistent::law_metadata_changes_stay_in_sync(
                    state.set_term(next),
                    stored,
                    next,
                    Some(id),
                );
                protocol::lemma_peer(w, id);
                let candidate = node.stand();
                persistent::law_append_stays_in_sync(
                    candidate.persistent,
                    stored,
                    EntryView {
                        term: candidate.term().value as nat,
                        payload: log::PayloadView::NoOp,
                    },
                );
            }
        },
        EventView::HeartbeatTimeout => {},
        EventView::Message { from, message } => match message {
            MessageView::RequestVote(m) => {
                lemma_become_follower_in_sync(node, stored, m.term, None);
                let voter = if m.term.value > node.term().value {
                    node.become_follower(m.term, None)
                } else {
                    node
                };
                persistent::law_metadata_changes_stay_in_sync(
                    voter.persistent,
                    stored,
                    m.term,
                    Some(m.candidate_id),
                );
            },
            MessageView::RequestVoteResponse(m) => {
                lemma_become_follower_in_sync(node, stored, m.term, None);
                persistent::law_append_stays_in_sync(
                    state,
                    stored,
                    EntryView { term: node.term().value as nat, payload: log::PayloadView::NoOp },
                );
            },
            MessageView::AppendEntries(m) => {
                lemma_append_entries_in_sync(set, w, id, node, stored, from, m);
            },
            MessageView::AppendEntriesResponse(m) => {
                let term = match m {
                    AppendEntriesResponse::Accepted { term, .. } => term,
                    AppendEntriesResponse::Rejected { term } => term,
                };
                lemma_become_follower_in_sync(node, stored, term, None);
            },
            MessageView::InstallSnapshot(m) => {
                lemma_install_snapshot_in_sync(set, w, id, node, stored, from, m);
            },
            MessageView::InstallSnapshotResponse(m) => {
                let term = match m {
                    InstallSnapshotResponse::Installed { term, .. } => term,
                    InstallSnapshotResponse::Rejected { term } => term,
                };
                lemma_become_follower_in_sync(node, stored, term, None);
            },
        },
    }
}

/// What a node makes of an event is what the protocol allows, and it is stored before anything is
/// sent.
pub proof fn lemma_event<C>(
    set: Setting<C>,
    w: World<C>,
    id: NodeId,
    node: NodeView<C>,
    stored: StoredView<C>,
    event: EventView<C>,
) -> (x: World<C>)
    requires
        refine::placed(set, w, id, node),
        backed(w, id, node, stored),
        reaches(set, w, id, node, event),
    ensures
        ({
            let (after, commands) = event.step(node);
            let saved = NodeView { persistent: after.persistent.cleared(4), ..after };
            &&& refine::refined(set, w, x, id, node, saved)
            &&& backed(x, id, saved, after.persistent.replay(stored))
            &&& refine::all_said(set, x, id, commands)
        }),
{
    let y = steps::save(w, id);
    steps::lemma_save(w, id);
    protocol::lemma_peer(w, id);
    assert(refine::ready(set, y, id, node));
    let x = match event {
        EventView::ElectionTimeout => handlers::lemma_election_timeout(set, y, id, node),
        EventView::HeartbeatTimeout => handlers::lemma_heartbeats(set, y, id, node),
        EventView::Message { from, message } => {
            refine::lemma_heard_grows(set, w, y, from, id, message);
            handlers::lemma_message(set, y, id, node, from, message)
        },
    };
    let after = event.step(node).0;
    steps::lemma_follows_trans(w, y, x, id);
    lemma_event_in_sync(set, w, id, node, stored, event);
    lemma_saved_is_backed(set, x, id, after, stored);
    x
}

// ---- Compaction ----
/// Compacting changes only where a server keeps what it has applied.
pub proof fn lemma_compaction<C>(
    set: Setting<C>,
    w: World<C>,
    id: NodeId,
    node: NodeView<C>,
    stored: StoredView<C>,
    data: Seq<u8>,
)
    requires
        refine::ready(set, w, id, node),
        backed(w, id, node, stored),
        node.applied.value > node.log().boundary,
        refine::told(
            set,
            id,
            node.persistent.latest_snapshot,
            node.log().through(node.applied.value as int),
        ),
        (set.faithful)(data, w.peers[id].log.take(node.applied.value as int)),
    ensures
        ({
            let after = node.compact_to_snapshot(data);
            let saved = NodeView { persistent: after.persistent.cleared(4), ..after };
            &&& refine::ready(set, w, id, saved)
            &&& backed(w, id, saved, after.persistent.replay(stored))
        }),
{
    let p = w.peers[id];
    let after = node.compact_to_snapshot(data);
    let n = node.applied.value as nat;
    protocol::lemma_peer(w, id);
    refine::lemma_tail(node.log(), p.log);
    lemma_backed_in_sync(set, w, id, node, stored);
    assert(p.log[n - 1].term <= p.term);
    let rest = node.log().suffix_from(primitives::after(node.applied).value as int);
    refine::lemma_config_from(set, id, node, p.log, n);
    assert(refine::informed(set, id, node)) by {
        let through = node.log().through(n as int);
        let behind = p.log.skip(n as int);
        assert(node.log().entries =~= through + behind);
        refine::lemma_latest_concat(through, behind);
    }
    if n == u64::MAX {
        assert(p.log.take(n as int) =~= p.log);
    } else if !log::has_config_change(rest) {
        assert(rest =~= p.log.skip(n as int));
        assert(p.log =~= p.log.take(n as int) + rest);
        refine::lemma_members_stay(set.initial, p.log.take(n as int), rest);
    }
    assert(node.config_as_of(node.applied) == refine::members_in(
        set.initial,
        p.log.take(n as int),
    ));
    assert(after.log().entries =~= p.log.skip(n as int));
    assert(node.persistent.is_clean()) by {
        assert(node.persistent.pending_append =~= Seq::<EntryView<C>>::empty());
        assert(node.persistent =~= node.persistent.cleared(4));
    }
    persistent::law_retain_stays_in_sync(node.persistent, stored, node.snapshot_of(data));
    assert(refine::ready(set, w, id, after));
    lemma_saved_is_backed(set, w, id, after, stored);
}

// ---- Clients ----
/// What a leader has appended waits to be stored.
proof fn lemma_appended_is_backed<C>(
    set: Setting<C>,
    w: World<C>,
    x: World<C>,
    id: NodeId,
    node: NodeView<C>,
    after: NodeView<C>,
    stored: StoredView<C>,
    entry: EntryView<C>,
)
    requires
        refine::placed(set, w, id, node),
        backed(w, id, node, stored),
        handlers::appended(w, x, id, entry),
        after.persistent == node.persistent.append_entry(entry),
        after.commit.value == x.peers[id].commit,
    ensures
        backed(x, id, after, stored),
        protocol::agree(x.peers[id].log, w.peers[id].log, w.peers[id].log.len()),
{
    let p = w.peers[id];
    refine::lemma_tail(node.log(), p.log);
    let kept = stored.log.entries.len() as int;
    assert(after.log().entries =~= node.log().entries.push(entry));
    assert(after.log().entries.take(kept) =~= node.log().entries.take(kept));
    assert(after.log().entries.skip(kept) =~= node.log().entries.skip(kept).push(entry));
    assert(x.peers[id].log.take(p.log.len() as int) =~= p.log.take(p.log.len() as int));
}

/// A command that a leader has appended.
pub proof fn lemma_submitted<C>(
    set: Setting<C>,
    w: World<C>,
    id: NodeId,
    node: NodeView<C>,
    stored: StoredView<C>,
    command: C,
) -> (x: World<C>)
    requires
        refine::placed(set, w, id, node),
        backed(w, id, node, stored),
        node.role is Leader,
        node.log().last_index() < u64::MAX,
    ensures
        steps::follows(w, x, id),
        refine::placed(set, x, id, node.submit_command(command)),
        backed(x, id, node.submit_command(command), stored),
        protocol::agree(x.peers[id].log, w.peers[id].log, w.peers[id].log.len()),
        node.submit_command(command).applied == node.applied,
        node.submit_command(command).to_restore == node.to_restore,
{
    let x = handlers::lemma_submit(set, w, id, node, command);
    let entry = EntryView {
        term: w.peers[id].term,
        payload: log::PayloadView::Command(command),
    };
    let after = node.submit_command(command);
    lemma_appended_is_backed(set, w, x, id, node, after, stored, entry);
    x
}

/// A membership that a leader has appended.
pub proof fn lemma_reconfigured<C>(
    set: Setting<C>,
    w: World<C>,
    id: NodeId,
    node: NodeView<C>,
    stored: StoredView<C>,
    config: Members,
) -> (x: World<C>)
    requires
        refine::placed(set, w, id, node),
        backed(w, id, node, stored),
        node.role is Leader,
        node.log().last_index() < u64::MAX,
        steps::may_change(w, id, config.dom()),
    ensures
        steps::follows(w, x, id),
        refine::placed(set, x, id, node.propose_config_change(config)),
        backed(x, id, node.propose_config_change(config), stored),
        protocol::agree(x.peers[id].log, w.peers[id].log, w.peers[id].log.len()),
        node.propose_config_change(config).applied == node.applied,
        node.propose_config_change(config).to_restore == node.to_restore,
{
    let x = handlers::lemma_reconfigure(set, w, id, node, config);
    let entry = EntryView {
        term: w.peers[id].term,
        payload: log::PayloadView::ConfigChange(config),
    };
    let after = node.propose_config_change(config);
    lemma_appended_is_backed(set, w, x, id, node, after, stored, entry);
    x
}

} // verus!
