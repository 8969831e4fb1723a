//! What a server comes back with when it crashes while it handles an event.
use vstd::prelude::*;

use super::durable;
use super::handlers;
use super::protocol;
use super::protocol::Entries;
use super::protocol::PeerRole;
use super::protocol::World;
use super::refine;
use super::refine::Setting;
use super::steps;
use crate::model::NodeView;
use crate::persistent;
use crate::persistent::PersistentView;
use crate::runtime::EventView;
use crate::storage::StoredView;
use crate::types::log;
use crate::types::log::EntryView;
use crate::types::log::SuffixDisposition;
use crate::types::message::AppendEntriesResponse;
use crate::types::message::AppendEntriesView;
use crate::types::message::InstallSnapshotResponse;
use crate::types::message::InstallSnapshotView;
use crate::types::message::MessageView;
use crate::types::message::RequestVote;
use crate::types::message::RequestVoteResponse;
use crate::types::primitives::LogIndex;
use crate::types::primitives::NodeId;
use crate::types::primitives::Term;

verus! {

/// Whether a server that finds `stored` is what the protocol says it is.
pub open spec fn comes_back<C>(
    set: Setting<C>,
    w: World<C>,
    id: NodeId,
    stored: StoredView<C>,
) -> bool {
    let p = w.peers[id];
    &&& w.inv()
    &&& w.servers == set.servers
    &&& w.initial == set.initial
    &&& w.servers.contains(id)
    &&& p.role is Follower
    &&& stored.term.value == p.term
    &&& stored.voted_for == p.vote
    &&& p.log.len() <= u64::MAX
    &&& refine::is_tail(stored.log, p.log)
    &&& refine::covers(set, stored.snapshot, stored.log.boundary, p.log)
    &&& p.commit == stored.log.boundary
    &&& p.durable == p.log.len()
    &&& w.elected(id) ==> w.shown[p.term] == p.log.len()
}

/// A server that comes back is a peer.
pub proof fn lemma_comes_back<C>(set: Setting<C>, w: World<C>, id: NodeId, stored: StoredView<C>)
    requires
        comes_back(set, w, id, stored),
    ensures
        refine::placed(set, w, id, NodeView::restored(id, set.boots[id], stored)),
        durable::backed(w, id, NodeView::restored(id, set.boots[id], stored), stored),
{
    let q = w.peers[id];
    let b = stored.log.boundary;
    let read = NodeView {
        persistent: PersistentView::restored(stored),
        commit: LogIndex { value: b as u64 },
        applied: LogIndex { value: b as u64 },
        ..NodeView::fresh(id, set.boots[id])
    };
    assert(read.log() =~= stored.log);
    refine::lemma_tail(stored.log, q.log);
    refine::lemma_adopts(set, id, read, q.log);
    let after = NodeView::restored(id, set.boots[id], stored);
    assert(after == read.adopt_latest_config());
    let kept = stored.log.entries.len() as int;
    assert(read.log().entries.take(kept) =~= read.log().entries);
    assert(read.log().entries.skip(kept) =~= Seq::<EntryView<C>>::empty());
}

/// A server that crashes with the first `count` of its unsaved entries in storage.
pub proof fn lemma_restart<C>(
    set: Setting<C>,
    w: World<C>,
    id: NodeId,
    node: NodeView<C>,
    stored: StoredView<C>,
    count: nat,
) -> (x: World<C>)
    requires
        refine::placed(set, w, id, node),
        durable::backed(w, id, node, stored),
        node.commit.value <= stored.log.last_index(),
        count <= node.persistent.pending_append.len(),
    ensures
        steps::follows(w, x, id),
        comes_back(
            set,
            x,
            id,
            stored.append(node.persistent.pending_append.take(count as int)),
        ),
        x.peers[id].log == w.peers[id].log.take((stored.log.last_index() + count) as int),
        x.peers[id].term == w.peers[id].term,
        x.peers[id].vote == w.peers[id].vote,
{
    let p = w.peers[id];
    let b = node.log().boundary;
    let last = stored.log.last_index() + count;
    protocol::lemma_peer(w, id);
    refine::lemma_tail(node.log(), p.log);
    let y = if count > 0 {
        steps::lemma_vouch(w, id, last);
        steps::vouch(w, id, last)
    } else {
        steps::lemma_follows_self(w, id);
        w
    };
    assert(y.peers[id].durable == last);
    steps::lemma_restart(y, id, b);
    let z = steps::restart(y, id, b);
    steps::lemma_save(z, id);
    let x = steps::save(z, id);
    steps::lemma_follows_trans(w, y, z, id);
    steps::lemma_follows_trans(w, z, x, id);
    let q = x.peers[id];
    let found = stored.append(node.persistent.pending_append.take(count as int));
    assert(found.log.entries =~= q.log.skip(b as int));
    assert(q.log.take(b as int) =~= p.log.take(b as int));
    x
}

// ---- The term and the vote ----
/// How an event changes the term and the vote.
pub enum Change {
    /// Not at all.
    Same,
    /// A higher term, in which nobody is voted for yet.
    Newer,
    /// The next term, and a vote for oneself.
    Own,
    /// A vote for somebody who asked.
    Granted { from: NodeId, req: RequestVote },
}

/// Whether `change` leads from one term and vote to the other.
spec fn changed<C>(
    set: Setting<C>,
    w: World<C>,
    id: NodeId,
    change: Change,
    term: Term,
    vote: Option<NodeId>,
) -> bool {
    let p = w.peers[id];
    match change {
        Change::Same => term.value == p.term && vote == p.vote,
        Change::Newer => term.value > p.term && vote is None,
        Change::Own => term.value == p.term + 1 && vote == Some(id),
        Change::Granted { from, req } => {
            &&& refine::heard(set, w, from, id, MessageView::<C>::RequestVote(req))
            &&& term == req.term
            &&& vote == Some(from)
            &&& term.value > p.term || (term.value == p.term && p.vote is None)
            &&& protocol::up_to_date(
                req.last_log_term.value as nat,
                req.last_log_index.value as nat,
                p.log,
            )
        },
    }
}

/// A server that comes back with another term and vote.
proof fn lemma_back_with<C>(
    set: Setting<C>,
    w: World<C>,
    id: NodeId,
    stored: StoredView<C>,
    change: Change,
    term: Term,
    vote: Option<NodeId>,
) -> (x: World<C>)
    requires
        comes_back(set, w, id, stored),
        changed(set, w, id, change, term, vote),
    ensures
        steps::follows(w, x, id),
        comes_back(set, x, id, stored.set_meta(term, vote)),
        x.peers[id].log == w.peers[id].log,
{
    protocol::lemma_peer(w, id);
    match change {
        Change::Same => {
            steps::lemma_follows_self(w, id);
            w
        },
        Change::Newer => lemma_back_newer(set, w, id, stored, term),
        Change::Own => {
            steps::lemma_pledge(w, id, PeerRole::Follower);
            let x = steps::pledge(w, id, PeerRole::Follower);
            if x.elected(id) {
                protocol::lemma_leader(w, term.value as nat);
            }
            x
        },
        Change::Granted { from, req } => {
            let request = MessageView::<C>::RequestVote(req);
            let y = if term.value > w.peers[id].term {
                lemma_back_newer(set, w, id, stored, term)
            } else {
                steps::lemma_follows_self(w, id);
                w
            };
            refine::lemma_heard_grows(set, w, y, from, id, request);
            steps::lemma_grant(
                y,
                id,
                from,
                req.last_log_index.value as nat,
                req.last_log_term.value as nat,
            );
            let x = steps::grant(y, id, from);
            steps::lemma_follows_trans(w, y, x, id);
            x
        },
    }
}

/// A server that comes back in a higher term.
proof fn lemma_back_newer<C>(
    set: Setting<C>,
    w: World<C>,
    id: NodeId,
    stored: StoredView<C>,
    term: Term,
) -> (x: World<C>)
    requires
        comes_back(set, w, id, stored),
        term.value > stored.term.value,
    ensures
        steps::follows(w, x, id),
        comes_back(set, x, id, stored.set_meta(term, None)),
        x == steps::adopt_term(w, id, term.value as nat),
        !x.elected(id),
{
    steps::lemma_adopt_term(w, id, term.value as nat);
    let x = steps::adopt_term(w, id, term.value as nat);
    if x.elected(id) {
        protocol::lemma_leader(w, term.value as nat);
    }
    x
}

/// A vote that could be granted with a log could be granted with less of it.
proof fn lemma_less_to_beat<C>(term: nat, index: nat, log: Entries<C>, max: nat, n: nat)
    requires
        protocol::up_to_date(term, index, log),
        protocol::ordered(log, max),
        n <= log.len(),
    ensures
        protocol::up_to_date(term, index, log.take(n as int)),
{
    if n > 0 {
        assert(log[n - 1].term <= log[log.len() - 1].term);
    }
}

/// A crash while an event is handled that changes the term and the vote, and nothing else that is
/// stored.
proof fn lemma_interrupted_change<C>(
    set: Setting<C>,
    w: World<C>,
    id: NodeId,
    node: NodeView<C>,
    stored: StoredView<C>,
    state: PersistentView<C>,
    change: Change,
    steps: nat,
) -> (x: World<C>)
    requires
        refine::placed(set, w, id, node),
        durable::backed(w, id, node, stored),
        node.commit.value <= stored.log.last_index(),
        state == (PersistentView {
            term: state.term,
            voted_for: state.voted_for,
            meta_dirty: state.meta_dirty,
            ..node.persistent
        }),
        !state.meta_dirty ==> state.term == node.term() && state.voted_for
            == node.persistent.voted_for,
        changed(set, w, id, change, state.term, state.voted_for),
    ensures
        steps::follows(w, x, id),
        comes_back(set, x, id, state.replay_part(stored, steps)),
{
    let count = state.appended_part(steps);
    let found = stored.append(node.persistent.pending_append.take(count as int));
    let y = lemma_restart(set, w, id, node, stored, count);
    if steps == 0 {
        assert(state.replay_part(stored, steps) =~= found);
        y
    } else {
        protocol::lemma_peer(w, id);
        if let Change::Granted { from, req } = change {
            refine::lemma_heard_grows(
                set,
                w,
                y,
                from,
                id,
                MessageView::<C>::RequestVote(req),
            );
            lemma_less_to_beat(
                req.last_log_term.value as nat,
                req.last_log_index.value as nat,
                w.peers[id].log,
                w.peers[id].term,
                (stored.log.last_index() + count) as nat,
            );
        }
        let x = lemma_back_with(set, y, id, found, change, state.term, state.voted_for);
        steps::lemma_follows_trans(w, y, x, id);
        assert(state.replay_part(stored, steps) =~= found.set_meta(state.term, state.voted_for));
        x
    }
}

// ---- Whole events ----
/// A crash after everything that an event changes is stored.
proof fn lemma_after_event<C>(
    set: Setting<C>,
    w: World<C>,
    id: NodeId,
    node: NodeView<C>,
    stored: StoredView<C>,
    event: EventView<C>,
    steps: nat,
) -> (x: World<C>)
    requires
        refine::placed(set, w, id, node),
        durable::backed(w, id, node, stored),
        durable::reaches(set, w, id, node, event),
        steps >= 3 + event.step(node).0.persistent.pending_append.len(),
    ensures
        steps::follows(w, x, id),
        comes_back(
            set,
            x,
            id,
            event.step(node).0.persistent.replay_part(stored, steps),
        ),
{
    let after = event.step(node).0;
    let saved = NodeView { persistent: after.persistent.cleared(4), ..after };
    let found = after.persistent.replay(stored);
    let y = durable::lemma_event(set, w, id, node, stored, event);
    protocol::lemma_peer(y, id);
    refine::lemma_tail(saved.log(), y.peers[id].log);
    let x = lemma_restart(set, y, id, saved, found, 0);
    steps::lemma_follows_trans(w, y, x, id);
    assert(found.append(saved.persistent.pending_append.take(0)) =~= found);
    persistent::law_whole_replay(after.persistent, stored, steps);
    x
}

/// A crash while an event is handled that appends one entry, and may change the term and the vote.
proof fn lemma_interrupted_append<C>(
    set: Setting<C>,
    w: World<C>,
    id: NodeId,
    node: NodeView<C>,
    stored: StoredView<C>,
    event: EventView<C>,
    state: PersistentView<C>,
    entry: EntryView<C>,
    change: Change,
    steps: nat,
) -> (x: World<C>)
    requires
        refine::placed(set, w, id, node),
        durable::backed(w, id, node, stored),
        durable::reaches(set, w, id, node, event),
        node.commit.value <= stored.log.last_index(),
        event.step(node).0.persistent == state.append_entry(entry),
        state == (PersistentView {
            term: state.term,
            voted_for: state.voted_for,
            meta_dirty: state.meta_dirty,
            ..node.persistent
        }),
        !state.meta_dirty ==> state.term == node.term() && state.voted_for
            == node.persistent.voted_for,
        changed(set, w, id, change, state.term, state.voted_for),
    ensures
        steps::follows(w, x, id),
        comes_back(
            set,
            x,
            id,
            event.step(node).0.persistent.replay_part(stored, steps),
        ),
{
    let appended = state.append_entry(entry);
    let all = appended.pending_append;
    if steps >= 3 + all.len() {
        lemma_after_event(set, w, id, node, stored, event, steps)
    } else {
        let x = lemma_interrupted_change(set, w, id, node, stored, state, change, steps);
        let count = appended.appended_part(steps);
        assert(count == state.appended_part(steps));
        assert(all.take(count as int) =~= state.pending_append.take(count as int));
        assert(appended.replay_part(stored, steps) =~= state.replay_part(stored, steps));
        x
    }
}

// ---- Entries from a leader ----
/// Where merging entries into a log overwrites something, the two part.
proof fn lemma_conflict_parts<C>(old: Entries<C>, prev: nat, entries: Entries<C>, from: nat)
    requires
        prev <= old.len(),
        refine::uncompacted(old).conflict(prev, entries) == Some(from),
    ensures
        ({
            let full = refine::uncompacted(old).merge(prev, entries).entries;
            &&& 1 <= from <= old.len()
            &&& from <= full.len()
            &&& full.take(from - 1) == old.take(from - 1)
            &&& full[from - 1].term != old[from - 1].term
        }),
{
    let view = refine::uncompacted(old);
    log::lemma_held(view, prev, entries);
    let n = view.held(prev, entries);
    if n > 0 {
        assert(view.holds(prev, entries, n - 1));
    }
    assert(!view.holds(prev, entries, n as int));
    let full = view.merge(prev, entries).entries;
    assert(view.truncate_from(from as int).entries =~= old.take(from - 1));
    assert(full =~= old.take(from - 1) + entries.skip(n as int));
    assert(full.take(from - 1) =~= old.take(from - 1));
    assert(full[from - 1] == entries[n as int]);
    assert(view.at(from as int) == old[from - 1]);
}

/// A follower that crashes with a part of the entries it accepted in storage.
proof fn lemma_accepts_part<C>(
    set: Setting<C>,
    w: World<C>,
    id: NodeId,
    node: NodeView<C>,
    from: NodeId,
    req: AppendEntriesView<C>,
    last: nat,
    found: StoredView<C>,
) -> (x: World<C>)
    requires
        handlers::accepts(set, w, id, node, from, req),
        found.term == node.term(),
        found.voted_for == node.persistent.voted_for,
        found.snapshot == node.persistent.latest_snapshot,
        found.log.boundary == node.log().boundary,
        found.log.boundary_term == node.log().boundary_term,
        ({
            let old = w.peers[id].log;
            let prev = req.prev_log_index.value as nat;
            let merged = node.log().merge(prev, req.entries);
            &&& last <= merged.last_index()
            &&& found.log.entries == merged.entries.take(last - merged.boundary)
            &&& node.log().boundary <= last
            &&& match node.log().conflict(prev, req.entries) {
                Some(index) => last >= index - 1,
                None => last >= old.len(),
            }
        }),
    ensures
        steps::follows(w, x, id),
        comes_back(set, x, id, found),
{
    let p = w.peers[id];
    let t = p.term;
    let theirs = w.leader_logs[t];
    let prev = req.prev_log_index.value as nat;
    let full = handlers::lemma_accepted_log(set, w, id, node, from, req);
    let merged = node.log().merge(prev, req.entries);
    refine::lemma_tail(merged, full);
    protocol::lemma_peer(w, id);
    let part = full.take(last as int);
    protocol::lemma_agree_shorter(full, theirs, full.len(), last);
    assert(part.take(last as int) =~= part);
    assert(protocol::agree(part, theirs, last));
    assert forall|n: nat| #[trigger] protocol::agree(p.log, theirs, n) implies n <= last by {
        if let Some(index) = node.log().conflict(prev, req.entries) {
            lemma_conflict_parts(p.log, prev, req.entries, index);
            if n >= index {
                protocol::lemma_agree_at(p.log, theirs, n, index - 1);
                protocol::lemma_agree_at(full, theirs, full.len(), index - 1);
            }
        }
    }
    steps::lemma_replace_log(w, id, part);
    let y = steps::replace_log(w, id, part);
    let b = node.log().boundary;
    steps::lemma_restart(y, id, b);
    let x = steps::restart(y, id, b);
    steps::lemma_follows_trans(w, y, x, id);
    let q = x.peers[id];
    assert(q.log =~= part);
    assert(found.log.entries =~= q.log.skip(b as int));
    assert(b <= p.commit);
    assert(q.log.take(b as int) =~= full.take(p.commit as int).take(b as int));
    assert(p.log.take(b as int) =~= p.log.take(p.commit as int).take(b as int));
    if b > 0 {
        protocol::lemma_agree_at(full, p.log, p.commit, b - 1);
    }
    x
}

/// A crash while entries from a leader are accepted.
proof fn lemma_interrupted_entries<C>(
    set: Setting<C>,
    w: World<C>,
    id: NodeId,
    node: NodeView<C>,
    stored: StoredView<C>,
    from: NodeId,
    req: AppendEntriesView<C>,
    steps: nat,
) -> (x: World<C>)
    requires
        refine::placed(set, w, id, node),
        durable::backed(w, id, node, stored),
        node.commit.value <= stored.log.last_index(),
        refine::heard(set, w, from, id, MessageView::AppendEntries(req)),
        req.prev_log_index.value + req.entries.len() <= u64::MAX,
        req.term.value >= node.term().value,
        node.log().matches(req.prev_log_index.value as int, req.prev_log_term.value as nat),
    ensures
        steps::follows(w, x, id),
        comes_back(
            set,
            x,
            id,
            node.handle_append_entries(from, req).0.persistent.replay_part(stored, steps),
        ),
{
    let prev = req.prev_log_index.value as nat;
    let follower = node.follow(req.term, req.leader_id);
    let base = follower.persistent;
    let state = base.merge_entries(prev, req.entries);
    assert(node.handle_append_entries(from, req).0.persistent == state);
    let count = state.appended_part(steps);
    let change = if req.term.value > node.term().value {
        Change::Newer
    } else {
        Change::Same
    };
    if steps < 3 || (state.truncated_from is None && count == 0) {
        let x = lemma_interrupted_change(
            set,
            w,
            id,
            node,
            stored,
            base,
            change,
            if steps < 3 {
                steps
            } else {
                3
            },
        );
        assert(state.pending_append.take(0) =~= base.pending_append.take(0));
        assert(state.replay_part(stored, steps) =~= base.replay_part(
            stored,
            if steps < 3 {
                steps
            } else {
                3
            },
        ));
        x
    } else {
        lemma_interrupted_merge(set, w, id, node, stored, from, req, steps)
    }
}

/// What is in storage after a crash while merged entries are written: a part of the merged log that
/// reaches at least to where it parts from the old one.
proof fn lemma_found_after_merge<C>(
    base: PersistentView<C>,
    stored: StoredView<C>,
    old: Entries<C>,
    prev: nat,
    entries: Entries<C>,
    full: Entries<C>,
    steps: nat,
) -> (last: nat)
    requires
        steps >= 3,
        refine::is_tail(base.log, old),
        refine::is_tail(base.log.merge(prev, entries), full),
        base.log.merge(prev, entries).boundary == base.log.boundary,
        base.truncated_from is None,
        base.pending_install is None,
        stored.log.boundary == base.log.boundary,
        stored.log.boundary_term == base.log.boundary_term,
        stored.log.entries == base.log.entries.take(stored.log.entries.len() as int),
        stored.log.last_index() <= old.len(),
        stored.snapshot == base.latest_snapshot,
        !base.meta_dirty ==> stored.term == base.term && stored.voted_for == base.voted_for,
        old.len() <= u64::MAX,
        match base.log.conflict(prev, entries) {
            Some(index) => {
                &&& 1 <= index <= stored.log.last_index() + 1
                &&& index <= full.len()
                &&& full.take(index - 1) == old.take(index - 1)
            },
            None => {
                &&& stored.log.last_index() == old.len() <= full.len()
                &&& base.pending_append.len() == 0
                &&& forall|k: int| 0 <= k < old.len() ==> old[k] == #[trigger] full[k]
            },
        },
    ensures
        ({
            let merged = base.log.merge(prev, entries);
            let found = base.merge_entries(prev, entries).replay_part(stored, steps);
            &&& found.term == base.term
            &&& found.voted_for == base.voted_for
            &&& found.snapshot == base.latest_snapshot
            &&& found.log.boundary == base.log.boundary
            &&& found.log.boundary_term == base.log.boundary_term
            &&& base.log.boundary <= last <= merged.last_index()
            &&& found.log.entries == merged.entries.take(last - merged.boundary)
            &&& match base.log.conflict(prev, entries) {
                Some(index) => last >= index - 1,
                None => last >= old.len(),
            }
        }),
{
    let merged = base.log.merge(prev, entries);
    let state = base.merge_entries(prev, entries);
    let found = state.replay_part(stored, steps);
    let count = state.appended_part(steps);
    let b = base.log.boundary;
    refine::lemma_tail(base.log, old);
    refine::lemma_tail(merged, full);
    match base.log.conflict(prev, entries) {
        Some(index) => {
            assert(b < index) by {
                log::lemma_held(base.log, prev, entries);
            }
            let last = (index - 1 + count) as nat;
            let kept = stored.log.truncate_from(index as int).entries;
            assert(kept =~= old.subrange(b as int, index - 1));
            assert forall|k: int| 0 <= k < index - 1 implies old[k] == full[k] by {
                assert(full.take(index - 1)[k] == old.take(index - 1)[k]);
            }
            assert(found.log.entries =~= merged.entries.take(last - b));
            last
        },
        None => {
            let last = (old.len() + count) as nat;
            assert(found.log.entries =~= merged.entries.take(last - b));
            last
        },
    }
}

/// A crash while entries from a leader are written.
proof fn lemma_interrupted_merge<C>(
    set: Setting<C>,
    w: World<C>,
    id: NodeId,
    node: NodeView<C>,
    stored: StoredView<C>,
    from: NodeId,
    req: AppendEntriesView<C>,
    steps: nat,
) -> (x: World<C>)
    requires
        refine::placed(set, w, id, node),
        durable::backed(w, id, node, stored),
        node.commit.value <= stored.log.last_index(),
        refine::heard(set, w, from, id, MessageView::AppendEntries(req)),
        req.prev_log_index.value + req.entries.len() <= u64::MAX,
        req.term.value >= node.term().value,
        node.log().matches(req.prev_log_index.value as int, req.prev_log_term.value as nat),
        steps >= 3,
    ensures
        steps::follows(w, x, id),
        comes_back(
            set,
            x,
            id,
            node.follow(req.term, req.leader_id).persistent.merge_entries(
                req.prev_log_index.value as nat,
                req.entries,
            ).replay_part(stored, steps),
        ),
{
    let p = w.peers[id];
    let prev = req.prev_log_index.value as nat;
    let follower = node.follow(req.term, req.leader_id);
    let state = follower.persistent.merge_entries(prev, req.entries);
    let found = state.replay_part(stored, steps);
    protocol::lemma_peer(w, id);
    refine::lemma_tail(node.log(), p.log);
    steps::lemma_save(w, id);
    let v = steps::save(w, id);
    let message = MessageView::AppendEntries(req);
    refine::lemma_heard_grows(set, w, v, from, id, message);
    assert(refine::ready(set, v, id, node));
    let y = handlers::lemma_follow(set, v, id, node, req.term, req.leader_id);
    refine::lemma_heard_grows(set, v, y, from, id, message);
    steps::lemma_follows_trans(w, v, y, id);
    assert(handlers::accepts(set, y, id, follower, from, req));
    let full = handlers::lemma_accepted_log(set, y, id, follower, from, req);
    match node.log().conflict(prev, req.entries) {
        Some(index) => {
            durable::lemma_conflict_is_stored(set, w, id, node, stored, from, req);
            lemma_conflict_parts(p.log, prev, req.entries, index);
        },
        None => {
            lemma_all_is_stored(set, w, id, node, stored, from, req, y, full);
        },
    }
    let base = follower.persistent;
    let last = lemma_found_after_merge(base, stored, p.log, prev, req.entries, full, steps);
    let x = lemma_accepts_part(set, y, id, follower, from, req, last, found);
    steps::lemma_follows_trans(w, y, x, id);
    x
}

/// Where entries from a leader go behind everything a server has, it has stored everything.
proof fn lemma_all_is_stored<C>(
    set: Setting<C>,
    w: World<C>,
    id: NodeId,
    node: NodeView<C>,
    stored: StoredView<C>,
    from: NodeId,
    req: AppendEntriesView<C>,
    y: World<C>,
    full: Entries<C>,
)
    requires
        refine::placed(set, w, id, node),
        durable::backed(w, id, node, stored),
        refine::heard(set, w, from, id, MessageView::AppendEntries(req)),
        req.term.value >= node.term().value,
        steps::follows(w, y, id),
        protocol::agree(full, y.leader_logs[req.term.value as nat], full.len()),
        handlers::extended_by(w.peers[id].log, req.entries, full),
    ensures
        stored.log.last_index() == w.peers[id].log.len(),
        node.persistent.pending_append.len() == 0,
        forall|k: int|
            0 <= k < w.peers[id].log.len() ==> w.peers[id].log[k] == #[trigger] full[k],
{
    let p = w.peers[id];
    let t = req.term.value as nat;
    refine::lemma_tail(node.log(), p.log);
    let n = choose|n: int|
        0 <= n <= req.entries.len() && full == p.log + #[trigger] req.entries.skip(n);
    assert forall|k: int| 0 <= k < p.log.len() implies p.log[k] == #[trigger] full[k] by {}
    if w.elected(id) && p.log.len() > 0 {
        let k = p.log.len() - 1;
        protocol::lemma_agree_at(full, y.leader_logs[t], full.len(), k);
        let (old, new) = (w.leader_logs[t], y.leader_logs[t]);
        if k < old.len() {
            assert(new.take(old.len() as int)[k] == new[k]);
            durable::lemma_unsaved_is_unknown(w, id, t, k);
        } else {
            protocol::lemma_peer(w, id);
            assert(new[k].term == t);
            assert(p.log[k].term <= p.term);
        }
    }
}

// ---- Snapshots from a leader ----
/// A crash while a snapshot from a leader is installed.
proof fn lemma_interrupted_install<C>(
    set: Setting<C>,
    w: World<C>,
    id: NodeId,
    node: NodeView<C>,
    stored: StoredView<C>,
    from: NodeId,
    req: InstallSnapshotView,
    steps: nat,
) -> (x: World<C>)
    requires
        refine::placed(set, w, id, node),
        durable::backed(w, id, node, stored),
        durable::reaches(
            set,
            w,
            id,
            node,
            EventView::Message { from, message: MessageView::InstallSnapshot(req) },
        ),
        node.commit.value <= stored.log.last_index(),
        req.term.value >= node.term().value,
        req.snapshot.last_index > node.commit.value,
    ensures
        steps::follows(w, x, id),
        comes_back(
            set,
            x,
            id,
            node.handle_install_snapshot(from, req).0.persistent.replay_part(stored, steps),
        ),
{
    let event = EventView::Message { from, message: MessageView::InstallSnapshot(req) };
    let follower = node.follow(req.term, req.leader_id);
    let base = follower.persistent;
    let disposition = follower.disposition_for(req.snapshot);
    let state = base.install_snapshot(req.snapshot, disposition);
    let index = LogIndex { value: req.snapshot.last_index as u64 };
    durable::lemma_volatile(
        NodeView { persistent: state, commit: index, applied: index, ..follower },
    );
    assert(node.handle_install_snapshot(from, req).0.persistent == state);
    assert(event.step(node).0.persistent == state);
    let change = if req.term.value > node.term().value {
        Change::Newer
    } else {
        Change::Same
    };
    if steps < 2 {
        let x = lemma_interrupted_change(set, w, id, node, stored, base, change, steps);
        assert(state.pending_append.take(0) =~= base.pending_append.take(0));
        assert(state.replay_part(stored, steps) =~= base.replay_part(stored, steps));
        x
    } else if state.pending_append.len() == 0 {
        let all: nat = 3;
        assert(state.replay_part(stored, steps) =~= state.replay_part(stored, all)) by {
            assert(state.truncated_from is None);
        }
        lemma_after_event(set, w, id, node, stored, event, all)
    } else {
        lemma_interrupted_retain(set, w, id, node, stored, from, req, steps)
    }
}

/// A crash while a snapshot from a leader is installed over entries that are not all stored.
proof fn lemma_interrupted_retain<C>(
    set: Setting<C>,
    w: World<C>,
    id: NodeId,
    node: NodeView<C>,
    stored: StoredView<C>,
    from: NodeId,
    req: InstallSnapshotView,
    steps: nat,
) -> (x: World<C>)
    requires
        refine::placed(set, w, id, node),
        durable::backed(w, id, node, stored),
        refine::heard(set, w, from, id, MessageView::<C>::InstallSnapshot(req)),
        node.commit.value <= stored.log.last_index(),
        req.term.value >= node.term().value,
        req.snapshot.last_index > node.commit.value,
        req.snapshot.last_index <= u64::MAX,
        node.persistent.pending_append.len() > 0,
        node.disposition_for(req.snapshot) == SuffixDisposition::Retain,
        steps >= 2,
    ensures
        steps::follows(w, x, id),
        comes_back(
            set,
            x,
            id,
            node.follow(req.term, req.leader_id).persistent.install_snapshot(
                req.snapshot,
                SuffixDisposition::Retain,
            ).replay_part(stored, steps),
        ),
{
    let p = w.peers[id];
    let t = req.term.value as nat;
    let n = req.snapshot.last_index;
    let base = node.follow(req.term, req.leader_id).persistent;
    let state = base.install_snapshot(req.snapshot, SuffixDisposition::Retain);
    let count = state.appended_part(steps);
    let message = MessageView::<C>::InstallSnapshot(req);
    protocol::lemma_peer(w, id);
    protocol::lemma_note(w, refine::snap_note(req));
    protocol::lemma_leader(w, t);
    refine::lemma_tail(node.log(), p.log);
    assert(w.elected(id));
    durable::lemma_unsaved_is_unknown(w, id, t, n - 1);
    let kept = stored.append(node.persistent.pending_append.take(count as int));
    let u = lemma_restart(set, w, id, node, stored, count);
    refine::lemma_heard_grows(set, w, u, from, id, message);
    let v = lemma_back_newer(set, u, id, kept, req.term);
    refine::lemma_heard_grows(set, u, v, from, id, message);
    steps::lemma_follows_trans(w, u, v, id);
    let x = lemma_back_installs(set, v, id, kept.set_meta(req.term, None), from, req);
    steps::lemma_follows_trans(w, v, x, id);
    let found = state.replay_part(stored, steps);
    let installed = kept.set_meta(req.term, None).install_snapshot(
        req.snapshot,
        SuffixDisposition::Retain,
    );
    assert(found.log.entries =~= installed.log.entries);
    assert(found =~= installed);
    x
}

/// A server that comes back with a snapshot from its leader that its log agrees with.
proof fn lemma_back_installs<C>(
    set: Setting<C>,
    w: World<C>,
    id: NodeId,
    stored: StoredView<C>,
    from: NodeId,
    req: InstallSnapshotView,
) -> (x: World<C>)
    requires
        comes_back(set, w, id, stored),
        !w.elected(id),
        refine::heard(set, w, from, id, MessageView::<C>::InstallSnapshot(req)),
        stored.term == req.term,
        stored.log.boundary < req.snapshot.last_index <= w.peers[id].log.len(),
        w.peers[id].log[req.snapshot.last_index - 1].term == req.snapshot.last_term,
    ensures
        steps::follows(w, x, id),
        comes_back(
            set,
            x,
            id,
            stored.install_snapshot(req.snapshot, SuffixDisposition::Retain),
        ),
{
    let p = w.peers[id];
    let t = req.term.value as nat;
    let n = req.snapshot.last_index;
    let theirs = w.leader_logs[t];
    protocol::lemma_peer(w, id);
    protocol::lemma_note(w, refine::snap_note(req));
    protocol::lemma_leader(w, t);
    refine::lemma_tail(stored.log, p.log);
    protocol::lemma_log_matching(w, p.log, 0, theirs, t, n - 1);
    steps::lemma_settled_transfers(w, theirs, p.log, n, t);
    steps::lemma_commit_to(w, id, n);
    let found = stored.install_snapshot(req.snapshot, SuffixDisposition::Retain);
    assert(found.log.entries =~= p.log.skip(n as int));
    steps::commit_to(w, id, n)
}

// ---- Any event ----
/// A crash while a request for a vote is handled.
proof fn lemma_interrupted_vote<C>(
    set: Setting<C>,
    w: World<C>,
    id: NodeId,
    node: NodeView<C>,
    stored: StoredView<C>,
    from: NodeId,
    req: RequestVote,
    steps: nat,
) -> (x: World<C>)
    requires
        refine::placed(set, w, id, node),
        durable::backed(w, id, node, stored),
        node.commit.value <= stored.log.last_index(),
        refine::heard(set, w, from, id, MessageView::<C>::RequestVote(req)),
    ensures
        steps::follows(w, x, id),
        comes_back(
            set,
            x,
            id,
            node.handle_request_vote(from, req).0.persistent.replay_part(stored, steps),
        ),
{
    let p = w.peers[id];
    let newer = req.term.value > node.term().value;
    let voter = if newer {
        node.become_follower(req.term, None)
    } else {
        node
    };
    let state = node.handle_request_vote(from, req).0.persistent;
    protocol::lemma_peer(w, id);
    refine::lemma_tail(node.log(), p.log);
    assert(protocol::last_term(p.log) <= u64::MAX) by {
        if p.log.len() > 0 {
            assert(p.log[p.log.len() - 1].term <= p.term);
        }
    }
    let change = if voter.should_grant_vote(req) {
        if voter.persistent.voted_for is None {
            Change::Granted { from, req }
        } else {
            Change::Same
        }
    } else if newer {
        Change::Newer
    } else {
        Change::Same
    };
    lemma_interrupted_change(set, w, id, node, stored, state, change, steps)
}

/// A crash while a response is handled that only a higher term makes a difference to.
proof fn lemma_interrupted_term<C>(
    set: Setting<C>,
    w: World<C>,
    id: NodeId,
    node: NodeView<C>,
    stored: StoredView<C>,
    term: Term,
    leader: Option<NodeId>,
    steps: nat,
) -> (x: World<C>)
    requires
        refine::placed(set, w, id, node),
        durable::backed(w, id, node, stored),
        node.commit.value <= stored.log.last_index(),
    ensures
        steps::follows(w, x, id),
        comes_back(
            set,
            x,
            id,
            node.become_follower(term, leader).persistent.replay_part(stored, steps),
        ),
{
    let state = node.become_follower(term, leader).persistent;
    let change = if term.value > node.term().value {
        Change::Newer
    } else {
        Change::Same
    };
    lemma_interrupted_change(set, w, id, node, stored, state, change, steps)
}

/// A crash while an election timeout is handled.
proof fn lemma_interrupted_timeout<C>(
    set: Setting<C>,
    w: World<C>,
    id: NodeId,
    node: NodeView<C>,
    stored: StoredView<C>,
    steps: nat,
) -> (x: World<C>)
    requires
        refine::placed(set, w, id, node),
        durable::backed(w, id, node, stored),
        durable::reaches(set, w, id, node, EventView::ElectionTimeout),
        node.commit.value <= stored.log.last_index(),
    ensures
        steps::follows(w, x, id),
        comes_back(
            set,
            x,
            id,
            node.election_timeout().0.persistent.replay_part(stored, steps),
        ),
{
    let event = EventView::<C>::ElectionTimeout;
    if node.role is Leader {
        lemma_interrupted_change(
            set,
            w,
            id,
            node,
            stored,
            node.persistent,
            Change::Same,
            steps,
        )
    } else {
        let candidate = node.stand();
        let state = candidate.persistent;
        if candidate.peers().len() == 0 {
            let entry = EntryView {
                term: candidate.term().value as nat,
                payload: log::PayloadView::NoOp,
            };
            lemma_interrupted_append(
                set,
                w,
                id,
                node,
                stored,
                event,
                state,
                entry,
                Change::Own,
                steps,
            )
        } else {
            lemma_interrupted_change(set, w, id, node, stored, state, Change::Own, steps)
        }
    }
}

/// A crash while a vote is counted.
proof fn lemma_interrupted_count<C>(
    set: Setting<C>,
    w: World<C>,
    id: NodeId,
    node: NodeView<C>,
    stored: StoredView<C>,
    from: NodeId,
    resp: RequestVoteResponse,
    steps: nat,
) -> (x: World<C>)
    requires
        refine::placed(set, w, id, node),
        durable::backed(w, id, node, stored),
        durable::reaches(
            set,
            w,
            id,
            node,
            EventView::Message { from, message: MessageView::RequestVoteResponse(resp) },
        ),
        node.commit.value <= stored.log.last_index(),
    ensures
        steps::follows(w, x, id),
        comes_back(
            set,
            x,
            id,
            node.handle_request_vote_response(from, resp).0.persistent.replay_part(
                stored,
                steps,
            ),
        ),
{
    let event = EventView::Message { from, message: MessageView::RequestVoteResponse(resp) };
    let after = node.handle_request_vote_response(from, resp).0;
    let entry = EntryView {
        term: node.term().value as nat,
        payload: log::PayloadView::NoOp,
    };
    if after.persistent == node.persistent.append_entry(entry) {
        lemma_interrupted_append(
            set,
            w,
            id,
            node,
            stored,
            event,
            node.persistent,
            entry,
            Change::Same,
            steps,
        )
    } else {
        assert(after.persistent == node.become_follower(resp.term, None).persistent);
        lemma_interrupted_term(set, w, id, node, stored, resp.term, None, steps)
    }
}

/// Whatever a server is handling when it crashes, and however much of it was stored, it comes back as
/// something that the protocol allows.
pub proof fn lemma_interrupted<C>(
    set: Setting<C>,
    w: World<C>,
    id: NodeId,
    node: NodeView<C>,
    stored: StoredView<C>,
    event: EventView<C>,
    steps: nat,
) -> (x: World<C>)
    requires
        refine::placed(set, w, id, node),
        durable::backed(w, id, node, stored),
        durable::reaches(set, w, id, node, event),
        node.commit.value <= stored.log.last_index(),
    ensures
        steps::follows(w, x, id),
        comes_back(
            set,
            x,
            id,
            event.step(node).0.persistent.replay_part(stored, steps),
        ),
{
    let zero = Term { value: 0 };
    match event {
        EventView::ElectionTimeout => lemma_interrupted_timeout(set, w, id, node, stored, steps),
        EventView::HeartbeatTimeout => lemma_interrupted_term(
            set,
            w,
            id,
            node,
            stored,
            zero,
            None,
            steps,
        ),
        EventView::Message { from, message } => match message {
            MessageView::RequestVote(m) => lemma_interrupted_vote(
                set,
                w,
                id,
                node,
                stored,
                from,
                m,
                steps,
            ),
            MessageView::RequestVoteResponse(m) => lemma_interrupted_count(
                set,
                w,
                id,
                node,
                stored,
                from,
                m,
                steps,
            ),
            MessageView::AppendEntries(m) => {
                let prev = m.prev_log_index.value as int;
                if m.term.value >= node.term().value && node.log().matches(
                    prev,
                    m.prev_log_term.value as nat,
                ) {
                    lemma_interrupted_entries(set, w, id, node, stored, from, m, steps)
                } else {
                    lemma_interrupted_term(set, w, id, node, stored, m.term, None, steps)
                }
            },
            MessageView::AppendEntriesResponse(m) => {
                let term = match m {
                    AppendEntriesResponse::Accepted { term, .. } => term,
                    AppendEntriesResponse::Rejected { term } => term,
                };
                lemma_interrupted_term(set, w, id, node, stored, term, None, steps)
            },
            MessageView::InstallSnapshot(m) => if m.term.value >= node.term().value
                && m.snapshot.last_index > node.commit.value {
                lemma_interrupted_install(set, w, id, node, stored, from, m, steps)
            } else {
                lemma_interrupted_term(set, w, id, node, stored, m.term, None, steps)
            },
            MessageView::InstallSnapshotResponse(m) => {
                let term = match m {
                    InstallSnapshotResponse::Installed { term, .. } => term,
                    InstallSnapshotResponse::Rejected { term } => term,
                };
                lemma_interrupted_term(set, w, id, node, stored, term, None, steps)
            },
        },
    }
}

} // verus!
