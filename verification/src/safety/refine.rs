//! A server that runs this library takes only steps of the protocol.
use vstd::prelude::*;

use super::protocol;
use super::protocol::Entries;
use super::protocol::Note;
use super::protocol::Peer;
use super::protocol::PeerRole;
use super::protocol::World;
use super::steps;
use crate::command::CommandView;
use crate::model::NodeView;
use crate::model::RoleView;
use crate::types::config::Members;
use crate::types::log;
use crate::types::log::LogView;
use crate::types::message::AppendEntriesResponse;
use crate::types::message::AppendEntriesView;
use crate::types::message::InstallSnapshotResponse;
use crate::types::message::InstallSnapshotView;
use crate::types::message::MessageView;
use crate::types::message::Vote;
use crate::types::primitives::NodeId;
use crate::types::snapshot::SnapshotView;

verus! {

/// What is the same throughout: who the servers are, the membership that the cluster starts with,
/// what each server is started with, and which snapshots tell the truth about the entries they stand
/// for.
#[verifier::reject_recursive_types(C)]
pub struct Setting<C> {
    pub servers: Set<NodeId>,
    pub initial: Members,
    pub boots: Map<NodeId, Members>,
    pub faithful: spec_fn(Seq<u8>, Entries<C>) -> bool,
}

/// The term of the entry with index `n`, where index 0 has term 0.
pub open spec fn term_at<C>(full: Entries<C>, n: nat) -> nat {
    if n == 0 {
        0
    } else {
        full[n - 1].term
    }
}

/// The membership that a log puts in force, with the addresses.
pub open spec fn members_in<C>(initial: Members, full: Entries<C>) -> Members {
    match log::latest_config(full) {
        Some(config) => config,
        None => initial,
    }
}

/// Whether `log` is what compaction has left of `full`.
pub open spec fn is_tail<C>(log: LogView<C>, full: Entries<C>) -> bool {
    &&& log.boundary <= full.len()
    &&& log.boundary_term == term_at(full, log.boundary)
    &&& log.entries == full.skip(log.boundary as int)
}

/// Whether `snapshot` covers what compaction took from `full`.
pub open spec fn covers<C>(
    set: Setting<C>,
    snapshot: Option<SnapshotView>,
    boundary: nat,
    full: Entries<C>,
) -> bool {
    &&& snapshot is Some <==> boundary > 0
    &&& snapshot matches Some(s) ==> {
        &&& s.last_index == boundary
        &&& s.last_term == term_at(full, boundary)
        &&& s.config == members_in(set.initial, full.take(boundary as int))
        &&& (set.faithful)(s.data, full.take(boundary as int))
    }
}

/// Whether a server knows the membership of the cluster: it was started with it, or has a snapshot, or
/// an entry that changes it.
pub open spec fn told<C>(
    set: Setting<C>,
    id: NodeId,
    snapshot: Option<SnapshotView>,
    entries: Entries<C>,
) -> bool {
    set.boots[id] == set.initial || snapshot is Some || log::latest_config(entries) is Some
}

/// Whether a node knows the membership of the cluster.
pub open spec fn informed<C>(set: Setting<C>, id: NodeId, node: NodeView<C>) -> bool {
    told(set, id, node.persistent.latest_snapshot, node.log().entries)
}

/// The membership that a node goes by.
pub open spec fn config_for<C>(
    set: Setting<C>,
    id: NodeId,
    node: NodeView<C>,
    full: Entries<C>,
) -> Members {
    if informed(set, id, node) {
        members_in(set.initial, full)
    } else {
        set.boots[id]
    }
}

/// Whether a server has the role that the protocol has it in.
pub open spec fn same_role<C>(
    set: Setting<C>,
    id: NodeId,
    role: RoleView,
    other: PeerRole,
    last: nat,
) -> bool {
    match (role, other) {
        (RoleView::Follower(_), PeerRole::Follower) => true,
        (RoleView::Candidate(votes), PeerRole::Candidate(granted)) => votes == granted,
        (RoleView::Leader(leader), PeerRole::Leader(matched)) => {
            &&& leader.matched == matched
            &&& leader.next.dom().finite()
            &&& leader.next.dom().subset_of(set.servers.remove(id))
            &&& forall|v: NodeId| #[trigger]
                leader.next.dom().contains(v) ==> leader.next[v].value <= last + 1
        },
        _ => false,
    }
}

/// Whether a node is what the protocol calls `p`.
pub open spec fn is_peer<C>(set: Setting<C>, id: NodeId, node: NodeView<C>, p: Peer<C>) -> bool {
    &&& node.id == id
    &&& node.config == config_for(set, id, node, p.log)
    &&& node.initial_config == set.boots[id]
    &&& !(node.role is Follower) ==> informed(set, id, node)
    &&& node.term().value == p.term
    &&& node.persistent.voted_for == p.vote
    &&& p.log.len() <= u64::MAX
    &&& is_tail(node.log(), p.log)
    &&& covers(set, node.persistent.latest_snapshot, node.log().boundary, p.log)
    &&& node.commit.value == p.commit
    &&& node.log().boundary <= node.applied.value <= node.commit.value
    &&& same_role(set, id, node.role, p.role, p.log.len())
    &&& node.to_restore matches Some(s) ==> {
        &&& s.last_index == node.applied.value
        &&& (set.faithful)(s.data, p.log.take(node.applied.value as int))
    }
}

/// Whether `message` is something that the protocol knows `from` to have said to `to`.
pub open spec fn heard<C>(
    set: Setting<C>,
    w: World<C>,
    from: NodeId,
    to: NodeId,
    message: MessageView<C>,
) -> bool {
    &&& from != to
    &&& w.servers.contains(from)
    &&& w.servers.contains(to)
    &&& match message {
        MessageView::RequestVote(m) => {
            &&& m.candidate_id == from
            &&& w.notes.contains(
                Note::VoteRequest {
                    term: m.term.value as nat,
                    candidate: from,
                    last_index: m.last_log_index.value as nat,
                    last_term: m.last_log_term.value as nat,
                },
            )
        },
        MessageView::RequestVoteResponse(m) => m.vote == Vote::Granted ==> w.notes.contains(
            Note::Grant { term: m.term.value as nat, voter: from, candidate: to },
        ),
        MessageView::AppendEntries(m) => {
            &&& m.leader_id == from
            &&& w.led(m.term.value as nat)
            &&& w.leaders[m.term.value as nat] == from
            &&& w.notes.contains(append_note(m))
        },
        MessageView::AppendEntriesResponse(m) => m matches AppendEntriesResponse::Accepted {
            term,
            match_index,
        } ==> w.notes.contains(
            Note::Ack { term: term.value as nat, from, index: match_index.value as nat },
        ),
        MessageView::InstallSnapshot(m) => {
            let t = m.term.value as nat;
            &&& m.leader_id == from
            &&& w.led(t)
            &&& w.leaders[t] == from
            &&& m.snapshot.config == members_in(
                set.initial,
                w.leader_logs[t].take(m.snapshot.last_index as int),
            )
            &&& (set.faithful)(
                m.snapshot.data,
                w.leader_logs[t].take(m.snapshot.last_index as int),
            )
            &&& w.notes.contains(snap_note(m))
        },
        MessageView::InstallSnapshotResponse(m) => m matches InstallSnapshotResponse::Installed {
            term,
            last_index,
        } ==> w.notes.contains(
            Note::Ack { term: term.value as nat, from, index: last_index.value as nat },
        ),
    }
}

/// What replicating entries amounts to in the protocol.
pub open spec fn append_note<C>(m: AppendEntriesView<C>) -> Note<C> {
    Note::Append {
        term: m.term.value as nat,
        prev: m.prev_log_index.value as nat,
        prev_term: m.prev_log_term.value as nat,
        entries: m.entries,
        commit: m.leader_commit.value as nat,
    }
}

/// What sending a snapshot amounts to in the protocol.
pub open spec fn snap_note<C>(m: InstallSnapshotView) -> Note<C> {
    Note::Snap {
        term: m.term.value as nat,
        index: m.snapshot.last_index,
        index_term: m.snapshot.last_term,
    }
}

/// Whether everything that `id` sends is something it has said.
pub open spec fn all_said<C>(
    set: Setting<C>,
    w: World<C>,
    id: NodeId,
    commands: Seq<CommandView<C>>,
) -> bool {
    forall|i: int|
        0 <= i < commands.len() ==> ((#[trigger] commands[i]) matches CommandView::Send {
            to,
            message,
        } ==> heard(set, w, id, to, message))
}

/// Whether `node` is the server `id` of the world.
pub open spec fn placed<C>(set: Setting<C>, w: World<C>, id: NodeId, node: NodeView<C>) -> bool {
    &&& w.inv()
    &&& w.servers == set.servers
    &&& w.initial == set.initial
    &&& w.servers.contains(id)
    &&& is_peer(set, id, node, w.peers[id])
}

/// Whether `node` is the server `id` of the world, with everything stored.
pub open spec fn ready<C>(set: Setting<C>, w: World<C>, id: NodeId, node: NodeView<C>) -> bool {
    &&& placed(set, w, id, node)
    &&& w.peers[id].durable == w.peers[id].log.len()
    &&& w.elected(id) ==> w.shown[w.peers[id].term] == w.peers[id].log.len()
}

/// Whether the step from `node` to `after` is one that the protocol takes from `w` to `x`.
pub open spec fn refined<C>(
    set: Setting<C>,
    w: World<C>,
    x: World<C>,
    id: NodeId,
    node: NodeView<C>,
    after: NodeView<C>,
) -> bool {
    &&& ready(set, x, id, after)
    &&& steps::follows(w, x, id)
    &&& protocol::agree(x.peers[id].log, w.peers[id].log, w.peers[id].commit)
    &&& after.commit.value >= node.commit.value
    &&& after.to_restore is Some || (after.to_restore == node.to_restore && after.applied
        == node.applied)
}

/// Two steps of the protocol are one after the other.
pub proof fn lemma_refined_trans<C>(
    set: Setting<C>,
    w: World<C>,
    x: World<C>,
    y: World<C>,
    id: NodeId,
    a: NodeView<C>,
    b: NodeView<C>,
    c: NodeView<C>,
)
    requires
        w.inv(),
        w.servers.contains(id),
        w.peers[id].commit == a.commit.value,
        refined(set, w, x, id, a, b),
        refined(set, x, y, id, b, c),
    ensures
        refined(set, w, y, id, a, c),
{
    steps::lemma_follows_trans(w, x, y, id);
    let n = w.peers[id].commit;
    protocol::lemma_agree_shorter(y.peers[id].log, x.peers[id].log, x.peers[id].commit, n);
    protocol::lemma_agree_trans(y.peers[id].log, x.peers[id].log, w.peers[id].log, n);
}

/// What was said stays said.
pub proof fn lemma_heard_grows<C>(
    set: Setting<C>,
    w: World<C>,
    x: World<C>,
    from: NodeId,
    to: NodeId,
    message: MessageView<C>,
)
    requires
        w.inv(),
        steps::grows(w, x),
        heard(set, w, from, to, message),
    ensures
        heard(set, x, from, to, message),
{
    if let MessageView::InstallSnapshot(m) = message {
        let t = m.term.value as nat;
        protocol::lemma_note(w, snap_note(m));
        protocol::lemma_leader(w, t);
        let (old, new) = (w.leader_logs[t], x.leader_logs[t]);
        let n = m.snapshot.last_index as int;
        assert(new.take(n) =~= new.take(old.len() as int).take(n));
    }
}

// ---- Memberships ----
/// The newest membership change of two logs, one behind the other.
pub proof fn lemma_latest_concat<C>(a: Entries<C>, b: Entries<C>)
    ensures
        log::latest_config(a + b) == match log::latest_config(b) {
            Some(config) => Some(config),
            None => log::latest_config(a),
        },
    decreases b.len(),
{
    if b.len() == 0 {
        assert(a + b =~= a);
    } else {
        assert((a + b).drop_last() =~= a + b.drop_last());
        lemma_latest_concat(a, b.drop_last());
    }
}

/// Where there is no membership change, there is no newest one.
pub proof fn lemma_no_latest_config<C>(entries: Entries<C>)
    requires
        !log::has_config_change(entries),
    ensures
        log::latest_config(entries) is None,
    decreases entries.len(),
{
    if entries.len() > 0 {
        assert(!(entries[entries.len() - 1].payload is ConfigChange));
        assert forall|i: int| 0 <= i < entries.drop_last().len() implies !((
        #[trigger] entries.drop_last()[i]).payload is ConfigChange) by {
            assert(entries.drop_last()[i] == entries[i]);
        }
        lemma_no_latest_config(entries.drop_last());
    }
}

/// Entries without a membership change leave the membership as it is.
pub proof fn lemma_members_stay<C>(initial: Members, full: Entries<C>, more: Entries<C>)
    requires
        !log::has_config_change(more),
    ensures
        members_in(initial, full + more) == members_in(initial, full),
{
    lemma_latest_concat(full, more);
    lemma_no_latest_config(more);
}

/// What a node reads off its log and its snapshot is the membership that its whole log puts in force,
/// if it has been told of one.
pub proof fn lemma_config_from<C>(
    set: Setting<C>,
    id: NodeId,
    node: NodeView<C>,
    full: Entries<C>,
    n: nat,
)
    requires
        node.initial_config == set.boots[id],
        is_tail(node.log(), full),
        covers(set, node.persistent.latest_snapshot, node.log().boundary, full),
        node.log().boundary <= n <= full.len(),
    ensures
        told(
            set,
            id,
            node.persistent.latest_snapshot,
            node.log().through(n as int),
        ) ==> node.config_from(node.log().through(n as int)) == members_in(
            set.initial,
            full.take(n as int),
        ),
        n == full.len() ==> node.config_from(node.log().entries) == config_for(
            set,
            id,
            node,
            full,
        ),
{
    let b = node.log().boundary as int;
    let part = full.take(n as int);
    let rest = full.subrange(b, n as int);
    assert(part =~= full.take(b) + rest);
    lemma_latest_concat(full.take(b), rest);
    assert(node.log().through(n as int) =~= rest);
    if b == 0 {
        assert(full.take(0).len() == 0);
    }
    if n == full.len() {
        assert(part =~= full);
        assert(node.log().entries =~= rest);
    }
}

/// A node that goes by the newest membership of its log goes by that of its whole log.
pub proof fn lemma_adopts<C>(set: Setting<C>, id: NodeId, node: NodeView<C>, full: Entries<C>)
    requires
        node.initial_config == set.boots[id],
        is_tail(node.log(), full),
        covers(set, node.persistent.latest_snapshot, node.log().boundary, full),
        !(node.role is Leader),
    ensures
        node.adopt_latest_config() == (NodeView {
            config: config_for(set, id, node, full),
            config_changes: node.adopt_latest_config().config_changes,
            ..node
        }),
{
    lemma_config_from(set, id, node, full, full.len());
}

// ---- Logs ----
/// What a server knows of its log, it knows of the whole log.
pub proof fn lemma_tail<C>(log: LogView<C>, full: Entries<C>)
    requires
        is_tail(log, full),
    ensures
        log.last_index() == full.len(),
        log.last_term() == protocol::last_term(full),
        forall|i: int| #[trigger] log.knows(i) ==> log.term_of(i) == term_at(full, i as nat),
        forall|i: int| log.retains(i) ==> #[trigger] log.at(i) == full[i - 1],
        forall|i: int|
            log.boundary < i <= full.len() + 1 ==> #[trigger] log.suffix_from(i) == full.skip(
                i - 1,
            ),
{
    assert forall|i: int| log.boundary < i <= full.len() + 1 implies #[trigger] log.suffix_from(i)
        == full.skip(i - 1) by {
        assert(log.suffix_from(i) =~= full.skip(i - 1));
    }
}

/// The whole log as a log that was never compacted.
pub open spec fn uncompacted<C>(full: Entries<C>) -> LogView<C> {
    LogView { boundary: 0, boundary_term: 0, entries: full }
}

/// A follower that accepts entries ends up with a part of its leader's log, and loses nothing it
/// had in common with it.
pub proof fn lemma_accept<C>(
    w: World<C>,
    a: NodeId,
    prev: nat,
    prev_term: nat,
    entries: Entries<C>,
    commit: nat,
)
    requires
        w.inv(),
        w.servers.contains(a),
        w.peers[a].role is Follower,
        !w.elected(a),
        w.notes.contains(
            Note::Append { term: w.peers[a].term, prev, prev_term, entries, commit },
        ),
        prev <= w.peers[a].log.len(),
        term_at(w.peers[a].log, prev) == prev_term,
    ensures
        ({
            let p = w.peers[a];
            let full = uncompacted(p.log).merge(prev, entries).entries;
            let theirs = w.leader_logs[p.term];
            &&& w.led(p.term)
            &&& full.len() <= w.shown[p.term]
            &&& full.len() <= p.log.len() || full.len() == prev + entries.len()
            &&& protocol::agree(full, theirs, full.len())
            &&& forall|n: nat| #[trigger] protocol::agree(p.log, theirs, n) ==> n <= full.len()
        }),
{
    let p = w.peers[a];
    let t = p.term;
    let theirs = w.leader_logs[t];
    let note = Note::Append { term: t, prev, prev_term, entries, commit };
    let end = prev + entries.len();
    protocol::lemma_note(w, note);
    protocol::lemma_peer(w, a);
    protocol::lemma_leader(w, t);
    let view = uncompacted(p.log);
    let full = view.merge(prev, entries).entries;
    log::lemma_held(view, prev, entries);
    let n = view.held(prev, entries);
    // The log and the leader's are the same through what is held.
    let common = prev + n;
    if n > 0 {
        assert(view.holds(prev, entries, n - 1));
        assert(entries[n - 1] == theirs[common - 1]);
    }
    assert(common <= p.log.len());
    if common > 0 {
        assert(p.log[common - 1].term == theirs[common - 1].term);
        protocol::lemma_log_matching(w, p.log, 0, theirs, t, common - 1);
    } else {
        assert(p.log.take(0) =~= theirs.take(0));
    }
    assert(protocol::agree(p.log, theirs, common));
    if n == entries.len() {
        assert(full == p.log);
        assert(theirs[end - 1].term == t);
        assert(p.log[end - 1].term == t);
        let last = p.log.len() - 1;
        assert(p.log[end - 1].term <= p.log[last].term);
        assert(w.grounded(p.log, last, 0));
    } else {
        assert(!view.holds(prev, entries, n as int));
        assert(entries[n as int] == theirs[common as int]);
        let cut = view.truncate_from((common + 1) as int).entries;
        assert(cut =~= p.log.take(common as int));
        assert(full =~= p.log.take(common as int) + entries.skip(n as int));
        assert(full =~= theirs.take(end as int)) by {
            assert forall|k: int| 0 <= k < end implies full[k] == theirs[k] by {
                if k < common {
                    protocol::lemma_agree_at(p.log, theirs, common, k);
                }
            }
        }
        assert(full.take(end as int) =~= full);
        assert forall|m: nat| #[trigger] protocol::agree(p.log, theirs, m) implies m
            <= full.len() by {
            if m > common {
                protocol::lemma_agree_at(p.log, theirs, m, common as int);
                assert(view.at(common + 1int) == p.log[common as int]);
            }
        }
    }
}

/// Merging into a compacted log is merging into the whole log, where the compacted part is the
/// leader's.
pub proof fn lemma_merge_tail<C>(
    log: LogView<C>,
    full: Entries<C>,
    theirs: Entries<C>,
    prev: nat,
    incoming: Entries<C>,
)
    requires
        is_tail(log, full),
        prev <= full.len(),
        prev + incoming.len() <= theirs.len(),
        incoming == theirs.subrange(prev as int, (prev + incoming.len()) as int),
        protocol::agree(full, theirs, log.boundary),
    ensures
        log.held(prev, incoming) == uncompacted(full).held(prev, incoming),
        is_tail(log.merge(prev, incoming), uncompacted(full).merge(prev, incoming).entries),
        log.merge(prev, incoming).boundary == log.boundary,
        log.conflict(prev, incoming) == uncompacted(full).conflict(prev, incoming),
{
    let view = uncompacted(full);
    assert forall|k: int| 0 <= k < incoming.len() implies log.holds(prev, incoming, k)
        == #[trigger] view.holds(prev, incoming, k) by {
        let index = prev + 1 + k;
        if index <= log.boundary {
            protocol::lemma_agree_at(full, theirs, log.boundary, index - 1);
            assert(view.at(index) == full[index - 1]);
        } else if index <= full.len() {
            assert(log.at(index) == view.at(index));
        }
    }
    log::lemma_held(log, prev, incoming);
    let n = log.held(prev, incoming);
    assert(view.held_prefix(prev, incoming, n)) by {
        assert forall|k: int| 0 <= k < n implies #[trigger] view.holds(prev, incoming, k) by {
            assert(log.holds(prev, incoming, k));
        }
    }
    log::lemma_held_unique(view, prev, incoming, n);
    if n < incoming.len() {
        let cut = (prev + 1 + n) as int;
        let after = view.merge(prev, incoming).entries;
        if n > 0 {
            assert(view.holds(prev, incoming, n - 1));
        }
        assert(!log.holds(prev, incoming, n as int));
        assert(log.truncate_from(cut).entries =~= full.take(cut - 1).skip(log.boundary as int));
        assert(view.truncate_from(cut).entries =~= full.take(cut - 1));
        assert(log.merge(prev, incoming).entries =~= after.skip(log.boundary as int));
        assert(term_at(after, log.boundary) == term_at(full, log.boundary));
    }
}

} // verus!
