//! Each thing a node does, as steps of the protocol.
use vstd::prelude::*;

use super::protocol;
use super::protocol::Entries;
use super::protocol::Note;
use super::protocol::Peer;
use super::protocol::World;
use super::refine;
use super::refine::Setting;
use super::steps;
use crate::command::CommandView;
use crate::model;
use crate::model::NodeView;
use crate::model::RoleView;
use crate::state::LeaderView;
use crate::types::config::Members;
use crate::types::log;
use crate::types::log::EntryView;
use crate::types::log::PayloadView;
use crate::types::message::AppendEntriesResponse;
use crate::types::message::AppendEntriesView;
use crate::types::message::InstallSnapshotResponse;
use crate::types::message::InstallSnapshotView;
use crate::types::message::MessageView;
use crate::types::message::RequestVote;
use crate::types::message::RequestVoteResponse;
use crate::types::message::Vote;
use crate::types::node_map;
use crate::types::primitives::LogIndex;
use crate::types::primitives::NodeId;
use crate::types::primitives::Term;
use crate::types::quorum;
use crate::types::snapshot::SnapshotView;

verus! {

// ---- Roles ----
/// A node that learns of a higher term.
pub proof fn lemma_become_follower<C>(
    set: Setting<C>,
    w: World<C>,
    id: NodeId,
    node: NodeView<C>,
    term: Term,
    leader: Option<NodeId>,
) -> (x: World<C>)
    requires
        refine::ready(set, w, id, node),
        term.value > node.term().value,
    ensures
        refine::refined(set, w, x, id, node, node.become_follower(term, leader)),
        x == steps::adopt_term(w, id, term.value as nat),
{
    let x = steps::adopt_term(w, id, term.value as nat);
    steps::lemma_adopt_term(w, id, term.value as nat);
    lemma_same_log(w, x, id);
    if x.elected(id) {
        protocol::lemma_leader(w, term.value as nat);
    }
    x
}

/// A log that is untouched agrees with itself on what is committed.
proof fn lemma_same_log<C>(w: World<C>, x: World<C>, id: NodeId)
    requires
        w.inv(),
        w.servers.contains(id),
        x.peers[id].log == w.peers[id].log,
    ensures
        protocol::agree(x.peers[id].log, w.peers[id].log, w.peers[id].commit),
{
    protocol::lemma_peer(w, id);
}

/// A node that hears from the leader of its term, or of a later one.
pub proof fn lemma_follow<C>(
    set: Setting<C>,
    w: World<C>,
    id: NodeId,
    node: NodeView<C>,
    term: Term,
    leader: NodeId,
) -> (x: World<C>)
    requires
        refine::ready(set, w, id, node),
        term.value >= node.term().value,
        w.led(term.value as nat),
        w.leaders[term.value as nat] == leader,
        leader != id,
    ensures
        refine::refined(set, w, x, id, node, node.follow(term, leader)),
        x.peers[id].role is Follower,
        !x.elected(id),
        x.peers[id].log == w.peers[id].log,
        node.follow(term, leader).term() == term,
        node.follow(term, leader).persistent.log == node.persistent.log,
{
    protocol::lemma_peer(w, id);
    if term.value > node.term().value {
        let x = lemma_become_follower(set, w, id, node, term, Some(leader));
        assert(x.leaders[term.value as nat] == leader);
        x
    } else {
        assert(!w.elected(id));
        let x = steps::concede(w, id);
        steps::lemma_concede(w, id);
        lemma_same_log(w, x, id);
        x
    }
}

// ---- Commitment ----
/// There is a highest index through which a majority has the log.
proof fn lemma_majority_index_from<C>(node: NodeView<C>, leader: LeaderView, n: nat) -> (index:
    LogIndex)
    requires
        node.majority_holds(leader, n),
        node.config.dom().finite(),
    ensures
        node.majority_holds(leader, index.value as nat),
        forall|other: nat| #[trigger] node.majority_holds(leader, other) ==> other <= index.value,
    decreases u64::MAX - n,
{
    assert(n <= u64::MAX) by {
        let held = node.holders(leader, n);
        vstd::set_lib::lemma_len_subset(held, node.config.dom());
        if held.len() > 0 {
            let v = held.choose();
            assert(held.contains(v));
            assert(node.progress(leader, v).value >= n);
        }
    }
    if exists|more: nat| more > n && #[trigger] node.majority_holds(leader, more) {
        let more = choose|more: nat| more > n && #[trigger] node.majority_holds(leader, more);
        assert(more <= u64::MAX) by {
            let held = node.holders(leader, more);
            vstd::set_lib::lemma_len_subset(held, node.config.dom());
            let v = held.choose();
            assert(held.contains(v));
            assert(node.progress(leader, v).value >= more);
        }
        lemma_majority_index_from(node, leader, more)
    } else {
        LogIndex { value: n as u64 }
    }
}

/// The highest such index is one, and none is higher.
pub proof fn lemma_majority_index<C>(node: NodeView<C>, leader: LeaderView)
    requires
        node.config.dom().finite(),
        node.config.dom().len() >= 1,
    ensures
        node.majority_holds(leader, node.majority_index(leader).value as nat),
        forall|other: nat| #[trigger]
            node.majority_holds(leader, other) ==> other <= node.majority_index(leader).value,
{
    assert(node.holders(leader, 0) =~= node.config.dom());
    let size = node.config.dom().len();
    assert(size / 2 + 1 <= size);
    assert(node.majority_holds(leader, 0));
    let index = lemma_majority_index_from(node, leader, 0);
    assert(node.majority_holds(leader, index.value as nat));
}

/// An acknowledgement covers everything before it.
proof fn lemma_acked_less<C>(w: World<C>, v: NodeId, t: nat, n: nat, m: nat)
    requires
        w.acked(v, t, n),
        m <= n,
    ensures
        w.acked(v, t, m),
{
    if exists|index: nat|
        index >= n && #[trigger] w.notes.contains(Note::Ack { term: t, from: v, index }) {
        let index = choose|index: nat|
            index >= n && #[trigger] w.notes.contains(Note::Ack { term: t, from: v, index });
        assert(index >= m && w.notes.contains(Note::Ack { term: t, from: v, index }));
    }
}

/// Those who hold the log of a leader, other than itself, have acknowledged it.
proof fn lemma_holders_acked<C>(
    set: Setting<C>,
    w: World<C>,
    id: NodeId,
    node: NodeView<C>,
    n: nat,
)
    requires
        refine::placed(set, w, id, node),
        node.role is Leader,
        n > 0,
    ensures
        forall|v: NodeId| #[trigger]
            node.holders(node.role->Leader_0, n).contains(v) && v != id ==> w.acked(
                v,
                w.peers[id].term,
                n,
            ),
{
    let leader = node.role->Leader_0;
    let t = w.peers[id].term;
    protocol::lemma_peer(w, id);
    assert forall|v: NodeId| #[trigger]
        node.holders(leader, n).contains(v) && v != id implies w.acked(v, t, n) by {
        assert(leader.matched_by(v).value >= n);
        assert(leader.matched.dom().contains(v) && leader.matched[v].value > 0);
        lemma_acked_less(w, v, t, leader.matched[v].value as nat, n);
    }
}

/// A leader that commits what a majority has, and steps down once its own removal is committed. A
/// lone member counts as stored what it commits.
pub proof fn lemma_advance_commit<C>(set: Setting<C>, w: World<C>, id: NodeId, node: NodeView<C>) -> (x:
    World<C>)
    requires
        refine::placed(set, w, id, node),
        node.role is Leader,
    ensures
        refine::placed(set, x, id, node.advance_commit()),
        steps::follows(w, x, id),
        x.elected(id),
        x.peers[id] == (Peer {
            commit: x.peers[id].commit,
            role: x.peers[id].role,
            durable: x.peers[id].durable,
            ..w.peers[id]
        }),
        x.peers[id].durable == w.peers[id].durable || (x.peers[id].durable
            == w.peers[id].log.len() && node.advance_commit().commit.value
            > w.peers[id].durable),
        x.shown == w.shown,
        node.advance_commit() == (NodeView {
            commit: node.advance_commit().commit,
            role: node.advance_commit().role,
            ..node
        }),
        node.advance_commit().commit.value >= node.commit.value,
{
    let leader = node.role->Leader_0;
    let index = node.majority_index(leader);
    let p = w.peers[id];
    protocol::lemma_peer(w, id);
    if node.may_commit(index) {
        let n = index.value as nat;
        protocol::lemma_config_fit(w, p.log, w.exempt(id));
        lemma_majority_index(node, leader);
        refine::lemma_tail(node.log(), p.log);
        let q = node.holders(leader, n);
        let v = if n > p.durable && q == set![id] {
            steps::lemma_vouch(w, id, p.log.len());
            steps::vouch(w, id, p.log.len())
        } else {
            steps::lemma_follows_self(w, id);
            w
        };
        lemma_holders_acked(set, v, id, node, n);
        steps::lemma_majority_settles(v, id, n, q);
        steps::lemma_commit_to(v, id, n);
        let y = steps::commit_to(v, id, n);
        steps::lemma_follows_trans(w, v, y, id);
        if node.commit_through(index).role is Leader {
            y
        } else {
            steps::lemma_concede(y, id);
            let x = steps::concede(y, id);
            steps::lemma_follows_trans(w, y, x, id);
            x
        }
    } else {
        steps::lemma_follows_self(w, id);
        w
    }
}

// ---- Replication ----
/// What a leader sends to a peer is in the protocol.
proof fn lemma_replication_message<C>(
    set: Setting<C>,
    w: World<C>,
    id: NodeId,
    node: NodeView<C>,
    next: LogIndex,
)
    requires
        refine::ready(set, w, id, node),
        node.role is Leader,
        next.value <= w.peers[id].log.len() + 1,
    ensures
        ({
            let t = node.term().value as nat;
            &&& w.led(t)
            &&& w.leaders[t] == id
            &&& match node.replication_message(next) {
                MessageView::AppendEntries(m) => {
                    &&& w.note_ok(refine::append_note(m))
                    &&& m.term == node.term()
                    &&& m.leader_id == id
                },
                MessageView::InstallSnapshot(m) => {
                    &&& w.note_ok(refine::snap_note(m))
                    &&& m.term == node.term()
                    &&& m.leader_id == id
                    &&& m.snapshot.config == refine::members_in(
                        set.initial,
                        w.leader_logs[t].take(m.snapshot.last_index as int),
                    )
                    &&& (set.faithful)(
                        m.snapshot.data,
                        w.leader_logs[t].take(m.snapshot.last_index as int),
                    )
                },
                _ => false,
            }
        }),
{
    let p = w.peers[id];
    let t = p.term;
    protocol::lemma_peer(w, id);
    protocol::lemma_leader(w, t);
    refine::lemma_tail(node.log(), p.log);
    if next.value <= node.log().boundary && node.persistent.latest_snapshot is Some {
        steps::lemma_settled_shorter(w, p.log, p.commit, node.log().boundary, t);
    } else {
        let m = node.replication_message(next)->AppendEntries_0;
        let prev = m.prev_log_index.value as int;
        assert(node.log().knows(prev));
        if next.value == 0 {
            assert(m.entries =~= p.log.skip(0));
        }
        assert(m.entries =~= p.log.skip(prev));
        assert(m.entries =~= p.log.subrange(prev, p.log.len() as int));
        assert(node.log().term_of(prev) <= u64::MAX) by {
            if prev > 0 {
                assert(p.log[prev - 1].term <= t);
            }
        }
    }
}

/// What a leader sends to all its peers is in the protocol.
pub proof fn lemma_heartbeats<C>(set: Setting<C>, w: World<C>, id: NodeId, node: NodeView<C>) -> (x:
    World<C>)
    requires
        refine::ready(set, w, id, node),
    ensures
        refine::refined(set, w, x, id, node, node),
        refine::all_said(set, x, id, node.heartbeats()),
{
    if let RoleView::Leader(leader) = node.role {
        let said = Set::new(
            |note: Note<C>|
                exists|v: NodeId| #[trigger]
                    leader.next.dom().contains(v) && match node.replication_message(
                        leader.next[v],
                    ) {
                        MessageView::AppendEntries(m) => note == refine::append_note(m),
                        MessageView::InstallSnapshot(m) => note == refine::snap_note::<C>(m),
                        _ => false,
                    },
        );
        assert forall|note: Note<C>| #[trigger] said.contains(note) implies w.note_ok(note) && !(
        note is Ack) by {
            let v = choose|v: NodeId| #[trigger]
                leader.next.dom().contains(v) && match node.replication_message(leader.next[v]) {
                    MessageView::AppendEntries(m) => note == refine::append_note(m),
                    MessageView::InstallSnapshot(m) => note == refine::snap_note::<C>(m),
                    _ => false,
                };
            lemma_replication_message(set, w, id, node, leader.next[v]);
        }
        let x = steps::say(w, said);
        steps::lemma_say(w, id, said);
        protocol::lemma_peer(w, id);
        lemma_same_log(w, x, id);
        let peers = node_map::in_order(leader.next.dom());
        node_map::lemma_in_order(leader.next.dom());
        assert forall|i: int| 0 <= i < node.heartbeats().len() implies ((
        #[trigger] node.heartbeats()[i]) matches CommandView::Send { to, message }
            ==> refine::heard(set, x, id, to, message)) by {
            if i < peers.len() {
                let v = peers[i];
                assert(peers.to_set().contains(v));
                lemma_replication_message(set, w, id, node, leader.next[v]);
                let message = node.replication_message(leader.next[v]);
                assert(node.heartbeats()[i] == model::send(v, message));
                match message {
                    MessageView::AppendEntries(m) => {
                        assert(said.contains(refine::append_note(m)));
                    },
                    MessageView::InstallSnapshot(m) => {
                        assert(said.contains(refine::snap_note(m)));
                    },
                    _ => {},
                }
            }
        }
        x
    } else {
        steps::lemma_follows_self(w, id);
        lemma_same_log(w, w, id);
        w
    }
}

/// Whether handling something led from `node` to `step` as the protocol leads from `w` to `x`.
pub open spec fn carried_out<C>(
    set: Setting<C>,
    w: World<C>,
    x: World<C>,
    id: NodeId,
    node: NodeView<C>,
    step: model::Step<C>,
) -> bool {
    &&& refine::refined(set, w, x, id, node, step.0)
    &&& refine::all_said(set, x, id, step.1)
}

/// A reply that was said, alone or after restarting the election timer.
proof fn lemma_reply_said<C>(
    set: Setting<C>,
    w: World<C>,
    id: NodeId,
    to: NodeId,
    message: MessageView<C>,
)
    requires
        refine::heard(set, w, id, to, message),
    ensures
        refine::all_said(set, w, id, seq![model::send(to, message)]),
        refine::all_said(
            set,
            w,
            id,
            seq![CommandView::ResetElectionTimer, model::send(to, message)],
        ),
{
}

/// A node that does nothing.
proof fn lemma_idle<C>(set: Setting<C>, w: World<C>, id: NodeId, node: NodeView<C>)
    requires
        refine::ready(set, w, id, node),
    ensures
        refine::refined(set, w, w, id, node, node),
{
    steps::lemma_follows_self(w, id);
    lemma_same_log(w, w, id);
}

// ---- Elections ----
/// A node whose election timeout fires.
pub proof fn lemma_election_timeout<C>(
    set: Setting<C>,
    w: World<C>,
    id: NodeId,
    node: NodeView<C>,
) -> (x: World<C>)
    requires
        refine::ready(set, w, id, node),
        node.log().last_index() < u64::MAX,
        node.term().value < u64::MAX,
        refine::informed(set, id, node),
        node.config.dom().contains(id),
    ensures
        carried_out(set, w, x, id, node, node.election_timeout()),
{
    if node.role is Leader {
        lemma_idle(set, w, id, node);
        w
    } else {
        let y = steps::stand(w, id);
        steps::lemma_stand(w, id);
        let candidate = node.stand();
        protocol::lemma_peer(w, id);
        protocol::lemma_peer(y, id);
        lemma_same_log(w, y, id);
        assert(refine::refined(set, w, y, id, node, candidate));
        protocol::lemma_config_fit(w, w.peers[id].log, w.exempt(id));
        if candidate.peers().len() == 0 {
            assert(set![id] =~= node.config.dom()) by {
                assert(node.config.dom().remove(id) =~= Set::empty());
            }
            let x = lemma_become_leader(set, y, id, candidate);
            let after = candidate.become_leader().0;
            refine::lemma_refined_trans(set, w, y, x, id, node, candidate, after);
            return x;
        }
        refine::lemma_tail(node.log(), w.peers[id].log);
        let log = w.peers[id].log;
        assert(protocol::last_term(log) <= u64::MAX) by {
            if log.len() > 0 {
                assert(log[log.len() - 1].term <= w.peers[id].term);
            }
        }
        let request = candidate.vote_request();
        let note = Note::<C>::VoteRequest {
            term: request.term.value as nat,
            candidate: id,
            last_index: request.last_log_index.value as nat,
            last_term: request.last_log_term.value as nat,
        };
        assert(y.voted(id, request.term.value as nat));
        assert(y.note_ok(note));
        let x = steps::say(y, set![note]);
        steps::lemma_say(y, id, set![note]);
        steps::lemma_follows_trans(w, y, x, id);
        let peers = node_map::in_order(candidate.peers());
        node_map::lemma_in_order(candidate.peers());
        let commands = node.election_timeout().1;
        assert(candidate.peers().len() > 0);
        assert forall|i: int| 0 <= i < commands.len() implies ((
        #[trigger] commands[i]) matches CommandView::Send { to, message } ==> refine::heard(
            set,
            x,
            id,
            to,
            message,
        )) by {
            if i < peers.len() {
                assert(peers.to_set().contains(peers[i]));
                assert(commands[i] == model::send(
                    peers[i],
                    MessageView::<C>::RequestVote(request),
                ));
                assert(x.notes.contains(note));
            }
        }
        x
    }
}

/// A node that is asked for its vote.
pub proof fn lemma_request_vote<C>(
    set: Setting<C>,
    w: World<C>,
    id: NodeId,
    node: NodeView<C>,
    from: NodeId,
    req: RequestVote,
) -> (x: World<C>)
    requires
        refine::ready(set, w, id, node),
        refine::heard(set, w, from, id, MessageView::RequestVote(req)),
    ensures
        carried_out(set, w, x, id, node, node.handle_request_vote(from, req)),
{
    let newer = req.term.value > node.term().value;
    let (voter, y) = if newer {
        (
            node.become_follower(req.term, None),
            lemma_become_follower(set, w, id, node, req.term, None),
        )
    } else {
        lemma_idle(set, w, id, node);
        (node, w)
    };
    refine::lemma_heard_grows(set, w, y, from, id, MessageView::RequestVote(req));
    let p = y.peers[id];
    protocol::lemma_peer(y, id);
    let step = node.handle_request_vote(from, req);
    if voter.should_grant_vote(req) {
        refine::lemma_tail(voter.log(), p.log);
        assert(protocol::last_term(p.log) <= u64::MAX) by {
            if p.log.len() > 0 {
                assert(p.log[p.log.len() - 1].term <= p.term);
            }
        }
        let z = if voter.persistent.voted_for is None {
            steps::lemma_grant(
                y,
                id,
                from,
                req.last_log_index.value as nat,
                req.last_log_term.value as nat,
            );
            steps::grant(y, id, from)
        } else {
            steps::lemma_follows_self(y, id);
            y
        };
        lemma_same_log(y, z, id);
        protocol::lemma_peer(z, id);
        assert(z.peers[id].log == p.log);
        assert(refine::refined(set, y, z, id, voter, step.0));
        let note = Note::<C>::Grant { term: p.term, voter: id, candidate: from };
        assert(z.note_ok(note));
        let x = steps::say(z, set![note]);
        steps::lemma_say(z, id, set![note]);
        lemma_same_log(z, x, id);
        assert(refine::refined(set, z, x, id, step.0, step.0));
        refine::lemma_refined_trans(set, y, z, x, id, voter, step.0, step.0);
        refine::lemma_refined_trans(set, w, y, x, id, node, voter, step.0);
        assert(x.notes.contains(note));
        x
    } else {
        y
    }
}

/// A leader that was just elected.
proof fn lemma_become_leader<C>(set: Setting<C>, w: World<C>, id: NodeId, node: NodeView<C>) -> (x:
    World<C>)
    requires
        refine::ready(set, w, id, node),
        node.log().last_index() < u64::MAX,
        w.peers[id].role is Candidate,
        quorum::is_quorum(
            w.peers[id].role->Candidate_0,
            protocol::config_in(w.initial, w.peers[id].log),
        ),
    ensures
        carried_out(set, w, x, id, node, node.become_leader()),
{
    let p = w.peers[id];
    let entry = EntryView { term: p.term, payload: PayloadView::NoOp };
    let persistent = node.persistent.append_entry(entry);
    let last = LogIndex { value: persistent.log.last_index() as u64 };
    let leader = LeaderView::fresh(node.peers(), last);
    let raised = NodeView { persistent, role: RoleView::Leader(leader), ..node };
    let y = steps::lead(w, id, entry, leader.matched);
    steps::lemma_lead(w, id, entry, leader.matched);
    protocol::lemma_peer(w, id);
    refine::lemma_tail(node.log(), p.log);
    let log = p.log.push(entry);
    lemma_tail_push(set, node, p, entry);
    protocol::lemma_config_fit(w, p.log, w.exempt(id));
    assert(leader.next.dom() =~= node.peers());
    assert(refine::is_peer(set, id, raised, y.peers[id]));
    assert(refine::ready(set, y, id, raised));
    let z = lemma_advance_commit(set, y, id, raised);
    let after = raised.advance_commit();
    assert(after == node.lead());
    assert(refine::ready(set, z, id, after));
    let x = lemma_heartbeats(set, z, id, after);
    steps::lemma_follows_trans(w, y, z, id);
    steps::lemma_follows_trans(w, z, x, id);
    assert(protocol::agree(z.peers[id].log, p.log, p.commit)) by {
        assert(log.take(p.commit as int) =~= p.log.take(p.commit as int));
    }
    protocol::lemma_peer(z, id);
    protocol::lemma_agree_shorter(
        x.peers[id].log,
        z.peers[id].log,
        z.peers[id].commit,
        p.commit,
    );
    protocol::lemma_agree_trans(x.peers[id].log, z.peers[id].log, p.log, p.commit);
    x
}

/// A node's log with one entry more is the whole log with one entry more.
proof fn lemma_tail_push<C>(set: Setting<C>, node: NodeView<C>, p: Peer<C>, entry: EntryView<C>)
    requires
        refine::is_peer(set, node.id, node, p),
        p.commit <= p.log.len(),
    ensures
        refine::is_tail(node.log().push(entry), p.log.push(entry)),
        refine::members_in(set.initial, p.log.push(entry)) == match entry.payload {
            PayloadView::ConfigChange(config) => config,
            _ => refine::members_in(set.initial, p.log),
        },
        refine::informed(set, node.id, node) || entry.payload is ConfigChange ==> refine::told(
            set,
            node.id,
            node.persistent.latest_snapshot,
            node.log().push(entry).entries,
        ),
        refine::covers(
            set,
            node.persistent.latest_snapshot,
            node.log().boundary,
            p.log.push(entry),
        ),
        node.to_restore matches Some(s) ==> (set.faithful)(
            s.data,
            p.log.push(entry).take(node.applied.value as int),
        ),
{
    let full = p.log.push(entry);
    let tail = node.log().push(entry);
    let b = node.log().boundary as int;
    assert(tail.entries =~= full.skip(b));
    assert(full.take(b) =~= p.log.take(b));
    assert(full.take(node.applied.value as int) =~= p.log.take(node.applied.value as int));
    assert(full.drop_last() =~= p.log);
    assert(tail.entries.drop_last() =~= node.log().entries);
}

/// A candidate that is answered.
pub proof fn lemma_request_vote_response<C>(
    set: Setting<C>,
    w: World<C>,
    id: NodeId,
    node: NodeView<C>,
    from: NodeId,
    resp: RequestVoteResponse,
) -> (x: World<C>)
    requires
        refine::ready(set, w, id, node),
        node.log().last_index() < u64::MAX,
        refine::heard(set, w, from, id, MessageView::RequestVoteResponse(resp)),
    ensures
        carried_out(set, w, x, id, node, node.handle_request_vote_response(from, resp)),
{
    lemma_idle(set, w, id, node);
    if resp.term.value < node.term().value {
        w
    } else if resp.term.value > node.term().value {
        lemma_become_follower(set, w, id, node, resp.term, None)
    } else {
        match node.role {
            RoleView::Candidate(votes) => {
                let (counted, y) = if resp.vote == Vote::Granted && node.config.dom().contains(
                    from,
                ) {
                    steps::lemma_count(w, id, from);
                    (votes.insert(from), steps::count(w, id, from))
                } else {
                    (votes, w)
                };
                let candidate = NodeView { role: RoleView::Candidate(counted), ..node };
                lemma_same_log(w, y, id);
                assert(refine::refined(set, w, y, id, node, candidate));
                protocol::lemma_peer(y, id);
                protocol::lemma_config_fit(y, y.peers[id].log, y.exempt(id));
                if counted.len() >= quorum::majority_of(node.peers().len() + 1) {
                    let x = lemma_become_leader(set, y, id, candidate);
                    refine::lemma_refined_trans(
                        set,
                        w,
                        y,
                        x,
                        id,
                        node,
                        candidate,
                        candidate.become_leader().0,
                    );
                    x
                } else {
                    y
                }
            },
            _ => w,
        }
    }
}

// ---- Following ----
/// A node that is sent entries.
pub proof fn lemma_append_entries<C>(
    set: Setting<C>,
    w: World<C>,
    id: NodeId,
    node: NodeView<C>,
    from: NodeId,
    req: AppendEntriesView<C>,
) -> (x: World<C>)
    requires
        refine::ready(set, w, id, node),
        refine::heard(set, w, from, id, MessageView::AppendEntries(req)),
        node.has_room_for(MessageView::AppendEntries(req)),
    ensures
        carried_out(set, w, x, id, node, node.handle_append_entries(from, req)),
{
    if req.term.value < node.term().value {
        lemma_idle(set, w, id, node);
        w
    } else {
        let follower = node.follow(req.term, req.leader_id);
        let y = lemma_follow(set, w, id, node, req.term, req.leader_id);
        refine::lemma_heard_grows(set, w, y, from, id, MessageView::AppendEntries(req));
        let matches = follower.log().matches(
            req.prev_log_index.value as int,
            req.prev_log_term.value as nat,
        );
        if !matches {
            let reply = MessageView::AppendEntriesResponse(
                AppendEntriesResponse::Rejected { term: follower.term() },
            );
            lemma_reply_said(set, y, id, from, reply);
            y
        } else {
            let x = lemma_accept_entries(set, y, id, follower, from, req);
            let after = follower.append_entries(req.prev_log_index, req.entries).learn_commit(
                req.leader_commit,
            );
            refine::lemma_refined_trans(set, w, y, x, id, node, follower, after);
            let reply = MessageView::AppendEntriesResponse(
                AppendEntriesResponse::Accepted {
                    term: after.term(),
                    match_index: after.last_index(),
                },
            );
            assert(node.handle_append_entries(from, req) == (
                after,
                seq![CommandView::ResetElectionTimer, model::send(from, reply)],
            ));
            lemma_reply_said(set, x, id, from, reply);
            x
        }
    }
}

/// Whether a follower is to accept what it is sent.
pub open spec fn accepts<C>(
    set: Setting<C>,
    w: World<C>,
    id: NodeId,
    node: NodeView<C>,
    from: NodeId,
    req: AppendEntriesView<C>,
) -> bool {
    &&& refine::ready(set, w, id, node)
    &&& refine::heard(set, w, from, id, MessageView::AppendEntries(req))
    &&& w.peers[id].role is Follower
    &&& !w.elected(id)
    &&& node.term() == req.term
    &&& req.prev_log_index.value + req.entries.len() <= u64::MAX
    &&& node.log().matches(req.prev_log_index.value as int, req.prev_log_term.value as nat)
}

/// Whether `full` is `old` with the last few of `entries` behind it.
pub open spec fn extended_by<C>(old: Entries<C>, entries: Entries<C>, full: Entries<C>) -> bool {
    exists|n: int| 0 <= n <= entries.len() && full == old + #[trigger] entries.skip(n)
}

/// Merging without a conflict only adds entries.
proof fn lemma_merge_extends<C>(old: Entries<C>, prev: nat, entries: Entries<C>)
    requires
        prev <= old.len(),
        refine::uncompacted(old).conflict(prev, entries) is None,
    ensures
        extended_by(old, entries, refine::uncompacted(old).merge(prev, entries).entries),
{
    let view = refine::uncompacted(old);
    log::lemma_held(view, prev, entries);
    let n = view.held(prev, entries);
    if n > 0 {
        assert(view.holds(prev, entries, n - 1));
    }
    let full = view.merge(prev, entries).entries;
    assert(full =~= old + entries.skip(n as int));
}

/// The whole log of a follower that accepts what it is sent becomes a part of its leader's.
pub proof fn lemma_accepted_log<C>(
    set: Setting<C>,
    w: World<C>,
    id: NodeId,
    node: NodeView<C>,
    from: NodeId,
    req: AppendEntriesView<C>,
) -> (full: Entries<C>)
    requires
        accepts(set, w, id, node, from, req),
    ensures
        steps::replace_log(w, id, full).inv(),
        steps::follows(w, steps::replace_log(w, id, full), id),
        w.led(w.peers[id].term),
        full == refine::uncompacted(w.peers[id].log).merge(
            req.prev_log_index.value as nat,
            req.entries,
        ).entries,
        node.log().conflict(req.prev_log_index.value as nat, req.entries) == refine::uncompacted(
            w.peers[id].log,
        ).conflict(req.prev_log_index.value as nat, req.entries),
        req.prev_log_index.value <= w.peers[id].log.len(),
        full.len() <= w.shown[w.peers[id].term],
        full.len() <= u64::MAX,
        protocol::agree(full, w.leader_logs[w.peers[id].term], full.len()),
        protocol::agree(full, w.peers[id].log, w.peers[id].commit),
        w.peers[id].commit <= full.len(),
        refine::is_tail(node.log().merge(req.prev_log_index.value as nat, req.entries), full),
        node.log().merge(req.prev_log_index.value as nat, req.entries).boundary
            == node.log().boundary,
        node.log().conflict(req.prev_log_index.value as nat, req.entries) is None ==> extended_by(
            w.peers[id].log,
            req.entries,
            full,
        ),
{
    let p = w.peers[id];
    let t = p.term;
    let theirs = w.leader_logs[t];
    let prev = req.prev_log_index.value as nat;
    let full = refine::uncompacted(p.log).merge(prev, req.entries).entries;
    protocol::lemma_peer(w, id);
    protocol::lemma_leader(w, t);
    protocol::lemma_note(w, refine::append_note(req));
    refine::lemma_tail(node.log(), p.log);
    protocol::lemma_settled_in_leader(w, p.log, p.commit, t, t);
    let b = node.log().boundary;
    protocol::lemma_agree_shorter(p.log, theirs, p.commit, b);
    assert(refine::term_at(p.log, prev) == req.prev_log_term.value) by {
        if prev < b && prev > 0 {
            protocol::lemma_agree_at(p.log, theirs, b, prev - 1);
        }
    }
    refine::lemma_accept(
        w,
        id,
        prev,
        req.prev_log_term.value as nat,
        req.entries,
        req.leader_commit.value as nat,
    );
    refine::lemma_merge_tail(node.log(), p.log, theirs, prev, req.entries);
    if node.log().conflict(prev, req.entries) is None {
        lemma_merge_extends(p.log, prev, req.entries);
    }
    steps::lemma_replace_log(w, id, full);
    assert(p.commit <= full.len());
    protocol::lemma_agree_shorter(full, theirs, full.len(), p.commit);
    protocol::lemma_agree_trans(full, theirs, p.log, p.commit);
    full
}

/// A node whose log is replaced by one that agrees on everything committed is still itself.
proof fn lemma_replaced<C>(
    set: Setting<C>,
    id: NodeId,
    node: NodeView<C>,
    p: Peer<C>,
    merged: NodeView<C>,
    full: Entries<C>,
)
    requires
        refine::is_peer(set, id, node, p),
        p.role is Follower,
        p.commit <= p.log.len(),
        full.len() <= u64::MAX,
        protocol::agree(full, p.log, p.commit),
        merged == (NodeView {
            persistent: merged.persistent,
            config: merged.config,
            config_changes: merged.config_changes,
            ..node
        }),
        merged.config == refine::config_for(set, id, merged, full),
        merged.term() == node.term(),
        merged.persistent.voted_for == node.persistent.voted_for,
        merged.persistent.latest_snapshot == node.persistent.latest_snapshot,
        merged.log().boundary == node.log().boundary,
        refine::is_tail(merged.log(), full),
    ensures
        refine::is_peer(set, id, merged, Peer { log: full, durable: full.len(), ..p }),
{
    let b = node.log().boundary;
    assert(full.take(b as int) =~= full.take(p.commit as int).take(b as int));
    assert(p.log.take(b as int) =~= p.log.take(p.commit as int).take(b as int));
    let applied = node.applied.value as int;
    assert(full.take(applied) =~= full.take(p.commit as int).take(applied));
    assert(p.log.take(applied) =~= p.log.take(p.commit as int).take(applied));
    if b > 0 {
        protocol::lemma_agree_at(full, p.log, p.commit, b - 1);
    }
}

/// A follower whose log matches what it is sent.
proof fn lemma_accept_entries<C>(
    set: Setting<C>,
    w: World<C>,
    id: NodeId,
    node: NodeView<C>,
    from: NodeId,
    req: AppendEntriesView<C>,
) -> (x: World<C>)
    requires
        accepts(set, w, id, node, from, req),
    ensures
        ({
            let after = node.append_entries(req.prev_log_index, req.entries).learn_commit(
                req.leader_commit,
            );
            let note = Note::Ack {
                term: req.term.value as nat,
                from: id,
                index: after.last_index().value as nat,
            };
            &&& refine::refined(set, w, x, id, node, after)
            &&& x.notes.contains(note)
            &&& after.term() == req.term
        }),
{
    let prev = req.prev_log_index.value as nat;
    let full = lemma_accepted_log(set, w, id, node, from, req);
    let y = steps::replace_log(w, id, full);
    let middle = node.append_entries(req.prev_log_index, req.entries);
    protocol::lemma_peer(w, id);
    lemma_merged_config(set, id, node, w.peers[id], req, full);
    lemma_replaced(set, id, node, w.peers[id], middle, full);
    assert(refine::refined(set, w, y, id, node, middle));
    let after = middle.learn_commit(req.leader_commit);
    let t = w.peers[id].term;
    protocol::lemma_leader(w, t);
    steps::lemma_agree_grows(w, y, full, t, full.len());
    refine::lemma_heard_grows(set, w, y, from, id, MessageView::AppendEntries(req));
    let x = lemma_learn_commit(set, y, id, middle, from, req);
    refine::lemma_refined_trans(set, w, y, x, id, node, middle, after);
    x
}

/// A follower whose log is a part of its leader's learns how far that is committed, and
/// acknowledges it.
proof fn lemma_learn_commit<C>(
    set: Setting<C>,
    w: World<C>,
    id: NodeId,
    node: NodeView<C>,
    from: NodeId,
    req: AppendEntriesView<C>,
) -> (x: World<C>)
    requires
        refine::ready(set, w, id, node),
        refine::heard(set, w, from, id, MessageView::AppendEntries(req)),
        w.peers[id].role is Follower,
        node.term() == req.term,
        w.peers[id].log.len() <= w.durable[req.term.value as nat],
        protocol::agree(
            w.peers[id].log,
            w.leader_logs[req.term.value as nat],
            w.peers[id].log.len(),
        ),
    ensures
        ({
            let after = node.learn_commit(req.leader_commit);
            let note = Note::Ack {
                term: req.term.value as nat,
                from: id,
                index: after.last_index().value as nat,
            };
            &&& refine::refined(set, w, x, id, node, after)
            &&& x.notes.contains(note)
            &&& after.term() == req.term
        }),
{
    let p = w.peers[id];
    let t = p.term;
    let theirs = w.leader_logs[t];
    let last = p.log.len();
    protocol::lemma_peer(w, id);
    protocol::lemma_note(w, refine::append_note(req));
    refine::lemma_tail(node.log(), p.log);
    let after = node.learn_commit(req.leader_commit);
    let n = after.commit.value as nat;
    let z = if req.leader_commit.value > node.commit.value {
        steps::lemma_settled_shorter(w, theirs, req.leader_commit.value as nat, n, t);
        protocol::lemma_agree_shorter(p.log, theirs, last, n);
        steps::lemma_settled_transfers(w, theirs, p.log, n, t);
        steps::lemma_commit_to(w, id, n);
        steps::commit_to(w, id, n)
    } else {
        steps::lemma_follows_self(w, id);
        w
    };
    lemma_same_log(w, z, id);
    assert(refine::refined(set, w, z, id, node, after));
    steps::lemma_agree_grows(w, z, p.log, t, last);
    let x = steps::ack(z, id, last);
    steps::lemma_ack(z, id, last);
    lemma_same_log(z, x, id);
    assert(refine::refined(set, z, x, id, after, after));
    refine::lemma_refined_trans(set, w, z, x, id, node, after, after);
    x
}

/// What is committed of a log that was replaced covers the same snapshot.
proof fn lemma_covers_replaced<C>(
    set: Setting<C>,
    node: NodeView<C>,
    p: Peer<C>,
    full: Entries<C>,
)
    requires
        refine::is_peer(set, node.id, node, p),
        p.commit <= p.log.len(),
        protocol::agree(full, p.log, p.commit),
    ensures
        refine::covers(set, node.persistent.latest_snapshot, node.log().boundary, full),
{
    let b = node.log().boundary;
    assert(full.take(b as int) =~= full.take(p.commit as int).take(b as int));
    assert(p.log.take(b as int) =~= p.log.take(p.commit as int).take(b as int));
    if b > 0 {
        protocol::lemma_agree_at(full, p.log, p.commit, b - 1);
    }
}

/// A follower goes by the membership of the log that it has merged entries into.
proof fn lemma_merged_config<C>(
    set: Setting<C>,
    id: NodeId,
    node: NodeView<C>,
    p: Peer<C>,
    req: AppendEntriesView<C>,
    full: Entries<C>,
)
    requires
        refine::is_peer(set, id, node, p),
        p.role is Follower,
        p.commit <= p.log.len(),
        protocol::agree(full, p.log, p.commit),
        refine::is_tail(node.log().merge(req.prev_log_index.value as nat, req.entries), full),
        node.log().merge(req.prev_log_index.value as nat, req.entries).boundary
            == node.log().boundary,
        node.log().conflict(req.prev_log_index.value as nat, req.entries) is None ==> extended_by(
            p.log,
            req.entries,
            full,
        ),
    ensures
        ({
            let middle = node.append_entries(req.prev_log_index, req.entries);
            &&& middle == (NodeView {
                persistent: node.persistent.merge_entries(
                    req.prev_log_index.value as nat,
                    req.entries,
                ),
                config: refine::config_for(set, id, middle, full),
                config_changes: middle.config_changes,
                ..node
            })
        }),
{
    let prev = req.prev_log_index.value as nat;
    let merged = NodeView {
        persistent: node.persistent.merge_entries(prev, req.entries),
        ..node
    };
    lemma_covers_replaced(set, node, p, full);
    refine::lemma_adopts(set, id, merged, full);
    if node.log().conflict(prev, req.entries) is None && !log::has_config_change(req.entries) {
        let n = choose|n: int|
            0 <= n <= req.entries.len() && full == p.log + #[trigger] req.entries.skip(n);
        let more = req.entries.skip(n);
        assert forall|k: int| 0 <= k < more.len() implies !((
        #[trigger] more[k]).payload is ConfigChange) by {
            assert(more[k] == req.entries[k + n]);
        }
        refine::lemma_members_stay(set.initial, p.log, more);
        assert(merged.log().entries =~= node.log().entries + more);
        refine::lemma_latest_concat(node.log().entries, more);
        refine::lemma_no_latest_config(more);
    }
}

/// A node that is sent a snapshot.
pub proof fn lemma_install_snapshot<C>(
    set: Setting<C>,
    w: World<C>,
    id: NodeId,
    node: NodeView<C>,
    from: NodeId,
    req: InstallSnapshotView,
) -> (x: World<C>)
    requires
        refine::ready(set, w, id, node),
        refine::heard(set, w, from, id, MessageView::InstallSnapshot(req)),
        req.snapshot.last_index <= u64::MAX,
    ensures
        carried_out(set, w, x, id, node, node.handle_install_snapshot(from, req)),
{
    if req.term.value < node.term().value {
        lemma_idle(set, w, id, node);
        w
    } else {
        let follower = node.follow(req.term, req.leader_id);
        let y = lemma_follow(set, w, id, node, req.term, req.leader_id);
        refine::lemma_heard_grows(set, w, y, from, id, MessageView::InstallSnapshot(req));
        let n = req.snapshot.last_index;
        let after = node.handle_install_snapshot(from, req).0;
        let z = if n <= follower.commit.value {
            lemma_idle(set, y, id, follower);
            y
        } else {
            lemma_install(set, y, id, follower, from, req)
        };
        assert(refine::refined(set, y, z, id, follower, after));
        refine::lemma_heard_grows(set, y, z, from, id, MessageView::InstallSnapshot(req));
        let x = lemma_acknowledge_snapshot(set, z, id, after, from, req);
        refine::lemma_refined_trans(set, y, z, x, id, follower, after, after);
        refine::lemma_refined_trans(set, w, y, x, id, node, follower, after);
        let reply = MessageView::InstallSnapshotResponse(
            InstallSnapshotResponse::Installed {
                term: after.term(),
                last_index: LogIndex { value: n as u64 },
            },
        );
        assert(node.handle_install_snapshot(from, req) == (
            after,
            seq![CommandView::ResetElectionTimer, model::send(from, reply)],
        ));
        lemma_reply_said(set, x, id, from, reply);
        x
    }
}

/// A follower that has committed through a snapshot acknowledges it.
proof fn lemma_acknowledge_snapshot<C>(
    set: Setting<C>,
    w: World<C>,
    id: NodeId,
    node: NodeView<C>,
    from: NodeId,
    req: InstallSnapshotView,
) -> (x: World<C>)
    requires
        refine::ready(set, w, id, node),
        refine::heard(set, w, from, id, MessageView::InstallSnapshot(req)),
        node.term() == req.term,
        req.snapshot.last_index <= node.commit.value,
    ensures
        refine::refined(set, w, x, id, node, node),
        x.notes.contains(
            Note::Ack {
                term: req.term.value as nat,
                from: id,
                index: req.snapshot.last_index,
            },
        ),
{
    let p = w.peers[id];
    let t = p.term;
    let n = req.snapshot.last_index;
    protocol::lemma_peer(w, id);
    protocol::lemma_note(w, refine::snap_note(req));
    protocol::lemma_leader(w, t);
    protocol::lemma_settled_in_leader(w, p.log, p.commit, t, t);
    protocol::lemma_agree_shorter(p.log, w.leader_logs[t], p.commit, n);
    let x = steps::ack(w, id, n);
    steps::lemma_ack(w, id, n);
    lemma_same_log(w, x, id);
    x
}

/// Whether a follower is to install a snapshot.
spec fn installs<C>(
    set: Setting<C>,
    w: World<C>,
    id: NodeId,
    node: NodeView<C>,
    from: NodeId,
    req: InstallSnapshotView,
) -> bool {
    &&& refine::ready(set, w, id, node)
    &&& refine::heard(set, w, from, id, MessageView::InstallSnapshot(req))
    &&& w.peers[id].role is Follower
    &&& !w.elected(id)
    &&& node.term() == req.term
    &&& req.snapshot.last_index > node.commit.value
    &&& req.snapshot.last_index <= u64::MAX
}

/// The whole log of a follower that installs a snapshot: its own where it agrees with the snapshot,
/// and otherwise the part of its leader's that the snapshot stands for.
proof fn lemma_installed_log<C>(
    set: Setting<C>,
    w: World<C>,
    id: NodeId,
    node: NodeView<C>,
    from: NodeId,
    req: InstallSnapshotView,
) -> (logs: (Entries<C>, World<C>))
    requires
        installs(set, w, id, node, from, req),
    ensures
        ({
            let p = w.peers[id];
            let theirs = w.leader_logs[p.term];
            let n = req.snapshot.last_index;
            let (full, x) = logs;
            &&& x.inv()
            &&& steps::follows(w, x, id)
            &&& x.peers[id] == (Peer { log: full, durable: full.len(), commit: n, ..p })
            &&& p.commit < n <= full.len()
            &&& n >= 1
            &&& protocol::agree(full, theirs, n)
            &&& protocol::agree(full, p.log, p.commit)
            &&& req.snapshot.last_term == refine::term_at(full, n)
            &&& (set.faithful)(req.snapshot.data, full.take(n as int))
            &&& req.snapshot.config == refine::members_in(set.initial, full.take(n as int))
            &&& if node.log().knows(n as int) && node.log().term_of(n as int)
                == req.snapshot.last_term {
                full == p.log
            } else {
                full.len() == n
            }
        }),
{
    let p = w.peers[id];
    let t = p.term;
    let theirs = w.leader_logs[t];
    let snapshot = req.snapshot;
    let n = snapshot.last_index;
    protocol::lemma_peer(w, id);
    protocol::lemma_leader(w, t);
    protocol::lemma_note(w, refine::snap_note(req));
    refine::lemma_tail(node.log(), p.log);
    let retained = node.log().knows(n as int) && node.log().term_of(n as int)
        == snapshot.last_term;
    let (full, y) = if retained {
        protocol::lemma_log_matching(w, p.log, 0, theirs, t, n - 1);
        steps::lemma_follows_self(w, id);
        (p.log, w)
    } else {
        let full = theirs.take(n as int);
        assert(full.take(n as int) =~= full);
        protocol::lemma_settled_in_leader(w, p.log, p.commit, t, t);
        assert forall|m: nat| #[trigger] protocol::agree(p.log, theirs, m) implies m
            <= full.len() by {
            if m > n {
                protocol::lemma_agree_at(p.log, theirs, m, n - 1);
            }
        }
        steps::lemma_replace_log(w, id, full);
        protocol::lemma_agree_shorter(full, theirs, n, p.commit);
        protocol::lemma_agree_trans(full, theirs, p.log, p.commit);
        (full, steps::replace_log(w, id, full))
    };
    assert(protocol::agree(full, theirs, n));
    assert(protocol::agree(full, p.log, p.commit));
    steps::lemma_settled_transfers(w, theirs, full, n, t);
    protocol::lemma_leaders(w);
    steps::lemma_settled_grows(w, y, full, n, t, t);
    let x = steps::commit_to(y, id, n);
    steps::lemma_commit_to(y, id, n);
    steps::lemma_follows_trans(w, y, x, id);
    protocol::lemma_agree_at(full, theirs, n, n - 1);
    assert(full.take(n as int) == theirs.take(n as int));
    (full, x)
}

/// A node that installs a snapshot is a peer with the log that leads to.
proof fn lemma_installed_peer<C>(
    set: Setting<C>,
    id: NodeId,
    node: NodeView<C>,
    p: Peer<C>,
    full: Entries<C>,
    snapshot: SnapshotView,
)
    requires
        refine::is_peer(set, id, node, p),
        p.role is Follower,
        p.commit <= p.log.len(),
        snapshot.config == refine::members_in(
            set.initial,
            full.take(snapshot.last_index as int),
        ),
        1 <= snapshot.last_index <= u64::MAX,
        p.commit < snapshot.last_index <= full.len(),
        snapshot.last_term == refine::term_at(full, snapshot.last_index),
        (set.faithful)(snapshot.data, full.take(snapshot.last_index as int)),
        if node.log().knows(snapshot.last_index as int) && node.log().term_of(
            snapshot.last_index as int,
        ) == snapshot.last_term {
            full == p.log
        } else {
            full.len() == snapshot.last_index
        },
    ensures
        refine::is_peer(
            set,
            id,
            node.install_snapshot(snapshot),
            Peer { log: full, durable: full.len(), commit: snapshot.last_index, ..p },
        ),
        node.install_snapshot(snapshot).term() == node.term(),
        node.install_snapshot(snapshot).to_restore is Some,
        node.install_snapshot(snapshot).commit.value == snapshot.last_index,
{
    let n = snapshot.last_index;
    let index = LogIndex { value: n as u64 };
    refine::lemma_tail(node.log(), p.log);
    let installed = NodeView {
        persistent: node.persistent.install_snapshot(snapshot, node.disposition_for(snapshot)),
        commit: index,
        applied: index,
        ..node
    };
    assert(installed.log().entries =~= full.skip(n as int));
    refine::lemma_adopts(set, id, installed, full);
}

/// A follower whose log a snapshot of its leader replaces, or goes beyond.
proof fn lemma_install<C>(
    set: Setting<C>,
    w: World<C>,
    id: NodeId,
    node: NodeView<C>,
    from: NodeId,
    req: InstallSnapshotView,
) -> (x: World<C>)
    requires
        installs(set, w, id, node, from, req),
    ensures
        refine::refined(set, w, x, id, node, node.install_snapshot(req.snapshot)),
        node.install_snapshot(req.snapshot).term() == req.term,
{
    let (full, x) = lemma_installed_log(set, w, id, node, from, req);
    let p = w.peers[id];
    assert(p.commit <= p.log.len()) by {
        protocol::lemma_peer(w, id);
    }
    lemma_installed_peer(set, id, node, p, full, req.snapshot);
    x
}

// ---- Leading ----
/// A leader that takes note of an acknowledgement.
proof fn lemma_acknowledge<C>(
    set: Setting<C>,
    w: World<C>,
    id: NodeId,
    node: NodeView<C>,
    from: NodeId,
    index: LogIndex,
) -> (x: World<C>)
    requires
        refine::ready(set, w, id, node),
        node.role is Leader,
        from != id,
        w.servers.contains(from),
        w.notes.contains(
            Note::Ack { term: w.peers[id].term, from, index: index.value as nat },
        ),
    ensures
        carried_out(
            set,
            w,
            x,
            id,
            node,
            node.acknowledge(node.role->Leader_0.record_success(from, index)),
        ),
{
    let p = w.peers[id];
    let t = p.term;
    let leader = node.role->Leader_0;
    let recorded = leader.record_success(from, index);
    protocol::lemma_peer(w, id);
    protocol::lemma_note(w, Note::Ack { term: t, from, index: index.value as nat });
    assert(w.acked(from, t, index.value as nat));
    assert forall|v: NodeId| #[trigger]
        recorded.matched.dom().contains(v) && recorded.matched[v].value > 0 implies w.acked(
        v,
        t,
        recorded.matched[v].value as nat,
    ) by {
        if v != from || index.value <= leader.matched_by(from).value {
            assert(leader.matched.dom().contains(v) && leader.matched[v].value > 0);
        }
    }
    let y = steps::set_matched(w, id, recorded.matched);
    steps::lemma_set_matched(w, id, recorded.matched);
    lemma_same_log(w, y, id);
    let raised = NodeView { role: RoleView::Leader(recorded), ..node };
    assert forall|v: NodeId| #[trigger] recorded.next.dom().contains(v) implies
        recorded.next[v].value <= p.log.len() + 1 by {
        if v != from || index.value <= leader.matched_by(from).value {
            assert(leader.next.dom().contains(v));
        }
    }
    assert(refine::refined(set, w, y, id, node, raised));
    let x = lemma_advance_commit(set, y, id, raised);
    protocol::lemma_peer(y, id);
    lemma_same_log(y, x, id);
    assert(refine::refined(set, y, x, id, raised, raised.advance_commit()));
    refine::lemma_refined_trans(set, w, y, x, id, node, raised, raised.advance_commit());
    x
}

/// A leader that hears back from a peer it sent entries to.
pub proof fn lemma_append_entries_response<C>(
    set: Setting<C>,
    w: World<C>,
    id: NodeId,
    node: NodeView<C>,
    from: NodeId,
    resp: AppendEntriesResponse,
) -> (x: World<C>)
    requires
        refine::ready(set, w, id, node),
        refine::heard(set, w, from, id, MessageView::AppendEntriesResponse(resp)),
    ensures
        carried_out(set, w, x, id, node, node.handle_append_entries_response(from, resp)),
{
    let term = match resp {
        AppendEntriesResponse::Accepted { term, .. } => term,
        AppendEntriesResponse::Rejected { term } => term,
    };
    lemma_idle(set, w, id, node);
    if term.value > node.term().value {
        lemma_become_follower(set, w, id, node, term, None)
    } else if term.value < node.term().value {
        w
    } else {
        match (node.role, resp) {
            (RoleView::Leader(leader), AppendEntriesResponse::Accepted { match_index, .. }) => {
                lemma_acknowledge(set, w, id, node, from, match_index)
            },
            _ => w,
        }
    }
}

/// A leader that hears back from a peer it sent a snapshot to.
pub proof fn lemma_install_snapshot_response<C>(
    set: Setting<C>,
    w: World<C>,
    id: NodeId,
    node: NodeView<C>,
    from: NodeId,
    resp: InstallSnapshotResponse,
) -> (x: World<C>)
    requires
        refine::ready(set, w, id, node),
        refine::heard(set, w, from, id, MessageView::InstallSnapshotResponse(resp)),
    ensures
        carried_out(set, w, x, id, node, node.handle_install_snapshot_response(from, resp)),
{
    let term = match resp {
        InstallSnapshotResponse::Installed { term, .. } => term,
        InstallSnapshotResponse::Rejected { term } => term,
    };
    lemma_idle(set, w, id, node);
    if term.value > node.term().value {
        lemma_become_follower(set, w, id, node, term, None)
    } else if term.value < node.term().value {
        w
    } else {
        match (node.role, resp) {
            (RoleView::Leader(leader), InstallSnapshotResponse::Installed { last_index, .. }) => {
                lemma_acknowledge(set, w, id, node, from, last_index)
            },
            _ => w,
        }
    }
}

/// A node that a message reaches.
pub proof fn lemma_message<C>(
    set: Setting<C>,
    w: World<C>,
    id: NodeId,
    node: NodeView<C>,
    from: NodeId,
    message: MessageView<C>,
) -> (x: World<C>)
    requires
        refine::ready(set, w, id, node),
        refine::heard(set, w, from, id, message),
        node.log().last_index() < u64::MAX,
        node.has_room_for(message),
    ensures
        carried_out(set, w, x, id, node, node.handle_message(from, message)),
{
    match message {
        MessageView::RequestVote(m) => lemma_request_vote(set, w, id, node, from, m),
        MessageView::RequestVoteResponse(m) => lemma_request_vote_response(
            set,
            w,
            id,
            node,
            from,
            m,
        ),
        MessageView::AppendEntries(m) => lemma_append_entries(set, w, id, node, from, m),
        MessageView::AppendEntriesResponse(m) => lemma_append_entries_response(
            set,
            w,
            id,
            node,
            from,
            m,
        ),
        MessageView::InstallSnapshot(m) => lemma_install_snapshot(set, w, id, node, from, m),
        MessageView::InstallSnapshotResponse(m) => lemma_install_snapshot_response(
            set,
            w,
            id,
            node,
            from,
            m,
        ),
    }
}

// ---- Clients ----
/// A leader that a client hands a command to.
pub proof fn lemma_submit<C>(
    set: Setting<C>,
    w: World<C>,
    id: NodeId,
    node: NodeView<C>,
    command: C,
) -> (x: World<C>)
    requires
        refine::placed(set, w, id, node),
        node.role is Leader,
        node.log().last_index() < u64::MAX,
    ensures
        refine::placed(set, x, id, node.submit_command(command)),
        steps::follows(w, x, id),
        appended(
            w,
            x,
            id,
            EntryView { term: w.peers[id].term, payload: PayloadView::Command(command) },
        ),
        node.submit_command(command) == (NodeView {
            persistent: node.propose(PayloadView::Command(command)).persistent,
            commit: node.submit_command(command).commit,
            role: node.submit_command(command).role,
            ..node
        }),
{
    let p = w.peers[id];
    let entry = EntryView { term: p.term, payload: PayloadView::Command(command) };
    let y = steps::push(w, id, entry);
    steps::lemma_push(w, id, entry);
    protocol::lemma_peer(w, id);
    refine::lemma_tail(node.log(), p.log);
    lemma_tail_push(set, node, p, entry);
    let proposed = node.propose(PayloadView::Command(command));
    assert(refine::placed(set, y, id, proposed));
    let x = lemma_advance_commit(set, y, id, proposed);
    steps::lemma_follows_trans(w, y, x, id);
    x
}

/// Whether a leader has appended `entry` and not stored it yet. It counts as stored where a lone
/// member has committed it already.
pub open spec fn appended<C>(w: World<C>, x: World<C>, id: NodeId, entry: EntryView<C>) -> bool {
    &&& w.elected(id)
    &&& x.elected(id)
    &&& x.peers[id].log == w.peers[id].log.push(entry)
    &&& x.peers[id].term == w.peers[id].term
    &&& x.peers[id].commit >= w.peers[id].commit
    &&& x.shown == w.shown
    &&& x.peers[id].durable == w.peers[id].durable || (x.peers[id].durable
        == x.peers[id].log.len() && x.peers[id].commit > w.peers[id].durable)
}

/// A leader that has appended a membership and goes by it.
proof fn lemma_retarget<C>(
    set: Setting<C>,
    w: World<C>,
    id: NodeId,
    node: NodeView<C>,
    config: Members,
) -> (z: (World<C>, NodeView<C>))
    requires
        refine::placed(
            set,
            w,
            id,
            NodeView { config: refine::members_in(set.initial, w.peers[id].log), ..node },
        ),
        config == refine::members_in(set.initial, w.peers[id].log),
        node.role is Leader,
        config.dom().finite(),
        config.dom().subset_of(set.servers),
    ensures
        ({
            let raised = NodeView {
                role: RoleView::Leader(
                    node.role->Leader_0.retarget(
                        node.peers(),
                        config.dom().remove(id),
                        node.last_index(),
                    ),
                ),
                config,
                config_changes: node.config_changes.push(config),
                ..node
            };
            &&& z.1 == raised
            &&& refine::placed(set, z.0, id, raised)
            &&& steps::follows(w, z.0, id)
            &&& z.0.elected(id)
            &&& z.0.shown == w.shown
            &&& z.0.peers[id] == (Peer { role: z.0.peers[id].role, ..w.peers[id] })
        }),
{
    let p = w.peers[id];
    let leader = node.role->Leader_0;
    let targeted = leader.retarget(node.peers(), config.dom().remove(id), node.last_index());
    let raised = NodeView {
        role: RoleView::Leader(targeted),
        config,
        config_changes: node.config_changes.push(config),
        ..node
    };
    protocol::lemma_peer(w, id);
    refine::lemma_tail(node.log(), p.log);
    assert forall|v: NodeId| #[trigger]
        targeted.matched.dom().contains(v) && targeted.matched[v].value > 0 implies w.acked(
        v,
        p.term,
        targeted.matched[v].value as nat,
    ) by {
        assert(leader.matched.dom().contains(v) && leader.matched[v].value > 0);
    }
    steps::lemma_set_matched(w, id, targeted.matched);
    assert(targeted.next.dom().finite()) by {
        let all = leader.next.dom().union(config.dom());
        vstd::set_lib::lemma_len_subset(targeted.next.dom(), all);
    }
    (steps::set_matched(w, id, targeted.matched), raised)
}

/// A leader that is handed a membership.
pub proof fn lemma_reconfigure<C>(
    set: Setting<C>,
    w: World<C>,
    id: NodeId,
    node: NodeView<C>,
    config: Members,
) -> (x: World<C>)
    requires
        refine::placed(set, w, id, node),
        node.role is Leader,
        node.log().last_index() < u64::MAX,
        steps::may_change(w, id, config.dom()),
    ensures
        refine::placed(set, x, id, node.propose_config_change(config)),
        steps::follows(w, x, id),
        appended(
            w,
            x,
            id,
            EntryView { term: w.peers[id].term, payload: PayloadView::ConfigChange(config) },
        ),
        node.propose_config_change(config) == (NodeView {
            persistent: node.propose(PayloadView::ConfigChange(config)).persistent,
            commit: node.propose_config_change(config).commit,
            role: node.propose_config_change(config).role,
            config,
            config_changes: node.propose_config_change(config).config_changes,
            ..node
        }),
{
    let p = w.peers[id];
    let entry = EntryView { term: p.term, payload: PayloadView::ConfigChange(config) };
    let y = steps::push(w, id, entry);
    steps::lemma_push(w, id, entry);
    protocol::lemma_peer(w, id);
    refine::lemma_tail(node.log(), p.log);
    lemma_tail_push(set, node, p, entry);
    let proposed = node.propose(PayloadView::ConfigChange(config));
    let (z, raised) = lemma_retarget(set, y, id, proposed, config);
    let x = lemma_advance_commit(set, z, id, raised);
    assert(node.propose_config_change(config) == raised.advance_commit());
    steps::lemma_follows_trans(w, y, z, id);
    steps::lemma_follows_trans(w, z, x, id);
    x
}

} // verus!
